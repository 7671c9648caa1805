//! Chains: the sectors of one stream, in order.
//!
//! An allocation table maps each sector id to the id of the sector that
//! follows it in its chain, or to a marker that ends the chain. Walking a
//! chain is the same for the allocation table and for the mini allocation
//! table.

use vstd::prelude::*;
use vstd::set_lib::lemma_int_range;
use vstd::set_lib::lemma_len_subset;
use vstd::set_lib::set_int_range;
use crate::constants::END_OF_CHAIN_SECID_U32;
use crate::constants::FREE_SECID_U32;
use crate::constants::SECID_MAX;
use crate::error::Error;

verus! {

/// Whether `id` ends a chain: the end-of-chain marker or the free marker.
pub open spec fn is_end_of_chain(id: u32) -> bool {
    id == END_OF_CHAIN_SECID_U32 || id == FREE_SECID_U32
}

/// Whether `id` names an entry of `table`.
pub open spec fn in_table(table: Seq<u32>, id: u32) -> bool {
    id <= SECID_MAX && id < table.len()
}

/// The id that stands at position `at` of a chain that starts with `start`
/// and whose earlier positions are those of `chain`: `start` itself at
/// position 0, afterwards what the table holds for the id before.
pub open spec fn linked_id(table: Seq<u32>, start: u32, chain: Seq<u32>, at: int) -> u32 {
    if at == 0 {
        start
    } else {
        table[chain[at - 1] as int]
    }
}

/// Whether each id of `chain` names an entry of `table` and is the one that
/// the links lead to.
pub open spec fn follows_links(table: Seq<u32>, start: u32, chain: Seq<u32>) -> bool {
    forall|i: int|
        0 <= i < chain.len() ==> in_table(table, #[trigger] chain[i]) && chain[i] == linked_id(
            table,
            start,
            chain,
            i,
        )
}

/// Whether `chain` is the chain of `table` that starts at `start`: it
/// follows the links from `start` and the link after its last id ends the
/// chain. A `start` that ends the chain has the empty chain.
pub open spec fn is_chain(table: Seq<u32>, start: u32, chain: Seq<u32>) -> bool {
    &&& follows_links(table, start, chain)
    &&& is_end_of_chain(linked_id(table, start, chain, chain.len() as int))
}

/// Whether `table` has a chain that starts at `start`.
pub open spec fn has_chain(table: Seq<u32>, start: u32) -> bool {
    exists|chain: Seq<u32>| is_chain(table, start, chain)
}

/// The chain of `table` that starts at `start`, where there is one.
pub open spec fn chain_of(table: Seq<u32>, start: u32) -> Seq<u32> {
    choose|chain: Seq<u32>| is_chain(table, start, chain)
}

/// The chain of `table` from `start`, or `InvalidFormat` where there is none.
pub open spec fn resolved_chain(table: Seq<u32>, start: u32) -> Result<Seq<u32>, Error> {
    if has_chain(table, start) {
        Ok(chain_of(table, start))
    } else {
        Err(Error::InvalidFormat)
    }
}

/// A chain of a table is the chain of that table.
pub proof fn lemma_chain_is_chain_of(table: Seq<u32>, start: u32, chain: Seq<u32>)
    requires
        is_chain(table, start, chain),
    ensures
        has_chain(table, start),
        chain_of(table, start) == chain,
        resolved_chain(table, start) == Ok::<Seq<u32>, Error>(chain),
{
    lemma_chain_unique(table, start, chain, chain_of(table, start));
}

/// What `resolved_chain` gives is a chain of the table.
pub proof fn lemma_resolved_is_chain(table: Seq<u32>, start: u32, chain: Seq<u32>)
    requires
        resolved_chain(table, start) == Ok::<Seq<u32>, Error>(chain),
    ensures
        is_chain(table, start, chain),
        chain.no_duplicates(),
        chain.len() > 0 ==> chain[0] == start && is_end_of_chain(table[chain.last() as int]),
{
    lemma_chain_no_duplicates(table, start, chain);
    if chain.len() > 0 {
        lemma_chain_last_is_terminal(table, start, chain);
    }
}

/// Two sequences that follow the links from one start agree as far as both reach.
pub proof fn lemma_links_agree(table: Seq<u32>, start: u32, a: Seq<u32>, b: Seq<u32>, upto: int)
    requires
        follows_links(table, start, a),
        follows_links(table, start, b),
        0 <= upto <= a.len(),
        upto <= b.len(),
    ensures
        a.take(upto) == b.take(upto),
    decreases upto,
{
    if upto > 0 {
        lemma_links_agree(table, start, a, b, upto - 1);
        if upto > 1 {
            assert(b[upto - 2] == b.take(upto - 1)[upto - 2]);
        }
        assert forall|i: int| 0 <= i < upto implies a.take(upto)[i] == b.take(upto)[i] by {}
    }
}

/// A table has at most one chain from a given start.
pub proof fn lemma_chain_unique(table: Seq<u32>, start: u32, a: Seq<u32>, b: Seq<u32>)
    requires
        is_chain(table, start, a),
        is_chain(table, start, b),
    ensures
        a == b,
{
    if a.len() <= b.len() {
        lemma_chain_stops(table, start, a, b);
    } else {
        lemma_chain_stops(table, start, b, a);
    }
    lemma_links_agree(table, start, a, b, a.len() as int);
    assert(b.take(b.len() as int) =~= b);
}

/// Nothing that follows the links goes on beyond the end of the chain.
proof fn lemma_chain_stops(table: Seq<u32>, start: u32, chain: Seq<u32>, longer: Seq<u32>)
    requires
        is_chain(table, start, chain),
        follows_links(table, start, longer),
        chain.len() <= longer.len(),
    ensures
        chain.len() == longer.len(),
{
    if chain.len() < longer.len() {
        let n = chain.len() as int;
        lemma_links_agree(table, start, chain, longer, n);
        if n > 0 {
            assert(longer[n - 1] == longer.take(n)[n - 1]);
        }
        assert(in_table(table, longer[n]));
    }
}

/// An id that occurs twice among ids that follow the links occurs again and
/// again, at the same distance.
proof fn lemma_links_repeat(table: Seq<u32>, start: u32, chain: Seq<u32>, i: int, j: int, k: int)
    requires
        follows_links(table, start, chain),
        0 <= i < j,
        0 <= k,
        j + k < chain.len(),
        chain[i] == chain[j],
    ensures
        chain[i + k] == chain[j + k],
    decreases k,
{
    if k > 0 {
        lemma_links_repeat(table, start, chain, i, j, k - 1);
    }
}

/// A chain never holds the same sector id twice.
pub proof fn lemma_chain_no_duplicates(table: Seq<u32>, start: u32, chain: Seq<u32>)
    requires
        is_chain(table, start, chain),
    ensures
        chain.no_duplicates(),
{
    assert forall|i: int, j: int| 0 <= i < chain.len() && 0 <= j < chain.len() && i != j implies
        chain[i] != chain[j] by {
        let (lo, hi) = if i < j {
            (i, j)
        } else {
            (j, i)
        };
        if chain[lo] == chain[hi] {
            let k = chain.len() - 1 - hi;
            lemma_links_repeat(table, start, chain, lo, hi, k);
            let next = lo + k + 1;
            assert(in_table(table, chain[next]));
        }
    }
}

/// The table lookup of the last id of a chain is a marker that ends chains.
pub proof fn lemma_chain_last_is_terminal(table: Seq<u32>, start: u32, chain: Seq<u32>)
    requires
        is_chain(table, start, chain),
        chain.len() > 0,
    ensures
        is_end_of_chain(table[chain.last() as int]),
        chain[0] == start,
{
}

/// Ids without repetition that all name entries of a table are no more than
/// the table has entries.
pub proof fn lemma_distinct_ids_fit(ids: Seq<u32>, bound: nat)
    requires
        ids.no_duplicates(),
        forall|i: int| 0 <= i < ids.len() ==> (#[trigger] ids[i]) < bound,
    ensures
        ids.len() <= bound,
{
    let wide = ids.map_values(|id: u32| id as int);
    assert(wide.no_duplicates()) by {
        assert forall|i: int, j: int| 0 <= i < wide.len() && 0 <= j < wide.len() && i
            != j implies wide[i] != wide[j] by {}
    }
    wide.unique_seq_to_set();
    lemma_int_range(0, bound as int);
    assert(wide.to_set().subset_of(set_int_range(0, bound as int))) by {
        assert forall|x: int| wide.to_set().contains(x) implies set_int_range(
            0,
            bound as int,
        ).contains(x) by {}
    }
    lemma_len_subset(wide.to_set(), set_int_range(0, bound as int));
}

/// A chain is no longer than its table.
pub proof fn lemma_chain_fits_table(table: Seq<u32>, start: u32, chain: Seq<u32>)
    requires
        is_chain(table, start, chain),
    ensures
        chain.len() <= table.len(),
{
    lemma_chain_no_duplicates(table, start, chain);
    lemma_distinct_ids_fit(chain, table.len());
}

/// No chain begins with ids that lead to an id outside the table.
proof fn lemma_no_chain_through(table: Seq<u32>, start: u32, walked: Seq<u32>, chain: Seq<u32>)
    requires
        follows_links(table, start, walked),
        !is_end_of_chain(linked_id(table, start, walked, walked.len() as int)),
        !in_table(table, linked_id(table, start, walked, walked.len() as int)),
    ensures
        !is_chain(table, start, chain),
{
    if is_chain(table, start, chain) {
        let n = walked.len() as int;
        if chain.len() <= n {
            lemma_chain_stops(table, start, chain, walked);
        }
        lemma_links_agree(table, start, walked, chain, n);
        if n > 0 {
            assert(walked[n - 1] == walked.take(n)[n - 1]);
        }
        if chain.len() > n {
            assert(in_table(table, chain[n]));
        }
    }
}

/// No chain begins with more ids than the table has entries.
proof fn lemma_no_chain_beyond(table: Seq<u32>, start: u32, walked: Seq<u32>, chain: Seq<u32>)
    requires
        follows_links(table, start, walked),
        walked.len() > table.len(),
    ensures
        !is_chain(table, start, chain),
{
    if is_chain(table, start, chain) {
        lemma_chain_fits_table(table, start, chain);
        lemma_chain_stops(table, start, chain, walked);
    }
}

/// Follows the links of `table` from `start` and returns the chain: the ids
/// in the order in which they are met, up to the one whose link ends the
/// chain. No id occurs twice in it. Fails with `InvalidFormat` where the
/// table has no such chain: a link leads outside the table, or the links
/// never end.
pub fn walk_chain(table: &Vec<u32>, start: u32) -> (r: Result<Vec<u32>, Error>)
    ensures
        match r {
            Ok(chain) => {
                &&& is_chain(table@, start, chain@)
                &&& resolved_chain(table@, start) == Ok::<Seq<u32>, Error>(chain@)
                &&& chain@.no_duplicates()
                &&& chain@.len() <= table@.len()
                &&& chain@.len() > 0 ==> chain@[0] == start && is_end_of_chain(
                    table@[chain@.last() as int],
                )
            },
            Err(e) => e == Error::InvalidFormat && !has_chain(table@, start) && resolved_chain(
                table@,
                start,
            ) == Err::<Seq<u32>, Error>(e),
        },
{
    let mut chain: Vec<u32> = Vec::new();
    let mut current: u32 = start;
    while current != END_OF_CHAIN_SECID_U32 && current != FREE_SECID_U32
        invariant
            follows_links(table@, start, chain@),
            current == linked_id(table@, start, chain@, chain@.len() as int),
            chain@.len() <= table@.len(),
        decreases table@.len() - chain@.len(),
    {
        if current > SECID_MAX || current as usize >= table.len() {
            proof {
                assert forall|c: Seq<u32>| !is_chain(table@, start, c) by {
                    lemma_no_chain_through(table@, start, chain@, c);
                }
            }
            return Err(Error::InvalidFormat);
        }
        chain.push(current);
        proof {
            assert forall|i: int| 0 <= i < chain@.len() implies in_table(
                table@,
                #[trigger] chain@[i],
            ) && chain@[i] == linked_id(table@, start, chain@, i) by {}
        }
        if chain.len() > table.len() {
            proof {
                assert forall|c: Seq<u32>| !is_chain(table@, start, c) by {
                    lemma_no_chain_beyond(table@, start, chain@, c);
                }
            }
            return Err(Error::InvalidFormat);
        }
        current = table[current as usize];
    }
    proof {
        lemma_chain_is_chain_of(table@, start, chain@);
        lemma_resolved_is_chain(table@, start, chain@);
    }
    Ok(chain)
}

} // verus!
