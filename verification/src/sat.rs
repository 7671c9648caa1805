//! The allocation tables of a container.
//!
//! The header names the sectors that hold the allocation table, directly
//! and through the DIFAT chain. Their entries, read in that order, are the
//! allocation table. Chains of the allocation table then give the sectors
//! of the mini allocation table and those of the directory.

use vstd::prelude::*;
use vstd::slice::slice_subrange;
use crate::chain::has_chain;
use crate::chain::is_chain;
use crate::chain::is_end_of_chain;
use crate::chain::resolved_chain;
use crate::chain::walk_chain;
use crate::constants::CONTAINS_DIFAT_SECTORS;
use crate::constants::CONTAINS_FAT_SECTORS;
use crate::constants::END_OF_CHAIN_SECID_U32;
use crate::constants::FREE_SECID_U32;
use crate::constants::HEADER_DIFAT_ENTRIES;
use crate::constants::HEADER_DIFAT_OFFSET;
use crate::constants::HEADER_SIZE;
use crate::constants::SECID_MAX;
use crate::constants::U32_SIZE;
use crate::error::Error;
use crate::header::Header;
use crate::sector::lemma_sector_range;
use crate::sector::read_sector;
use crate::sector::sector_in_bounds;
use crate::sector::sector_offset;
use crate::util::le_u32;
use crate::util::read_u32;

verus! {

/// The `count` 32-bit entries stored in `body` from `offset` on.
pub open spec fn entries_at(body: Seq<u8>, offset: int, count: int) -> Seq<u32> {
    Seq::new(count as nat, |k: int| le_u32(body, offset + 4 * k) as u32)
}

/// The entries of sector `index`, read as part of an allocation table.
pub open spec fn sector_entries(body: Seq<u8>, sec_size: int, index: int) -> Seq<u32> {
    entries_at(body, sector_offset(sec_size, index), sec_size / 4)
}

/// Whether every sector of `ids` lies wholly inside the file.
pub open spec fn all_in_bounds(body_len: int, sec_size: int, ids: Seq<u32>) -> bool {
    forall|i: int|
        0 <= i < ids.len() ==> sector_in_bounds(body_len, sec_size, #[trigger] ids[i] as int)
}

/// The table held by the sectors `ids`: their entries, one sector after the other.
pub open spec fn table_of(body: Seq<u8>, sec_size: int, ids: Seq<u32>) -> Seq<u32>
    decreases ids.len(),
{
    if ids.len() == 0 {
        Seq::empty()
    } else {
        table_of(body, sec_size, ids.drop_last()) + sector_entries(
            body,
            sec_size,
            ids.last() as int,
        )
    }
}

/// The entries of a part of `body` are those of `body` at the offset of the part.
pub proof fn lemma_entries_of_part(body: Seq<u8>, offset: int, len: int, count: int)
    requires
        0 <= offset,
        0 <= count,
        4 * count <= len,
        offset + len <= body.len(),
    ensures
        entries_at(body.subrange(offset, offset + len), 0, count) == entries_at(
            body,
            offset,
            count,
        ),
{
    let part = body.subrange(offset, offset + len);
    let a = entries_at(part, 0, count);
    let b = entries_at(body, offset, count);
    assert forall|k: int| 0 <= k < count implies #[trigger] a[k] == b[k] by {}
}

/// The number of sector sizes that fit in the file. A sector id from this
/// number on cannot name a sector of the file.
pub open spec fn id_limit(body_len: int, sec_size: int) -> int {
    if sec_size > 0 {
        body_len / sec_size
    } else {
        0
    }
}

/// Whether reading stops at `id`: it is not the free marker and cannot name
/// a sector of the file.
pub open spec fn stops_reading(id: u32, limit: int) -> bool {
    id != FREE_SECID_U32 && id >= limit
}

/// The position from `from` on of the first entry at which reading stops,
/// or the number of entries where there is none.
pub open spec fn reading_end(entries: Seq<u32>, limit: int, from: int) -> int
    decreases entries.len() - from,
{
    if from < 0 || from >= entries.len() {
        entries.len() as int
    } else if stops_reading(entries[from], limit) {
        from
    } else {
        reading_end(entries, limit, from + 1)
    }
}

/// The test that tells a sector id from the free marker.
pub open spec fn is_used() -> spec_fn(u32) -> bool {
    |id: u32| id != FREE_SECID_U32
}

/// The sector ids read from `entries`: free slots are skipped, and reading
/// stops at the first entry that cannot name a sector of the file.
pub open spec fn collected_ids(entries: Seq<u32>, limit: int) -> Seq<u32> {
    entries.take(reading_end(entries, limit, 0)).filter(is_used())
}

/// Whether one of `entries` is neither the free marker nor the id of a
/// sector of the file.
pub open spec fn has_invalid_slot(entries: Seq<u32>, limit: int) -> bool {
    exists|i: int| 0 <= i < entries.len() && stops_reading(#[trigger] entries[i], limit)
}

/// The sector ids that the slots `entries` hold: free slots are skipped.
/// A slot that is neither free nor the id of a sector of the file is
/// `InvalidFormat`.
pub open spec fn slot_ids(entries: Seq<u32>, limit: int) -> Result<Seq<u32>, Error> {
    if has_invalid_slot(entries, limit) {
        Err(Error::InvalidFormat)
    } else {
        Ok(entries.filter(is_used()))
    }
}

/// Reading goes through all entries exactly if none of them is invalid,
/// and what is read are then the entries that are not free.
pub proof fn lemma_reading_end_finds_invalid(entries: Seq<u32>, limit: int, from: int)
    requires
        0 <= from <= entries.len(),
    ensures
        from <= reading_end(entries, limit, from) <= entries.len(),
        reading_end(entries, limit, from) < entries.len() <==> exists|i: int|
            from <= i < entries.len() && stops_reading(#[trigger] entries[i], limit),
        from == 0 && !has_invalid_slot(entries, limit) ==> collected_ids(entries, limit)
            == entries.filter(is_used()),
    decreases entries.len() - from,
{
    if from < entries.len() {
        lemma_reading_end_finds_invalid(entries, limit, from + 1);
        if !stops_reading(entries[from], limit) && reading_end(entries, limit, from + 1)
            < entries.len() {
            let i = choose|i: int|
                from + 1 <= i < entries.len() && stops_reading(#[trigger] entries[i], limit);
            assert(stops_reading(entries[i], limit));
        }
    }
    if from == 0 && !has_invalid_slot(entries, limit) {
        assert(entries.take(entries.len() as int) =~= entries);
    }
}

/// `rest` with `ids` put in front, where `rest` is no error.
pub open spec fn preceded_by(ids: Seq<u32>, rest: Result<Seq<u32>, Error>) -> Result<
    Seq<u32>,
    Error,
> {
    match rest {
        Ok(more) => Ok(ids + more),
        Err(e) => Err(e),
    }
}

/// The sector ids held by the DIFAT chain that starts at `sector` and has at
/// most `remaining` sectors. A DIFAT sector holds sector ids and, in its
/// last four bytes, the id of the next DIFAT sector. The chain ends where
/// that id is the end-of-chain or the free marker: a chain that goes on
/// after `remaining` sectors is `InvalidFormat`, a sector of it outside the
/// file or too small for that last id is `BadSizeValue`, a slot of it that
/// is neither free nor the id of a sector of the file is `InvalidFormat`.
pub open spec fn difat_chain_ids(
    body: Seq<u8>,
    sec_size: int,
    sector: u32,
    remaining: nat,
) -> Result<Seq<u32>, Error>
    decreases remaining,
{
    if is_end_of_chain(sector) {
        Ok(Seq::empty())
    } else if remaining == 0 {
        Err(Error::InvalidFormat)
    } else if sec_size < 4 {
        Err(Error::BadSizeValue("Wrong Sector size!"))
    } else if !sector_in_bounds(body.len() as int, sec_size, sector as int) {
        Err(Error::BadSizeValue("File is too short"))
    } else {
        let offset = sector_offset(sec_size, sector as int);
        let next = le_u32(body, offset + sec_size - 4) as u32;
        match slot_ids(
            entries_at(body, offset, (sec_size - 4) / 4),
            id_limit(body.len() as int, sec_size),
        ) {
            Err(e) => Err(e),
            Ok(here) => preceded_by(
                here,
                difat_chain_ids(body, sec_size, next, (remaining - 1) as nat),
            ),
        }
    }
}

/// The ids of the sectors that hold the allocation table: those of the 109
/// slots of the header, then, where the header declares DIFAT sectors, those
/// of the DIFAT chain. `InvalidFormat` where a slot is neither free nor the
/// id of a sector of the file, or where the number of the ids is not the one
/// the header declares.
pub open spec fn fat_sector_ids(body: Seq<u8>, header: Header) -> Result<Seq<u32>, Error> {
    let limit = id_limit(body.len() as int, header.sec_size as int);
    let inline = slot_ids(
        entries_at(body, HEADER_DIFAT_OFFSET as int, HEADER_DIFAT_ENTRIES as int),
        limit,
    );
    let chained = if header.difat_count > 0 {
        difat_chain_ids(body, header.sec_size as int, header.difat_start, header.difat_count as nat)
    } else {
        Ok(Seq::empty())
    };
    if body.len() < HEADER_SIZE {
        Err(Error::BadSizeValue("File is too short"))
    } else {
        match inline {
            Err(e) => Err(e),
            Ok(first) => match preceded_by(first, chained) {
                Ok(ids) => if ids.len() == header.fat_sector_count {
                    Ok(ids)
                } else {
                    Err(Error::InvalidFormat)
                },
                Err(e) => Err(e),
            },
        }
    }
}

/// Where the sector ids of the header and of the DIFAT chain are not as
/// many as the header declares, the container is `InvalidFormat`.
pub proof fn lemma_fat_count_mismatch_is_invalid(
    body: Seq<u8>,
    header: Header,
    first: Seq<u32>,
    more: Seq<u32>,
)
    requires
        body.len() >= HEADER_SIZE,
        slot_ids(
            entries_at(body, HEADER_DIFAT_OFFSET as int, HEADER_DIFAT_ENTRIES as int),
            id_limit(body.len() as int, header.sec_size as int),
        ) == Ok::<Seq<u32>, Error>(first),
        (if header.difat_count > 0 {
            difat_chain_ids(
                body,
                header.sec_size as int,
                header.difat_start,
                header.difat_count as nat,
            )
        } else {
            Ok(Seq::empty())
        }) == Ok::<Seq<u32>, Error>(more),
        first.len() + more.len() != header.fat_sector_count,
    ensures
        fat_sector_ids(body, header) == Err::<Seq<u32>, Error>(Error::InvalidFormat),
        allocation_tables(body, header) == Err::<AllocationTablesView, Error>(
            Error::InvalidFormat,
        ),
{
}

/// A slot of the header that is neither free nor the id of a sector of the
/// file makes the container `InvalidFormat`: it is not passed over.
pub proof fn lemma_invalid_slot_is_invalid(body: Seq<u8>, header: Header, slot: int)
    requires
        body.len() >= HEADER_SIZE,
        0 <= slot < HEADER_DIFAT_ENTRIES,
        stops_reading(
            le_u32(body, HEADER_DIFAT_OFFSET + 4 * slot) as u32,
            id_limit(body.len() as int, header.sec_size as int),
        ),
    ensures
        fat_sector_ids(body, header) == Err::<Seq<u32>, Error>(Error::InvalidFormat),
        allocation_tables(body, header) == Err::<AllocationTablesView, Error>(
            Error::InvalidFormat,
        ),
{
    let entries = entries_at(body, HEADER_DIFAT_OFFSET as int, HEADER_DIFAT_ENTRIES as int);
    assert(stops_reading(entries[slot], id_limit(body.len() as int, header.sec_size as int)));
}

/// Filtering a sequence with one more element.
proof fn lemma_filter_push(s: Seq<u32>, x: u32)
    ensures
        s.push(x).filter(is_used()) == if x != FREE_SECID_U32 {
            s.filter(is_used()).push(x)
        } else {
            s.filter(is_used())
        },
{
    reveal(Seq::filter);
    assert(s.push(x).drop_last() =~= s);
}

/// Reading that has not stopped before `from` ends where reading from `from` ends.
proof fn lemma_reading_end_from(entries: Seq<u32>, limit: int, from: int)
    requires
        0 <= from <= entries.len(),
        forall|i: int| 0 <= i < from ==> !stops_reading(#[trigger] entries[i], limit),
    ensures
        reading_end(entries, limit, 0) == reading_end(entries, limit, from),
    decreases from,
{
    if from > 0 {
        lemma_reading_end_from(entries, limit, from - 1);
    }
}

/// Reads the sector ids stored in `buffer`, four bytes each, and appends
/// them to `main_sat`: free slots are skipped, and reading stops at the
/// first id from `limit` on. Returns how many ids were appended, and
/// whether reading went through all of `buffer`.
fn read_slots(buffer: &[u8], limit: usize, main_sat: &mut Vec<u32>) -> (r: (usize, bool))
    ensures
        final(main_sat)@ == old(main_sat)@ + collected_ids(
            entries_at(buffer@, 0, buffer@.len() as int / 4),
            limit as int,
        ),
        r.0 == collected_ids(
            entries_at(buffer@, 0, buffer@.len() as int / 4),
            limit as int,
        ).len(),
        r.1 == !has_invalid_slot(entries_at(buffer@, 0, buffer@.len() as int / 4), limit as int),
{
    let count: usize = buffer.len() / U32_SIZE;
    let ghost entries = entries_at(buffer@, 0, buffer@.len() as int / 4);
    let mut found: usize = 0;
    let mut k: usize = 0;
    proof {
        reveal(Seq::filter);
        lemma_reading_end_finds_invalid(entries, limit as int, 0);
    }
    while k < count
        invariant
            0 <= k <= count,
            count == buffer@.len() as int / 4,
            4 * count <= buffer.len(),
            entries == entries_at(buffer@, 0, buffer@.len() as int / 4),
            forall|i: int| 0 <= i < k ==> !stops_reading(#[trigger] entries[i], limit as int),
            main_sat@ == old(main_sat)@ + entries.take(k as int).filter(is_used()),
            found == entries.take(k as int).filter(is_used()).len(),
            found <= k,
            has_invalid_slot(entries, limit as int) <==> reading_end(entries, limit as int, 0)
                < entries.len(),
        decreases count - k,
    {
        let secid = read_u32(buffer, k * U32_SIZE);
        if secid != FREE_SECID_U32 && secid as usize >= limit {
            proof {
                lemma_reading_end_from(entries, limit as int, k as int);
            }
            return (found, false);
        }
        proof {
            lemma_filter_push(entries.take(k as int), secid);
            assert(entries.take(k + 1) =~= entries.take(k as int).push(secid));
        }
        if secid != FREE_SECID_U32 {
            main_sat.push(secid);
            found = found + 1;
        }
        k = k + 1;
    }
    proof {
        lemma_reading_end_from(entries, limit as int, count as int);
    }
    (found, true)
}

/// Reads the sector ids stored in `buffer`, four bytes each, and appends
/// them to `main_sat`: free slots are skipped, and reading stops at the
/// first id from `limit` on. Returns how many ids were appended.
pub fn read_sec_ids(buffer: &[u8], limit: usize, main_sat: &mut Vec<u32>) -> (found: usize)
    ensures
        final(main_sat)@ == old(main_sat)@ + collected_ids(
            entries_at(buffer@, 0, buffer@.len() as int / 4),
            limit as int,
        ),
        found == collected_ids(
            entries_at(buffer@, 0, buffer@.len() as int / 4),
            limit as int,
        ).len(),
{
    let (found, _) = read_slots(buffer, limit, main_sat);
    found
}

/// Collects the ids of the sectors that hold the allocation table, from the
/// header and from the DIFAT chain, and holds their number against the one
/// the header declares.
#[verifier::loop_isolation(false)]
pub fn build_master_sector_allocation_table(body: &[u8], header: &Header) -> (r: Result<
    Vec<u32>,
    Error,
>)
    ensures
        match r {
            Ok(ids) => fat_sector_ids(body@, *header) == Ok::<Seq<u32>, Error>(ids@),
            Err(e) => fat_sector_ids(body@, *header) == Err::<Seq<u32>, Error>(e),
        },
{
    if body.len() < HEADER_SIZE {
        return Err(Error::BadSizeValue("File is too short"));
    }
    let sec_size = header.sec_size;
    let limit: usize = if sec_size > 0 {
        body.len() / sec_size
    } else {
        0
    };
    let mut main_sat: Vec<u32> = Vec::new();
    let inline = slice_subrange(body, HEADER_DIFAT_OFFSET, HEADER_SIZE);
    let (_, complete) = read_slots(inline, limit, &mut main_sat);
    proof {
        lemma_entries_of_part(body@, 76, 436, 109);
        lemma_reading_end_finds_invalid(entries_at(body@, 76, 109), limit as int, 0);
    }
    if !complete {
        return Err(Error::InvalidFormat);
    }
    let ghost inline_ids = main_sat@;
    let ghost mut chained: Seq<u32> = Seq::empty();
    if header.difat_count > 0 {
        let mut sector_id: u32 = header.difat_start;
        let mut remaining: u32 = header.difat_count;
        let ghost whole = difat_chain_ids(
            body@,
            sec_size as int,
            header.difat_start,
            header.difat_count as nat,
        );
        while sector_id != END_OF_CHAIN_SECID_U32 && sector_id != FREE_SECID_U32
            invariant
                main_sat@ == inline_ids + chained,
                whole == preceded_by(
                    chained,
                    difat_chain_ids(body@, sec_size as int, sector_id, remaining as nat),
                ),
            decreases remaining,
        {
            if remaining == 0 {
                return Err(Error::InvalidFormat);
            }
            if sec_size < 4 {
                return Err(Error::BadSizeValue("Wrong Sector size!"));
            }
            let sector = match read_sector(body, sec_size, sector_id) {
                Ok(sector) => sector,
                Err(e) => {
                    return Err(e);
                },
            };
            let ghost offset = sector_offset(sec_size as int, sector_id as int);
            proof {
                lemma_sector_range(body@.len() as int, sec_size as int, sector_id as int);
                lemma_entries_of_part(body@, offset, sec_size - 4, (sec_size - 4) / 4);
            }
            let slots = slice_subrange(sector, 0, sec_size - 4);
            assert(slots@ =~= body@.subrange(offset, offset + sec_size - 4));
            let (_, complete) = read_slots(slots, limit, &mut main_sat);
            proof {
                lemma_reading_end_finds_invalid(
                    entries_at(body@, offset, (sec_size - 4) / 4),
                    limit as int,
                    0,
                );
            }
            if !complete {
                return Err(Error::InvalidFormat);
            }
            let next = read_u32(sector, sec_size - 4);
            proof {
                let here = entries_at(body@, offset, (sec_size - 4) / 4).filter(is_used());
                let rest = difat_chain_ids(body@, sec_size as int, next, (remaining - 1) as nat);
                assert(whole == preceded_by(chained + here, rest)) by {
                    match rest {
                        Ok(more) => {
                            assert(chained + (here + more) =~= (chained + here) + more);
                        },
                        Err(_) => {},
                    }
                }
                chained = chained + here;
            }
            sector_id = next;
            remaining = remaining - 1;
        }
    }
    if main_sat.len() != header.fat_sector_count as usize {
        return Err(Error::InvalidFormat);
    }
    Ok(main_sat)
}

/// Appends the entries of sector `sector_index` to `sec_ids`. Fails with
/// `BadSizeValue`, and appends nothing, when the file ends before the end of
/// that sector.
pub fn read_sat_sector(
    body: &[u8],
    sec_size: usize,
    sector_index: u32,
    sec_ids: &mut Vec<u32>,
) -> (r: Result<(), Error>)
    ensures
        match r {
            Ok(_) => sector_in_bounds(body@.len() as int, sec_size as int, sector_index as int)
                && final(sec_ids)@ == old(sec_ids)@ + sector_entries(
                body@,
                sec_size as int,
                sector_index as int,
            ),
            Err(e) => !sector_in_bounds(body@.len() as int, sec_size as int, sector_index as int)
                && e == Error::BadSizeValue("File is too short") && final(sec_ids)@ == old(
                sec_ids,
            )@,
        },
{
    let sector = match read_sector(body, sec_size, sector_index) {
        Ok(sector) => sector,
        Err(e) => {
            return Err(e);
        },
    };
    let count: usize = sec_size / U32_SIZE;
    let ghost offset = sector_offset(sec_size as int, sector_index as int);
    let ghost entries = sector_entries(body@, sec_size as int, sector_index as int);
    proof {
        lemma_sector_range(body@.len() as int, sec_size as int, sector_index as int);
    }
    let mut k: usize = 0;
    while k < count
        invariant
            0 <= k <= count,
            count == sec_size / 4,
            sector@ == body@.subrange(offset, offset + sec_size),
            0 <= offset,
            offset + sec_size <= body@.len(),
            entries == sector_entries(body@, sec_size as int, sector_index as int),
            offset == sector_offset(sec_size as int, sector_index as int),
            sec_ids@ == old(sec_ids)@ + entries.take(k as int),
        decreases count - k,
    {
        let value = read_u32(sector, k * U32_SIZE);
        sec_ids.push(value);
        k = k + 1;
    }
    Ok(())
}

/// Reads the table held by the sectors `ids`. Fails with `BadSizeValue`
/// when the file ends before the end of one of them.
pub fn build_table(body: &[u8], sec_size: usize, ids: &Vec<u32>) -> (r: Result<Vec<u32>, Error>)
    ensures
        match r {
            Ok(table) => all_in_bounds(body@.len() as int, sec_size as int, ids@) && table@
                == table_of(body@, sec_size as int, ids@),
            Err(e) => !all_in_bounds(body@.len() as int, sec_size as int, ids@) && e
                == Error::BadSizeValue("File is too short"),
        },
{
    let mut table: Vec<u32> = Vec::new();
    let mut i: usize = 0;
    while i < ids.len()
        invariant
            0 <= i <= ids.len(),
            all_in_bounds(body@.len() as int, sec_size as int, ids@.take(i as int)),
            table@ == table_of(body@, sec_size as int, ids@.take(i as int)),
        decreases ids.len() - i,
    {
        match read_sat_sector(body, sec_size, ids[i], &mut table) {
            Ok(_) => {},
            Err(e) => {
                return Err(e);
            },
        }
        proof {
            let next = ids@.take(i + 1);
            assert(next.drop_last() =~= ids@.take(i as int));
            assert forall|j: int| 0 <= j < next.len() implies sector_in_bounds(
                body@.len() as int,
                sec_size as int,
                #[trigger] next[j] as int,
            ) by {}
        }
        i = i + 1;
    }
    proof {
        assert(ids@.take(ids.len() as int) =~= ids@);
    }
    Ok(table)
}

/// The table held by the sectors `ids`, or `BadSizeValue` where one of them
/// is not wholly inside the file.
pub open spec fn loaded_table(body: Seq<u8>, sec_size: int, ids: Seq<u32>) -> Result<
    Seq<u32>,
    Error,
> {
    if all_in_bounds(body.len() as int, sec_size, ids) {
        Ok(table_of(body, sec_size, ids))
    } else {
        Err(Error::BadSizeValue("File is too short"))
    }
}

/// The allocation tables of a container.
#[derive(Debug)]
pub struct AllocationTables {
    /// The ids of the sectors that hold the allocation table.
    pub main_sat: Vec<u32>,
    /// The allocation table: for each sector, the sector that follows it.
    pub sat: Vec<u32>,
    /// The mini allocation table: for each mini sector, the one that follows it.
    pub ssat: Vec<u32>,
    /// The sectors of the directory, in order.
    pub dir_sat: Vec<u32>,
}

/// The allocation tables as sequences.
pub ghost struct AllocationTablesView {
    pub main_sat: Seq<u32>,
    pub sat: Seq<u32>,
    pub ssat: Seq<u32>,
    pub dir_sat: Seq<u32>,
}

impl View for AllocationTables {
    type V = AllocationTablesView;

    open spec fn view(&self) -> AllocationTablesView {
        AllocationTablesView {
            main_sat: self.main_sat@,
            sat: self.sat@,
            ssat: self.ssat@,
            dir_sat: self.dir_sat@,
        }
    }
}

/// The mini allocation table: the table held by the chain of `sat` from `start`.
pub open spec fn mini_table(body: Seq<u8>, sec_size: int, sat: Seq<u32>, start: u32) -> Result<
    Seq<u32>,
    Error,
> {
    match resolved_chain(sat, start) {
        Ok(chain) => loaded_table(body, sec_size, chain),
        Err(e) => Err(e),
    }
}

/// The allocation tables of the container `body` with the header `header`,
/// or the first error met on the way: in the sector ids of the allocation
/// table, in the allocation table, in the mini allocation table, in the
/// chain of the directory.
pub open spec fn allocation_tables(body: Seq<u8>, header: Header) -> Result<
    AllocationTablesView,
    Error,
> {
    match fat_sector_ids(body, header) {
        Err(e) => Err(e),
        Ok(main_sat) => match loaded_table(body, header.sec_size as int, main_sat) {
            Err(e) => Err(e),
            Ok(sat) => match mini_table(body, header.sec_size as int, sat, header.mini_fat_start) {
                Err(e) => Err(e),
                Ok(ssat) => match resolved_chain(sat, header.directory_start) {
                    Err(e) => Err(e),
                    Ok(dir_sat) => Ok(AllocationTablesView { main_sat, sat, ssat, dir_sat }),
                },
            },
        },
    }
}

/// Reads the allocation table from the sectors `main_sat`.
pub fn build_sat(body: &[u8], sec_size: usize, main_sat: &Vec<u32>) -> (r: Result<Vec<u32>, Error>)
    ensures
        match r {
            Ok(sat) => loaded_table(body@, sec_size as int, main_sat@) == Ok::<Seq<u32>, Error>(
                sat@,
            ),
            Err(e) => loaded_table(body@, sec_size as int, main_sat@) == Err::<Seq<u32>, Error>(e),
        },
{
    build_table(body, sec_size, main_sat)
}

/// The chain of the allocation table `sat` that starts at `start`.
pub fn build_chain_from_sat(sat: &Vec<u32>, start: u32) -> (r: Result<Vec<u32>, Error>)
    ensures
        match r {
            Ok(chain) => is_chain(sat@, start, chain@) && resolved_chain(sat@, start) == Ok::<
                Seq<u32>,
                Error,
            >(chain@),
            Err(e) => e == Error::InvalidFormat && !has_chain(sat@, start) && resolved_chain(
                sat@,
                start,
            ) == Err::<Seq<u32>, Error>(e),
        },
{
    walk_chain(sat, start)
}

/// The chain of the mini allocation table `ssat` that starts at `start`.
pub fn build_chain_from_ssat(ssat: &Vec<u32>, start: u32) -> (r: Result<Vec<u32>, Error>)
    ensures
        match r {
            Ok(chain) => is_chain(ssat@, start, chain@) && resolved_chain(ssat@, start) == Ok::<
                Seq<u32>,
                Error,
            >(chain@),
            Err(e) => e == Error::InvalidFormat && !has_chain(ssat@, start) && resolved_chain(
                ssat@,
                start,
            ) == Err::<Seq<u32>, Error>(e),
        },
{
    walk_chain(ssat, start)
}

/// Reads the mini allocation table: follows the chain of `sat` from
/// `start` and reads the entries of each sector of it.
pub fn build_ssat(body: &[u8], sec_size: usize, sat: &Vec<u32>, start: u32) -> (r: Result<
    Vec<u32>,
    Error,
>)
    ensures
        match r {
            Ok(ssat) => mini_table(body@, sec_size as int, sat@, start) == Ok::<Seq<u32>, Error>(
                ssat@,
            ),
            Err(e) => mini_table(body@, sec_size as int, sat@, start) == Err::<Seq<u32>, Error>(e),
        },
{
    let chain = match build_chain_from_sat(sat, start) {
        Ok(chain) => chain,
        Err(e) => {
            return Err(e);
        },
    };
    build_table(body, sec_size, &chain)
}

/// The sectors of the directory: the chain of `sat` from `start`.
pub fn build_dsat(sat: &Vec<u32>, start: u32) -> (r: Result<Vec<u32>, Error>)
    ensures
        match r {
            Ok(dir_sat) => resolved_chain(sat@, start) == Ok::<Seq<u32>, Error>(dir_sat@),
            Err(e) => resolved_chain(sat@, start) == Err::<Seq<u32>, Error>(e),
        },
{
    build_chain_from_sat(sat, start)
}

/// Builds the allocation tables of the container `body` from its header.
pub fn build_allocation_tables(body: &[u8], header: &Header) -> (r: Result<
    AllocationTables,
    Error,
>)
    ensures
        match r {
            Ok(tables) => allocation_tables(body@, *header) == Ok::<AllocationTablesView, Error>(
                tables@,
            ),
            Err(e) => allocation_tables(body@, *header) == Err::<AllocationTablesView, Error>(e),
        },
{
    let main_sat = match build_master_sector_allocation_table(body, header) {
        Ok(ids) => ids,
        Err(e) => {
            return Err(e);
        },
    };
    let sat = match build_sat(body, header.sec_size, &main_sat) {
        Ok(sat) => sat,
        Err(e) => {
            return Err(e);
        },
    };
    let ssat = match build_ssat(body, header.sec_size, &sat, header.mini_fat_start) {
        Ok(ssat) => ssat,
        Err(e) => {
            return Err(e);
        },
    };
    let dir_sat = match build_dsat(&sat, header.directory_start) {
        Ok(dir_sat) => dir_sat,
        Err(e) => {
            return Err(e);
        },
    };
    Ok(AllocationTables { main_sat, sat, ssat, dir_sat })
}

/// What an entry of an allocation table says of its sector.
#[derive(Debug, Clone, Copy, PartialEq, Eq, Structural)]
pub enum SectorIdKind {
    /// The id of the sector that follows.
    Regular,
    /// The sector holds part of the allocation table.
    FatSector,
    /// The sector is the last of its chain.
    EndOfChain,
    /// The sector is not in use.
    Free,
    /// The sector holds part of the DIFAT.
    DifatSector,
    /// A reserved value without meaning.
    Unknown,
}

/// The kind of the table entry `sec_id`: values up to `SECID_MAX` are
/// sector ids, four of the values above are markers.
pub open spec fn sector_id_kind(sec_id: u32) -> SectorIdKind {
    if sec_id <= SECID_MAX {
        SectorIdKind::Regular
    } else if sec_id == CONTAINS_FAT_SECTORS {
        SectorIdKind::FatSector
    } else if sec_id == END_OF_CHAIN_SECID_U32 {
        SectorIdKind::EndOfChain
    } else if sec_id == FREE_SECID_U32 {
        SectorIdKind::Free
    } else if sec_id == CONTAINS_DIFAT_SECTORS {
        SectorIdKind::DifatSector
    } else {
        SectorIdKind::Unknown
    }
}

/// Tells what the table entry `sec_id` says of its sector.
pub fn classify_sector_id(sec_id: u32) -> (kind: SectorIdKind)
    ensures
        kind == sector_id_kind(sec_id),
{
    if sec_id <= SECID_MAX {
        SectorIdKind::Regular
    } else if sec_id == CONTAINS_FAT_SECTORS {
        SectorIdKind::FatSector
    } else if sec_id == END_OF_CHAIN_SECID_U32 {
        SectorIdKind::EndOfChain
    } else if sec_id == FREE_SECID_U32 {
        SectorIdKind::Free
    } else if sec_id == CONTAINS_DIFAT_SECTORS {
        SectorIdKind::DifatSector
    } else {
        SectorIdKind::Unknown
    }
}

} // verus!
