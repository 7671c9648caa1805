//! The directory: from the records of the directory sectors to the
//! hierarchy of storages and streams.

use vstd::prelude::*;
use vstd::arithmetic::div_mod::lemma_mod_bound;
use vstd::arithmetic::div_mod::lemma_multiply_divide_lt;
use vstd::slice::slice_subrange;
use crate::chain::is_chain;
use crate::chain::lemma_resolved_is_chain;
use crate::chain::resolved_chain;
use crate::constants::DIRECTORY_ENTRY_SIZE;
use crate::entry::Entry;
use crate::entry::EntryType;
use crate::entry::EntryView;
use crate::entry::decodes_plainly;
use crate::entry::name_units;
use crate::entry::parsed_record;
use crate::entry::record_fault;
use crate::error::Error;
use crate::header::Header;
use crate::hierarchy::build_entry_tree;
use crate::hierarchy::hierarchy;
use crate::hierarchy::lemma_children_are_the_reached;
use crate::hierarchy::lemma_hierarchy_is_consistent;
use crate::hierarchy::lemma_reaches_same_links;
use crate::hierarchy::reaches;
use crate::sat::AllocationTables;
use crate::sat::AllocationTablesView;
use crate::sat::all_in_bounds;
use crate::sat::build_chain_from_sat;
use crate::sat::build_chain_from_ssat;
use crate::sector::lemma_sector_range;
use crate::sector::read_sector;
use crate::sector::sector_in_bounds;
use crate::sector::sector_offset;
use crate::stream::EntrySliceView;
use crate::stream::all_located;
use crate::stream::chain_covers;
use crate::stream::get_short_stream_slices;
use crate::stream::get_stream_slices;
use crate::stream::lemma_mini_sectors_are_whole;
use crate::stream::lemma_sectors_are_whole;
use crate::stream::mini_sector_chunks;
use crate::stream::mini_sector_place;
use crate::stream::sector_chunks;
use crate::stream::short_stream_fault;
use crate::stream::stream_fault;

verus! {

/// The largest number of records a directory may have: ids are 32 bits
/// wide, and the largest of them is the null link.
pub const MAX_DIRECTORY_ENTRIES: usize = 0xFFFF_FFFF;

/// The entries of `entries` as mathematical values.
pub open spec fn entry_views(entries: Seq<Entry>) -> Seq<EntryView> {
    Seq::new(entries.len(), |i: int| entries[i]@)
}

/// How many records one sector holds.
pub open spec fn records_per_sector(sec_size: int) -> int {
    sec_size / (DIRECTORY_ENTRY_SIZE as int)
}

/// How many records the directory sectors `dir_sat` hold.
pub open spec fn slot_count(sec_size: int, dir_sat: Seq<u32>) -> int {
    dir_sat.len() * records_per_sector(sec_size)
}

/// The sector that holds the record `slot`.
pub open spec fn slot_sector(sec_size: int, dir_sat: Seq<u32>, slot: int) -> int {
    dir_sat[slot / records_per_sector(sec_size)] as int
}

/// Whether the sector of the record `slot` lies wholly inside the file.
pub open spec fn slot_readable(body_len: int, sec_size: int, dir_sat: Seq<u32>, slot: int) -> bool {
    sector_in_bounds(body_len, sec_size, slot_sector(sec_size, dir_sat, slot))
}

/// Offset in the file of the record `slot`.
pub open spec fn slot_offset(sec_size: int, dir_sat: Seq<u32>, slot: int) -> int {
    sector_offset(sec_size, slot_sector(sec_size, dir_sat, slot)) + DIRECTORY_ENTRY_SIZE * (slot
        % records_per_sector(sec_size))
}

/// The bytes of the record `slot`.
pub open spec fn slot_record(body: Seq<u8>, sec_size: int, dir_sat: Seq<u32>, slot: int) -> Seq<
    u8,
> {
    body.subrange(
        slot_offset(sec_size, dir_sat, slot),
        slot_offset(sec_size, dir_sat, slot) + DIRECTORY_ENTRY_SIZE,
    )
}

/// Whether a record begins with the free marker: four bytes 0xFF.
pub open spec fn begins_free(record: Seq<u8>) -> bool {
    record[0] == 0xFF && record[1] == 0xFF && record[2] == 0xFF && record[3] == 0xFF
}

/// Whether the record `slot` can be read and is an entry without fault.
pub open spec fn slot_holds_entry(
    body: Seq<u8>,
    sec_size: int,
    dir_sat: Seq<u32>,
    wide: bool,
    slot: int,
) -> bool {
    &&& slot_readable(body.len() as int, sec_size, dir_sat, slot)
    &&& !begins_free(slot_record(body, sec_size, dir_sat, slot))
    &&& record_fault(slot_record(body, sec_size, dir_sat, slot), wide) is None
}

/// Whether the record `slot` can be read and begins with the free marker.
pub open spec fn slot_ends_directory(
    body: Seq<u8>,
    sec_size: int,
    dir_sat: Seq<u32>,
    slot: int,
) -> bool {
    &&& slot_readable(body.len() as int, sec_size, dir_sat, slot)
    &&& begins_free(slot_record(body, sec_size, dir_sat, slot))
}

/// The error of the record `slot`: `BadSizeValue` where its sector is not
/// wholly inside the file, else the fault of the record.
pub open spec fn slot_fault(
    body: Seq<u8>,
    sec_size: int,
    dir_sat: Seq<u32>,
    wide: bool,
    slot: int,
) -> Option<Error> {
    if !slot_readable(body.len() as int, sec_size, dir_sat, slot) {
        Some(Error::BadSizeValue("File is too short"))
    } else {
        record_fault(slot_record(body, sec_size, dir_sat, slot), wide)
    }
}

/// Whether the names of the first `count` records decode one character
/// for each code unit, where they hold no surrogate.
pub open spec fn names_decode_plainly(
    body: Seq<u8>,
    sec_size: int,
    dir_sat: Seq<u32>,
    count: int,
) -> bool {
    forall|slot: int|
        0 <= slot < count ==> decodes_plainly(
            name_units(#[trigger] slot_record(body, sec_size, dir_sat, slot)),
        )
}

/// The first record from `from` on that is no entry without fault, or the
/// number of records where there is none.
pub open spec fn directory_end(
    body: Seq<u8>,
    sec_size: int,
    dir_sat: Seq<u32>,
    wide: bool,
    from: int,
) -> int
    decreases slot_count(sec_size, dir_sat) - from,
{
    if from < 0 || from >= slot_count(sec_size, dir_sat) {
        slot_count(sec_size, dir_sat)
    } else if !slot_holds_entry(body, sec_size, dir_sat, wide, from) {
        from
    } else {
        directory_end(body, sec_size, dir_sat, wide, from + 1)
    }
}

/// The entries of the directory held by the sectors `dir_sat`, as their
/// records give them. The records are read in order. Reading ends at the
/// first record that begins with the free marker. A record before that
/// which cannot be read, or which has a fault, is an error, and so is a
/// directory of more records than ids can number.
pub open spec fn parsed_directory(
    body: Seq<u8>,
    sec_size: int,
    dir_sat: Seq<u32>,
    wide: bool,
) -> Result<Seq<EntryView>, Error> {
    let total = slot_count(sec_size, dir_sat);
    let end = directory_end(body, sec_size, dir_sat, wide, 0);
    if total > MAX_DIRECTORY_ENTRIES {
        Err(Error::BadSizeValue("Directory is too large"))
    } else if end < total && !slot_ends_directory(body, sec_size, dir_sat, end) {
        Err(slot_fault(body, sec_size, dir_sat, wide, end).unwrap())
    } else {
        Ok(
            Seq::new(
                end as nat,
                |slot: int|
                    parsed_record(slot_record(body, sec_size, dir_sat, slot), slot as u32, wide),
            ),
        )
    }
}

/// Records before `from` that are all entries do not change where the directory ends.
proof fn lemma_directory_end_from(
    body: Seq<u8>,
    sec_size: int,
    dir_sat: Seq<u32>,
    wide: bool,
    from: int,
)
    requires
        0 <= from <= slot_count(sec_size, dir_sat),
        forall|slot: int|
            0 <= slot < from ==> #[trigger] slot_holds_entry(body, sec_size, dir_sat, wide, slot),
    ensures
        directory_end(body, sec_size, dir_sat, wide, 0) == directory_end(
            body,
            sec_size,
            dir_sat,
            wide,
            from,
        ),
    decreases from,
{
    if from > 0 {
        lemma_directory_end_from(body, sec_size, dir_sat, wide, from - 1);
    }
}

/// The directory ends within its records.
pub proof fn lemma_directory_end_bound(
    body: Seq<u8>,
    sec_size: int,
    dir_sat: Seq<u32>,
    wide: bool,
    from: int,
)
    requires
        0 <= from <= slot_count(sec_size, dir_sat),
    ensures
        from <= directory_end(body, sec_size, dir_sat, wide, from) <= slot_count(sec_size, dir_sat),
    decreases slot_count(sec_size, dir_sat) - from,
{
    if from < slot_count(sec_size, dir_sat) && slot_holds_entry(
        body,
        sec_size,
        dir_sat,
        wide,
        from,
    ) {
        lemma_directory_end_bound(body, sec_size, dir_sat, wide, from + 1);
    }
}

/// Whether `record` begins with the free marker.
fn record_begins_free(record: &[u8]) -> (free: bool)
    requires
        record.len() >= 4,
    ensures
        free == begins_free(record@),
{
    record[0] == 0xFF && record[1] == 0xFF && record[2] == 0xFF && record[3] == 0xFF
}

/// Reads the records of the directory sectors `dir_sat`, in order, up to
/// the first that begins with the free marker, and decodes each as the
/// entry whose id is the position of the record.
pub fn parse_directory(body: &[u8], sec_size: usize, dir_sat: &Vec<u32>, wide: bool) -> (r: Result<
    Vec<Entry>,
    Error,
>)
    ensures
        match r {
            Ok(entries) => parsed_directory(body@, sec_size as int, dir_sat@, wide) == Ok::<
                Seq<EntryView>,
                Error,
            >(entry_views(entries@)) && entries@.len() <= MAX_DIRECTORY_ENTRIES
                && names_decode_plainly(
                body@,
                sec_size as int,
                dir_sat@,
                entries@.len() as int,
            ),
            Err(e) => parsed_directory(body@, sec_size as int, dir_sat@, wide) == Err::<
                Seq<EntryView>,
                Error,
            >(e),
        },
{
    let per: usize = sec_size / DIRECTORY_ENTRY_SIZE;
    let sectors: usize = dir_sat.len();
    assert(sectors * per <= 0xFFFF_FFFF_FFFF_FFFF * 0xFFFF_FFFF_FFFF_FFFF) by (nonlinear_arith)
        requires
            sectors <= 0xFFFF_FFFF_FFFF_FFFF,
            per <= 0xFFFF_FFFF_FFFF_FFFF,
    ;
    let wide_total: u128 = sectors as u128 * per as u128;
    if wide_total > MAX_DIRECTORY_ENTRIES as u128 {
        return Err(Error::BadSizeValue("Directory is too large"));
    }
    let total: usize = wide_total as usize;
    let mut entries: Vec<Entry> = Vec::new();
    let mut slot: usize = 0;
    while slot < total
        invariant
            0 <= slot <= total,
            total == slot_count(sec_size as int, dir_sat@),
            total <= MAX_DIRECTORY_ENTRIES,
            per == records_per_sector(sec_size as int),
            sectors == dir_sat@.len(),
            total == sectors * per,
            entries@.len() == slot,
            forall|i: int|
                0 <= i < slot ==> #[trigger] slot_holds_entry(
                    body@,
                    sec_size as int,
                    dir_sat@,
                    wide,
                    i,
                ),
            forall|i: int|
                0 <= i < slot ==> (#[trigger] entries@[i])@ == parsed_record(
                    slot_record(body@, sec_size as int, dir_sat@, i),
                    i as u32,
                    wide,
                ),
            names_decode_plainly(body@, sec_size as int, dir_sat@, slot as int),
        decreases total - slot,
    {
        proof {
            assert(per > 0) by (nonlinear_arith)
                requires
                    slot < sectors * per,
                    0 <= slot,
                    0 <= per,
            ;
            assert(slot < per * sectors) by (nonlinear_arith)
                requires
                    slot < sectors * per,
            ;
            lemma_multiply_divide_lt(slot as int, per as int, sectors as int);
            lemma_mod_bound(slot as int, per as int);
            lemma_directory_end_from(body@, sec_size as int, dir_sat@, wide, slot as int);
        }
        let sector_index = dir_sat[slot / per];
        let sector = match read_sector(body, sec_size, sector_index) {
            Ok(sector) => sector,
            Err(e) => {
                return Err(e);
            },
        };
        let within: usize = slot % per;
        proof {
            lemma_sector_range(body@.len() as int, sec_size as int, sector_index as int);
        }
        let start: usize = within * DIRECTORY_ENTRY_SIZE;
        let record = slice_subrange(sector, start, start + DIRECTORY_ENTRY_SIZE);
        proof {
            assert(record@ =~= slot_record(body@, sec_size as int, dir_sat@, slot as int));
        }
        if record_begins_free(record) {
            proof {
                assert(entry_views(entries@) =~= parsed_directory(
                    body@,
                    sec_size as int,
                    dir_sat@,
                    wide,
                ).unwrap());
            }
            return Ok(entries);
        }
        let entry = match Entry::from_slice(record, slot as u32, wide) {
            Ok(entry) => entry,
            Err(e) => {
                return Err(e);
            },
        };
        entries.push(entry);
        slot = slot + 1;
    }
    proof {
        lemma_directory_end_from(body@, sec_size as int, dir_sat@, wide, total as int);
        assert(entry_views(entries@) =~= parsed_directory(
            body@,
            sec_size as int,
            dir_sat@,
            wide,
        ).unwrap());
    }
    Ok(entries)
}

/// Whether `entry` is a stream kept in mini sectors: a user stream of less
/// than `threshold` bytes.
pub open spec fn is_mini_stream(entry: EntryView, threshold: int) -> bool {
    entry.entry_type == EntryType::UserStream && entry.size < threshold
}

/// The chain of `entry`. That of a user stream is a chain of the mini
/// allocation table `ssat` where the stream is smaller than `threshold`,
/// else of the allocation table `sat`. That of the root storage is a chain
/// of `sat`. Entries of other kinds have the empty chain.
pub open spec fn entry_chain(
    entry: EntryView,
    threshold: int,
    sat: Seq<u32>,
    ssat: Seq<u32>,
) -> Result<Seq<u32>, Error> {
    if entry.entry_type == EntryType::UserStream {
        if entry.size < threshold {
            resolved_chain(ssat, entry.start_sector)
        } else {
            resolved_chain(sat, entry.start_sector)
        }
    } else if entry.entry_type == EntryType::RootStorage {
        resolved_chain(sat, entry.start_sector)
    } else {
        Ok(Seq::empty())
    }
}

/// What is wrong with the stream of `entry`, whose chain is resolved: the
/// chain has no room for the size of the entry, or a piece of it lies
/// outside the file. A user stream below the threshold lies in mini
/// sectors, every other entry in sectors. An entry of a kind without a
/// stream has the empty chain: its size has to be zero.
pub open spec fn entry_stream_fault(
    entry: EntryView,
    body_len: int,
    header: Header,
    root_chain: Seq<u32>,
) -> Option<Error> {
    if is_mini_stream(entry, header.minimum_standard_stream_size as int) {
        short_stream_fault(
            body_len,
            header.sec_size as int,
            header.short_sec_size as int,
            root_chain,
            entry.sec_id_chain,
            entry.size as int,
        )
    } else {
        stream_fault(body_len, header.sec_size as int, entry.sec_id_chain, entry.size as int)
    }
}

/// The stream of `entry`, not yet read: mini sectors of the sectors
/// `root_chain` for a user stream below the threshold, else sectors.
pub open spec fn stream_slice(
    entry: EntryView,
    body: Seq<u8>,
    header: Header,
    root_chain: Seq<u32>,
) -> EntrySliceView {
    if is_mini_stream(entry, header.minimum_standard_stream_size as int) {
        EntrySliceView {
            chunk_size: header.short_sec_size as nat,
            chunks: mini_sector_chunks(
                body,
                header.sec_size as int,
                header.short_sec_size as int,
                root_chain,
                entry.sec_id_chain,
            ),
            position: 0,
            len: entry.size as nat,
        }
    } else {
        EntrySliceView {
            chunk_size: header.sec_size as nat,
            chunks: sector_chunks(body, header.sec_size as int, entry.sec_id_chain),
            position: 0,
            len: entry.size as nat,
        }
    }
}

/// The stream of an entry without fault is well formed: its chunks are
/// whole sectors, or whole mini sectors, and hold at least as many bytes
/// as the entry has.
pub proof fn lemma_stream_slice_is_whole(
    entry: EntryView,
    body: Seq<u8>,
    header: Header,
    root_chain: Seq<u32>,
)
    requires
        entry_stream_fault(entry, body.len() as int, header, root_chain) is None,
    ensures
        stream_slice(entry, body, header, root_chain).wf(),
        stream_slice(entry, body, header, root_chain).real_len() >= entry.size,
{
    if is_mini_stream(entry, header.minimum_standard_stream_size as int) {
        lemma_mini_sectors_are_whole(
            body,
            header.sec_size as int,
            header.short_sec_size as int,
            root_chain,
            entry.sec_id_chain,
        );
    } else {
        lemma_sectors_are_whole(body, header.sec_size as int, entry.sec_id_chain);
    }
}

/// The size of a user stream selects the pieces that its slice is read
/// from: mini sectors of the sectors of the root storage below the
/// threshold, sectors of the file from the threshold on. The root storage
/// is read from sectors whatever its size.
pub proof fn lemma_slice_follows_threshold(
    entry: EntryView,
    body: Seq<u8>,
    header: Header,
    root_chain: Seq<u32>,
)
    ensures
        entry.entry_type == EntryType::UserStream && entry.size
            < header.minimum_standard_stream_size ==> stream_slice(
            entry,
            body,
            header,
            root_chain,
        ) == (EntrySliceView {
            chunk_size: header.short_sec_size as nat,
            chunks: mini_sector_chunks(
                body,
                header.sec_size as int,
                header.short_sec_size as int,
                root_chain,
                entry.sec_id_chain,
            ),
            position: 0,
            len: entry.size as nat,
        }),
        entry.entry_type != EntryType::UserStream || entry.size
            >= header.minimum_standard_stream_size ==> stream_slice(
            entry,
            body,
            header,
            root_chain,
        ) == (EntrySliceView {
            chunk_size: header.sec_size as nat,
            chunks: sector_chunks(body, header.sec_size as int, entry.sec_id_chain),
            position: 0,
            len: entry.size as nat,
        }),
{
}

/// `entry` with its chain, or what is wrong with the chain or the stream.
#[verifier::opaque]
pub open spec fn resolved_entry(
    entry: EntryView,
    body_len: int,
    header: Header,
    sat: Seq<u32>,
    ssat: Seq<u32>,
    root_chain: Seq<u32>,
) -> Result<EntryView, Error> {
    match entry_chain(entry, header.minimum_standard_stream_size as int, sat, ssat) {
        Err(e) => Err(e),
        Ok(chain) => {
            let with_chain = EntryView { sec_id_chain: chain, ..entry };
            match entry_stream_fault(with_chain, body_len, header, root_chain) {
                Some(e) => Err(e),
                None => Ok(with_chain),
            }
        },
    }
}

/// The first entry from `from` on whose chain or stream has a fault, or
/// the number of entries where there is none.
pub open spec fn first_unresolved(
    entries: Seq<EntryView>,
    body_len: int,
    header: Header,
    sat: Seq<u32>,
    ssat: Seq<u32>,
    root_chain: Seq<u32>,
    from: int,
) -> int
    decreases entries.len() - from,
{
    if from < 0 || from >= entries.len() {
        entries.len() as int
    } else if resolved_entry(entries[from], body_len, header, sat, ssat, root_chain) is Err {
        from
    } else {
        first_unresolved(entries, body_len, header, sat, ssat, root_chain, from + 1)
    }
}

/// The entries of a directory with their chains.
///
/// Entry 0 has to be the root storage, else the directory is
/// `InvalidFormat`. The chain of the root storage holds the mini stream.
/// Each entry gets its chain, and its stream is held against the file: the
/// first entry with a fault gives the error.
pub open spec fn resolved_directory(
    entries: Seq<EntryView>,
    body_len: int,
    header: Header,
    sat: Seq<u32>,
    ssat: Seq<u32>,
) -> Result<Seq<EntryView>, Error> {
    if entries.len() == 0 || entries[0].entry_type != EntryType::RootStorage {
        Err(Error::InvalidFormat)
    } else {
        match resolved_chain(sat, entries[0].start_sector) {
            Err(e) => Err(e),
            Ok(root_chain) => {
                let end = first_unresolved(entries, body_len, header, sat, ssat, root_chain, 0);
                if end < entries.len() {
                    Err(
                        resolved_entry(
                            entries[end],
                            body_len,
                            header,
                            sat,
                            ssat,
                            root_chain,
                        )->Err_0,
                    )
                } else {
                    Ok(
                        Seq::new(
                            entries.len(),
                            |i: int|
                                resolved_entry(
                                    entries[i],
                                    body_len,
                                    header,
                                    sat,
                                    ssat,
                                    root_chain,
                                )->Ok_0,
                        ),
                    )
                }
            },
        }
    }
}

/// The designated root: the id of the last entry of kind root storage.
pub open spec fn designated_root(entries: Seq<EntryView>) -> Option<u32>
    decreases entries.len(),
{
    if entries.len() == 0 {
        None
    } else if entries.last().entry_type == EntryType::RootStorage {
        Some((entries.len() - 1) as u32)
    } else {
        designated_root(entries.drop_last())
    }
}

/// Entries before `from` without fault do not change which is the first with one.
proof fn lemma_first_unresolved_from(
    entries: Seq<EntryView>,
    body_len: int,
    header: Header,
    sat: Seq<u32>,
    ssat: Seq<u32>,
    root_chain: Seq<u32>,
    from: int,
)
    requires
        0 <= from <= entries.len(),
        forall|i: int|
            0 <= i < from ==> (#[trigger] resolved_entry(
                entries[i],
                body_len,
                header,
                sat,
                ssat,
                root_chain,
            )) is Ok,
    ensures
        first_unresolved(entries, body_len, header, sat, ssat, root_chain, 0) == first_unresolved(
            entries,
            body_len,
            header,
            sat,
            ssat,
            root_chain,
            from,
        ),
    decreases from,
{
    if from > 0 {
        lemma_first_unresolved_from(entries, body_len, header, sat, ssat, root_chain, from - 1);
    }
}

/// Resolves the chain of the entry `entries[index]` and holds its stream
/// against the file.
fn resolve_entry(
    entries: &mut Vec<Entry>,
    index: usize,
    body: &[u8],
    header: &Header,
    sat: &Vec<u32>,
    ssat: &Vec<u32>,
    root_chain: &Vec<u32>,
) -> (r: Result<(), Error>)
    requires
        index < old(entries)@.len(),
    ensures
        final(entries)@.len() == old(entries)@.len(),
        forall|i: int|
            0 <= i < old(entries)@.len() && i != index ==> final(entries)@[i] == old(entries)@[i],
        match r {
            Ok(_) => resolved_entry(
                old(entries)@[index as int]@,
                body@.len() as int,
                *header,
                sat@,
                ssat@,
                root_chain@,
            ) == Ok::<EntryView, Error>(final(entries)@[index as int]@),
            Err(e) => resolved_entry(
                old(entries)@[index as int]@,
                body@.len() as int,
                *header,
                sat@,
                ssat@,
                root_chain@,
            ) == Err::<EntryView, Error>(e) && final(entries)@ == old(entries)@,
        },
{
    proof {
        reveal(resolved_entry);
    }
    let kind = entries[index]._type();
    let size = entries[index].len();
    let start = entries[index].start_sector();
    let chain: Vec<u32> = match kind {
        EntryType::UserStream => {
            let found = if size < header.minimum_standard_stream_size {
                build_chain_from_ssat(ssat, start)
            } else {
                build_chain_from_sat(sat, start)
            };
            match found {
                Ok(chain) => chain,
                Err(e) => {
                    return Err(e);
                },
            }
        },
        EntryType::RootStorage => {
            match build_chain_from_sat(sat, start) {
                Ok(chain) => chain,
                Err(e) => {
                    return Err(e);
                },
            }
        },
        _ => Vec::new(),
    };
    match kind {
        EntryType::UserStream => {
            if size < header.minimum_standard_stream_size {
                match get_short_stream_slices(
                    body,
                    header.sec_size,
                    header.short_sec_size,
                    root_chain,
                    &chain,
                    size,
                ) {
                    Ok(_) => {},
                    Err(e) => {
                        return Err(e);
                    },
                }
            } else {
                match get_stream_slices(body, header.sec_size, &chain, size) {
                    Ok(_) => {},
                    Err(e) => {
                        return Err(e);
                    },
                }
            }
        },
        _ => {
            match get_stream_slices(body, header.sec_size, &chain, size) {
                Ok(_) => {},
                Err(e) => {
                    return Err(e);
                },
            }
        },
    }
    entries[index].set_chain(chain);
    Ok(())
}

/// Gives each entry its chain and holds each stream against the file.
/// Returns the id of the designated root.
pub(crate) fn resolve_chains(
    entries: &mut Vec<Entry>,
    body: &[u8],
    header: &Header,
    sat: &Vec<u32>,
    ssat: &Vec<u32>,
) -> (r: Result<Option<u32>, Error>)
    requires
        old(entries)@.len() <= MAX_DIRECTORY_ENTRIES,
    ensures
        match r {
            Ok(root) => resolved_directory(
                entry_views(old(entries)@),
                body@.len() as int,
                *header,
                sat@,
                ssat@,
            ) == Ok::<Seq<EntryView>, Error>(entry_views(final(entries)@)) && root
                == designated_root(entry_views(old(entries)@)),
            Err(e) => resolved_directory(
                entry_views(old(entries)@),
                body@.len() as int,
                *header,
                sat@,
                ssat@,
            ) == Err::<Seq<EntryView>, Error>(e),
        },
{
    if entries.len() == 0 {
        return Err(Error::InvalidFormat);
    }
    if entries[0]._type() != EntryType::RootStorage {
        return Err(Error::InvalidFormat);
    }
    let root_chain = match build_chain_from_sat(sat, entries[0].start_sector()) {
        Ok(chain) => chain,
        Err(e) => {
            return Err(e);
        },
    };
    let ghost before = entry_views(entries@);
    let count: usize = entries.len();
    let mut root: Option<u32> = None;
    let mut i: usize = 0;
    while i < count
        invariant
            0 <= i <= count,
            count == entries@.len(),
            count == before.len(),
            count <= MAX_DIRECTORY_ENTRIES,
            before == entry_views(old(entries)@),
            before.len() > 0,
            before[0].entry_type == EntryType::RootStorage,
            resolved_chain(sat@, before[0].start_sector) == Ok::<Seq<u32>, Error>(root_chain@),
            forall|k: int| i <= k < count ==> (#[trigger] entries@[k])@ == before[k],
            forall|k: int|
                0 <= k < i ==> (#[trigger] resolved_entry(
                    before[k],
                    body@.len() as int,
                    *header,
                    sat@,
                    ssat@,
                    root_chain@,
                )) == Ok::<EntryView, Error>(entries@[k]@),
            root == designated_root(before.take(i as int)),
        decreases count - i,
    {
        let is_root = entries[i]._type() == EntryType::RootStorage;
        match resolve_entry(entries, i, body, header, sat, ssat, &root_chain) {
            Ok(_) => {},
            Err(e) => {
                proof {
                    lemma_first_unresolved_from(
                        before,
                        body@.len() as int,
                        *header,
                        sat@,
                        ssat@,
                        root_chain@,
                        i as int,
                    );
                }
                return Err(e);
            },
        }
        proof {
            assert forall|k: int| 0 <= k < i + 1 implies (#[trigger] resolved_entry(
                before[k],
                body@.len() as int,
                *header,
                sat@,
                ssat@,
                root_chain@,
            )) == Ok::<EntryView, Error>(entries@[k]@) by {}
            assert forall|k: int| i + 1 <= k < count implies (#[trigger] entries@[k])@
                == before[k] by {}
            assert(before.take(i + 1).drop_last() =~= before.take(i as int));
        }
        if is_root {
            root = Some(i as u32);
        }
        i = i + 1;
    }
    proof {
        lemma_first_unresolved_from(
            before,
            body@.len() as int,
            *header,
            sat@,
            ssat@,
            root_chain@,
            count as int,
        );
        assert(before.take(count as int) =~= before);
        assert(entry_views(entries@) =~= resolved_directory(
            before,
            body@.len() as int,
            *header,
            sat@,
            ssat@,
        )->Ok_0);
    }
    Ok(root)
}

/// The directory of a container as a mathematical value.
pub ghost struct DirectoryView {
    /// The entries, each at the position of its id.
    pub entries: Seq<EntryView>,
    /// The id of the designated root.
    pub root_entry: Option<u32>,
}

/// The directory of a container: its entries, and the id of the designated root.
#[derive(Debug)]
pub struct Directory {
    /// The entries, each at the position of its id.
    pub entries: Vec<Entry>,
    /// The id of the designated root.
    pub root_entry: Option<u32>,
}

impl View for Directory {
    type V = DirectoryView;

    open spec fn view(&self) -> DirectoryView {
        DirectoryView { entries: entry_views(self.entries@), root_entry: self.root_entry }
    }
}

/// Whether the size field of the records is 64 bits wide: in containers
/// with sectors of 4096 bytes.
pub open spec fn has_wide_sizes(header: Header) -> bool {
    header.sec_size == 4096
}

/// The directory of the container `body`: its records decoded, each entry
/// with its chain, and the hierarchy built. The first error on the way
/// where there is one.
pub open spec fn directory(body: Seq<u8>, header: Header, tables: AllocationTablesView) -> Result<
    DirectoryView,
    Error,
> {
    match parsed_directory(body, header.sec_size as int, tables.dir_sat, has_wide_sizes(header)) {
        Err(e) => Err(e),
        Ok(parsed) => match resolved_directory(
            parsed,
            body.len() as int,
            header,
            tables.sat,
            tables.ssat,
        ) {
            Err(e) => Err(e),
            Ok(resolved) => match hierarchy(resolved) {
                Err(e) => Err(e),
                Ok(entries) => Ok(DirectoryView { entries, root_entry: designated_root(parsed) }),
            },
        },
    }
}

/// Whether no entry has a place in the hierarchy yet.
pub open spec fn all_unplaced(entries: Seq<EntryView>) -> bool {
    forall|i: int|
        0 <= i < entries.len() ==> (#[trigger] entries[i]).parent_node is None
            && entries[i].children_nodes.len() == 0
}

/// Entries as their records give them have no place in the hierarchy yet.
proof fn lemma_parsed_unplaced(
    body: Seq<u8>,
    sec_size: int,
    dir_sat: Seq<u32>,
    wide: bool,
    parsed: Seq<EntryView>,
)
    requires
        parsed_directory(body, sec_size, dir_sat, wide) == Ok::<Seq<EntryView>, Error>(parsed),
    ensures
        all_unplaced(parsed),
{
}

/// Where no entry from `from` on has a fault, each of them is resolved.
pub proof fn lemma_all_resolved(
    entries: Seq<EntryView>,
    body_len: int,
    header: Header,
    sat: Seq<u32>,
    ssat: Seq<u32>,
    root_chain: Seq<u32>,
    from: int,
)
    requires
        0 <= from,
        first_unresolved(entries, body_len, header, sat, ssat, root_chain, from) >= entries.len(),
    ensures
        forall|i: int|
            from <= i < entries.len() ==> (#[trigger] resolved_entry(
                entries[i],
                body_len,
                header,
                sat,
                ssat,
                root_chain,
            )) is Ok,
    decreases entries.len() - from,
{
    if from < entries.len() {
        lemma_all_resolved(entries, body_len, header, sat, ssat, root_chain, from + 1);
    }
}

/// Resolving the chains gives no entry a place in the hierarchy.
proof fn lemma_resolved_unplaced(
    parsed: Seq<EntryView>,
    body_len: int,
    header: Header,
    sat: Seq<u32>,
    ssat: Seq<u32>,
    resolved: Seq<EntryView>,
)
    requires
        all_unplaced(parsed),
        resolved_directory(parsed, body_len, header, sat, ssat) == Ok::<Seq<EntryView>, Error>(
            resolved,
        ),
    ensures
        all_unplaced(resolved),
{
    let root_chain = resolved_chain(sat, parsed[0].start_sector)->Ok_0;
    lemma_all_resolved(parsed, body_len, header, sat, ssat, root_chain, 0);
    assert forall|i: int| 0 <= i < resolved.len() implies (#[trigger] resolved[i]).parent_node
        is None && resolved[i].children_nodes.len() == 0 by {
        reveal(resolved_entry);
    }
}

/// What holds of the entries of a directory.
///
/// Entry 0 is the root storage, and its chain is a chain of the allocation
/// table. Each entry has the id of its position and the chain that
/// `entry_chain` gives, and its stream has no fault: the chain has room for
/// the size of the stream, the sectors of a stream lie inside the file, and
/// the mini sectors of a mini stream lie in sectors of the chain of the
/// root storage.
pub proof fn lemma_directory_streams(
    body: Seq<u8>,
    header: Header,
    tables: AllocationTablesView,
    found: DirectoryView,
)
    requires
        directory(body, header, tables) == Ok::<DirectoryView, Error>(found),
    ensures
        found.entries.len() > 0,
        found.entries[0].entry_type == EntryType::RootStorage,
        resolved_chain(tables.sat, found.entries[0].start_sector) == Ok::<Seq<u32>, Error>(
            found.entries[0].sec_id_chain,
        ),
        forall|i: int|
            0 <= i < found.entries.len() ==> {
                let entry = #[trigger] found.entries[i];
                &&& entry.id == i
                &&& entry_chain(
                    entry,
                    header.minimum_standard_stream_size as int,
                    tables.sat,
                    tables.ssat,
                ) == Ok::<Seq<u32>, Error>(entry.sec_id_chain)
                &&& entry_stream_fault(
                    entry,
                    body.len() as int,
                    header,
                    found.entries[0].sec_id_chain,
                ) is None
            },
{
    let parsed = parsed_directory(
        body,
        header.sec_size as int,
        tables.dir_sat,
        has_wide_sizes(header),
    )->Ok_0;
    let root_chain = resolved_chain(tables.sat, parsed[0].start_sector)->Ok_0;
    assert(parsed.len() <= MAX_DIRECTORY_ENTRIES) by {
        assert(0 <= slot_count(header.sec_size as int, tables.dir_sat)) by (nonlinear_arith)
            requires
                slot_count(header.sec_size as int, tables.dir_sat) == tables.dir_sat.len() * (
                header.sec_size as int / 128),
                header.sec_size as int / 128 >= 0,
        ;
        lemma_directory_end_bound(
            body,
            header.sec_size as int,
            tables.dir_sat,
            has_wide_sizes(header),
            0,
        );
    }
    lemma_all_resolved(
        parsed,
        body.len() as int,
        header,
        tables.sat,
        tables.ssat,
        root_chain,
        0,
    );
    assert forall|i: int| 0 <= i < found.entries.len() implies {
        let entry = #[trigger] found.entries[i];
        &&& entry.id == i
        &&& entry.entry_type == parsed[i].entry_type
        &&& entry.start_sector == parsed[i].start_sector
        &&& entry_chain(entry, header.minimum_standard_stream_size as int, tables.sat, tables.ssat)
            == Ok::<Seq<u32>, Error>(entry.sec_id_chain)
        &&& entry_stream_fault(entry, body.len() as int, header, root_chain) is None
    } by {
        reveal(resolved_entry);
    }
}

/// In a directory, entry 0 has no parent, and an entry holds exactly the
/// entries whose parent it is, each of them once. The ids of the entries
/// fit 32 bits.
pub proof fn lemma_directory_hierarchy(
    body: Seq<u8>,
    header: Header,
    tables: AllocationTablesView,
    found: DirectoryView,
    parent: int,
    id: u32,
)
    requires
        directory(body, header, tables) == Ok::<DirectoryView, Error>(found),
        0 <= parent < found.entries.len(),
    ensures
        found.entries.len() <= MAX_DIRECTORY_ENTRIES,
        found.entries[0].parent_node is None,
        found.entries[parent].children_nodes.no_duplicates(),
        found.entries[parent].children_nodes.contains(id) <==> (id < found.entries.len()
            && found.entries[id as int].parent_node == Some(parent as u32)),
{
    let parsed = parsed_directory(
        body,
        header.sec_size as int,
        tables.dir_sat,
        has_wide_sizes(header),
    )->Ok_0;
    let resolved = resolved_directory(
        parsed,
        body.len() as int,
        header,
        tables.sat,
        tables.ssat,
    )->Ok_0;
    assert(parsed.len() <= MAX_DIRECTORY_ENTRIES) by {
        assert(0 <= slot_count(header.sec_size as int, tables.dir_sat)) by (nonlinear_arith)
            requires
                slot_count(header.sec_size as int, tables.dir_sat) == tables.dir_sat.len() * (
                header.sec_size as int / 128),
                header.sec_size as int / 128 >= 0,
        ;
        lemma_directory_end_bound(
            body,
            header.sec_size as int,
            tables.dir_sat,
            has_wide_sizes(header),
            0,
        );
    }
    lemma_hierarchy_is_consistent(resolved, found.entries, parent, id);
}

/// In a directory, a storage that is entry 0 or has a parent holds exactly
/// the entries that are reached from the root of its tree through links to
/// left and right neighbours, and these are the entries whose parent it is.
pub proof fn lemma_directory_members(
    body: Seq<u8>,
    header: Header,
    tables: AllocationTablesView,
    found: DirectoryView,
    holder: int,
    id: u32,
)
    requires
        directory(body, header, tables) == Ok::<DirectoryView, Error>(found),
        0 <= holder < found.entries.len(),
        found.entries[holder].entry_type.is_storage(),
        holder == 0 || found.entries[holder].parent_node is Some,
    ensures
        found.entries[holder].children_nodes.contains(id) <==> reaches(
            found.entries,
            found.entries[holder].root_node,
            id,
        ),
        found.entries[holder].children_nodes.contains(id) <==> (id < found.entries.len()
            && found.entries[id as int].parent_node == Some(holder as u32)),
{
    let parsed = parsed_directory(
        body,
        header.sec_size as int,
        tables.dir_sat,
        has_wide_sizes(header),
    )->Ok_0;
    let resolved = resolved_directory(
        parsed,
        body.len() as int,
        header,
        tables.sat,
        tables.ssat,
    )->Ok_0;
    lemma_directory_hierarchy(body, header, tables, found, holder, id);
    lemma_children_are_the_reached(resolved, found.entries, holder, id);
    lemma_reaches_same_links(resolved, found.entries, resolved[holder].root_node, id);
}

/// The size of a user stream selects the table of its chain: the mini
/// allocation table below the threshold, the allocation table from the
/// threshold on.
pub proof fn lemma_threshold_selects_table(
    entry: EntryView,
    threshold: int,
    sat: Seq<u32>,
    ssat: Seq<u32>,
)
    requires
        entry.entry_type == EntryType::UserStream,
    ensures
        entry.size < threshold ==> entry_chain(entry, threshold, sat, ssat) == resolved_chain(
            ssat,
            entry.start_sector,
        ),
        entry.size >= threshold ==> entry_chain(entry, threshold, sat, ssat) == resolved_chain(
            sat,
            entry.start_sector,
        ),
{
}

/// In a directory, the chain of a user stream below the threshold is a
/// chain of the mini allocation table, and each mini sector of it lies in a
/// sector of the chain of the root storage, which is a chain of the
/// allocation table and lies inside the file.
pub proof fn lemma_mini_stream_lies_in_root_chain(
    body: Seq<u8>,
    header: Header,
    tables: AllocationTablesView,
    found: DirectoryView,
    i: int,
)
    requires
        directory(body, header, tables) == Ok::<DirectoryView, Error>(found),
        0 <= i < found.entries.len(),
        is_mini_stream(found.entries[i], header.minimum_standard_stream_size as int),
    ensures
        is_chain(tables.sat, found.entries[0].start_sector, found.entries[0].sec_id_chain),
        is_chain(tables.ssat, found.entries[i].start_sector, found.entries[i].sec_id_chain),
        all_located(
            body.len() as int,
            header.sec_size as int,
            header.short_sec_size as int,
            found.entries[0].sec_id_chain,
            found.entries[i].sec_id_chain,
        ),
        forall|k: int|
            0 <= k < found.entries[i].sec_id_chain.len() ==> mini_sector_place(
                header.sec_size as int,
                header.short_sec_size as int,
                #[trigger] found.entries[i].sec_id_chain[k],
            ) < found.entries[0].sec_id_chain.len(),
{
    lemma_directory_streams(body, header, tables, found);
    let entry = found.entries[i];
    let root = found.entries[0];
    lemma_resolved_is_chain(tables.sat, root.start_sector, root.sec_id_chain);
    lemma_resolved_is_chain(tables.ssat, entry.start_sector, entry.sec_id_chain);
    assert forall|k: int| 0 <= k < entry.sec_id_chain.len() implies mini_sector_place(
        header.sec_size as int,
        header.short_sec_size as int,
        #[trigger] entry.sec_id_chain[k],
    ) < found.entries[0].sec_id_chain.len() by {}
}

/// In a directory, the chain of a user stream from the threshold on is a
/// chain of the allocation table, and each sector of it lies inside the
/// file.
pub proof fn lemma_stream_lies_in_file(
    body: Seq<u8>,
    header: Header,
    tables: AllocationTablesView,
    found: DirectoryView,
    i: int,
)
    requires
        directory(body, header, tables) == Ok::<DirectoryView, Error>(found),
        0 <= i < found.entries.len(),
        found.entries[i].entry_type == EntryType::UserStream,
        found.entries[i].size >= header.minimum_standard_stream_size,
    ensures
        is_chain(tables.sat, found.entries[i].start_sector, found.entries[i].sec_id_chain),
        all_in_bounds(body.len() as int, header.sec_size as int, found.entries[i].sec_id_chain),
        chain_covers(
            found.entries[i].sec_id_chain.len() as int,
            header.sec_size as int,
            found.entries[i].size as int,
        ),
{
    lemma_directory_streams(body, header, tables, found);
    let entry = found.entries[i];
    lemma_resolved_is_chain(tables.sat, entry.start_sector, entry.sec_id_chain);
}

/// Builds the directory of the container `body` from its header and its
/// allocation tables.
pub fn build_directory_entries(body: &[u8], header: &Header, tables: &AllocationTables) -> (r:
    Result<Directory, Error>)
    ensures
        match r {
            Ok(found) => directory(body@, *header, tables@) == Ok::<DirectoryView, Error>(found@)
                && names_decode_plainly(
                body@,
                header.sec_size as int,
                tables@.dir_sat,
                found@.entries.len() as int,
            ),
            Err(e) => directory(body@, *header, tables@) == Err::<DirectoryView, Error>(e),
        },
{
    let wide = header.sec_size == 4096;
    let mut entries = match parse_directory(body, header.sec_size, &tables.dir_sat, wide) {
        Ok(entries) => entries,
        Err(e) => {
            return Err(e);
        },
    };
    let ghost parsed = entry_views(entries@);
    let root_entry = match resolve_chains(&mut entries, body, header, &tables.sat, &tables.ssat) {
        Ok(root) => root,
        Err(e) => {
            return Err(e);
        },
    };
    proof {
        let resolved = entry_views(entries@);
        lemma_parsed_unplaced(body@, header.sec_size as int, tables.dir_sat@, wide, parsed);
        lemma_resolved_unplaced(
            parsed,
            body@.len() as int,
            *header,
            tables.sat@,
            tables.ssat@,
            resolved,
        );
        assert forall|i: int| 0 <= i < entries@.len() implies (#[trigger] entries@[i])@.parent_node
            is None && entries@[i]@.children_nodes.len() == 0 by {
            assert(resolved[i] == entries@[i]@);
        }
    }
    match build_entry_tree(&mut entries) {
        Ok(_) => {},
        Err(e) => {
            return Err(e);
        },
    }
    Ok(Directory { entries, root_entry })
}

} // verus!
