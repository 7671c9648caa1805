//! The reader: a container opened from its bytes.

use vstd::prelude::*;
use vstd::slice::slice_to_vec;
use crate::constants::HEADER_SIZE;
use crate::constants::identifier;
use crate::directory::Directory;
use crate::directory::DirectoryView;
use crate::directory::build_directory_entries;
use crate::directory::directory;
use crate::directory::entry_stream_fault;
use crate::directory::entry_views;
use crate::directory::lemma_directory_streams;
use crate::directory::lemma_stream_slice_is_whole;
use crate::directory::names_decode_plainly;
use crate::directory::stream_slice;
use crate::entry::Entry;
use crate::entry::EntryType;
use crate::entry::EntryView;
use crate::error::Error;
use crate::header::Header;
use crate::header::header_fault;
use crate::header::header_fields;
use crate::header::parse_header;
use crate::iterator::OLEIterator;
use crate::iterator::handed_out;
use crate::iterator::lemma_iteration_yields_all;
use crate::iterator::position_after;
use crate::sat::AllocationTables;
use crate::sat::AllocationTablesView;
use crate::sat::allocation_tables;
use crate::sat::build_allocation_tables;
use crate::stream::EntrySlice;
use crate::stream::EntrySliceView;
use crate::stream::get_short_stream_slices;
use crate::stream::get_stream_slices;

verus! {

/// An opened container as a mathematical value.
pub ghost struct ReaderView {
    /// The bytes of the file.
    pub body: Seq<u8>,
    /// What the header says.
    pub header: Header,
    /// The allocation tables.
    pub tables: AllocationTablesView,
    /// The directory entries, each at the position of its id.
    pub entries: Seq<EntryView>,
    /// The id of the designated root.
    pub root_entry: Option<u32>,
}

/// What opening the container `data` gives: the header, then the
/// allocation tables, then the directory, or the first error on the way.
#[verifier::opaque]
pub open spec fn opened(data: Seq<u8>) -> Result<ReaderView, Error> {
    match header_fault(data) {
        Some(e) => Err(e),
        None => {
            let header = header_fields(data);
            match allocation_tables(data, header) {
                Err(e) => Err(e),
                Ok(tables) => match directory(data, header, tables) {
                    Err(e) => Err(e),
                    Ok(found) => Ok(
                        ReaderView {
                            body: data,
                            header,
                            tables,
                            entries: found.entries,
                            root_entry: found.root_entry,
                        },
                    ),
                },
            }
        },
    }
}

/// Why the container `reader` has no slice for `entry`, if it has none:
/// `EmptyEntry` for an entry of size zero, else what is wrong with the
/// stream.
pub open spec fn entry_slice_fault(reader: ReaderView, entry: EntryView) -> Option<Error> {
    if entry.size == 0 {
        Some(Error::EmptyEntry)
    } else {
        entry_stream_fault(
            entry,
            reader.body.len() as int,
            reader.header,
            reader.entries[0].sec_id_chain,
        )
    }
}

/// Whether `entry` is one of the entries of the container `reader`.
pub open spec fn is_entry_of(reader: ReaderView, entry: EntryView) -> bool {
    exists|i: int| 0 <= i < reader.entries.len() && #[trigger] reader.entries[i] == entry
}

/// The slice of `entry` in the container `reader`, not yet read: mini
/// sectors for a mini stream, else sectors.
pub open spec fn entry_slice(reader: ReaderView, entry: EntryView) -> EntrySliceView {
    stream_slice(entry, reader.body, reader.header, reader.entries[0].sec_id_chain)
}

/// An entry of an opened container has a slice exactly if its size is not
/// zero: `EmptyEntry` is the only error left to be found when a slice is
/// asked for, and it is found for the size zero and for no other. The
/// slice is well formed: its chunks hold at least as many bytes as the
/// entry has.
pub proof fn lemma_own_entries_have_slices(reader: ReaderView, i: int)
    requires
        opened(reader.body) == Ok::<ReaderView, Error>(reader),
        0 <= i < reader.entries.len(),
    ensures
        entry_slice_fault(reader, reader.entries[i]) == Some(Error::EmptyEntry)
            <==> reader.entries[i].size == 0,
        reader.entries[i].size != 0 ==> entry_slice_fault(reader, reader.entries[i]) is None,
        reader.entries[i].size != 0 ==> entry_slice(reader, reader.entries[i]).wf(),
        reader.entries[i].size != 0 ==> entry_slice(reader, reader.entries[i]).real_len()
            >= entry_slice(reader, reader.entries[i]).len,
{
    reveal(opened);
    lemma_directory_streams(
        reader.body,
        reader.header,
        reader.tables,
        DirectoryView { entries: reader.entries, root_entry: reader.root_entry },
    );
    if reader.entries[i].size != 0 {
        lemma_stream_slice_is_whole(
            reader.entries[i],
            reader.body,
            reader.header,
            reader.entries[0].sec_id_chain,
        );
    }
}

/// A container whose first eight bytes are not the signature does not
/// open: it is `InvalidFormat`, whatever the rest of it holds.
pub proof fn lemma_altered_signature_does_not_open(data: Seq<u8>)
    requires
        data.len() >= HEADER_SIZE,
        data.subrange(0, 8) != identifier(),
    ensures
        opened(data) == Err::<ReaderView, Error>(Error::InvalidFormat),
{
    reveal(opened);
}

/// A container with the big-endian byte order mark does not open: it is
/// `Unsupported`.
pub proof fn lemma_big_endian_does_not_open(data: Seq<u8>)
    requires
        data.len() >= HEADER_SIZE,
        data.subrange(0, 8) == identifier(),
        data[28] == 0xFF,
        data[29] == 0xFE,
    ensures
        opened(data) == Err::<ReaderView, Error>(Error::Unsupported),
{
    reveal(opened);
}

/// An OLE file reader.
///
/// The reader holds the bytes of the file and what was decoded from them:
/// the header, the allocation tables and the directory entries.
#[derive(Debug)]
pub struct Reader {
    /// What the header says.
    header: Header,
    /// The allocation tables.
    tables: AllocationTables,
    /// Body of the file.
    body: Vec<u8>,
    /// Directory entries.
    entries: Vec<Entry>,
    /// DirID of the root entry.
    root_entry: Option<u32>,
}

impl View for Reader {
    type V = ReaderView;

    closed spec fn view(&self) -> ReaderView {
        ReaderView {
            body: self.body@,
            header: self.header,
            tables: self.tables@,
            entries: entry_views(self.entries@),
            root_entry: self.root_entry,
        }
    }
}

impl Reader {
    /// Whether the reader is one that `new` returns: what it holds is what
    /// opening its bytes gives.
    pub open spec fn wf(&self) -> bool {
        opened(self@.body) == Ok::<ReaderView, Error>(self@)
    }

    /// The entries of the reader.
    pub closed spec fn spec_entries(&self) -> Seq<Entry> {
        self.entries@
    }

    /// The entries of the reader are those of its view.
    pub proof fn lemma_entries_view(&self)
        ensures
            self@.entries == entry_views(self.spec_entries()),
    {
    }

    /// Going through the entries of an opened container hands out each
    /// entry once, in the order of the ids: the call of `next` that follows
    /// `calls` earlier ones on a new iterator hands out the entry with the
    /// id `calls`, and the call after the last entry hands out nothing.
    pub proof fn lemma_iteration_follows_ids(&self, calls: nat)
        requires
            self.wf(),
        ensures
            calls < self.spec_entries().len() ==> handed_out(
                self.spec_entries(),
                position_after(self.spec_entries().len(), 0, calls),
            ) == Some(self.spec_entries()[calls as int]) && self.spec_entries()[calls as int]@.id
                == calls,
            calls >= self.spec_entries().len() ==> handed_out(
                self.spec_entries(),
                position_after(self.spec_entries().len(), 0, calls),
            ) is None,
    {
        reveal(opened);
        lemma_iteration_yields_all(self.spec_entries(), calls);
        lemma_directory_streams(
            self@.body,
            self@.header,
            self@.tables,
            DirectoryView { entries: self@.entries, root_entry: self@.root_entry },
        );
        if calls < self.spec_entries().len() {
            assert(self@.entries[calls as int] == self.spec_entries()[calls as int]@);
        }
    }

    /// Opens the container `data`: decodes the header, builds the
    /// allocation tables, builds the directory. Fails with the first error
    /// on the way.
    pub fn new(data: &[u8]) -> (r: Result<Reader, Error>)
        ensures
            match r {
                Ok(reader) => opened(data@) == Ok::<ReaderView, Error>(reader@) && reader.wf()
                    && names_decode_plainly(
                    data@,
                    reader@.header.sec_size as int,
                    reader@.tables.dir_sat,
                    reader@.entries.len() as int,
                ),
                Err(e) => opened(data@) == Err::<ReaderView, Error>(e),
            },
    {
        proof {
            reveal(opened);
        }
        let header = match parse_header(data) {
            Ok(header) => header,
            Err(e) => {
                return Err(e);
            },
        };
        let tables = match build_allocation_tables(data, &header) {
            Ok(tables) => tables,
            Err(e) => {
                return Err(e);
            },
        };
        let found = match build_directory_entries(data, &header, &tables) {
            Ok(found) => found,
            Err(e) => {
                return Err(e);
            },
        };
        let Directory { entries, root_entry } = found;
        let body = slice_to_vec(data);
        Ok(Reader { header, tables, body, entries, root_entry })
    }

    /// Returns an iterator for directory entries of the OLE file.
    pub fn iterate(&self) -> (iter: OLEIterator<'_>)
        ensures
            iter.reader() == self,
            iter.position() == 0,
    {
        OLEIterator::new(self)
    }

    /// Returns the directory entries, each at the position of its id.
    pub fn entries(&self) -> (r: &Vec<Entry>)
        ensures
            r@ == self.spec_entries(),
            entry_views(r@) == self@.entries,
    {
        &self.entries
    }

    /// Returns the unique identifier of the container.
    pub fn uid(&self) -> (r: &[u8; 16])
        ensures
            *r == self@.header.uid,
    {
        &self.header.uid
    }

    /// Returns the revision number.
    pub fn revision_number(&self) -> (r: u16)
        ensures
            r == self@.header.revision_number,
    {
        self.header.revision_number
    }

    /// Returns the version number.
    pub fn version_number(&self) -> (r: u16)
        ensures
            r == self@.header.version_number,
    {
        self.header.version_number
    }

    /// Returns the size of one sector.
    pub fn sec_size(&self) -> (r: usize)
        ensures
            r == self@.header.sec_size,
    {
        self.header.sec_size
    }

    /// Returns the size of one mini sector.
    pub fn short_sec_size(&self) -> (r: usize)
        ensures
            r == self@.header.short_sec_size,
    {
        self.header.short_sec_size
    }

    /// Returns the size from which a stream lies in sectors of the file.
    pub fn minimum_standard_stream_size(&self) -> (r: usize)
        ensures
            r == self@.header.minimum_standard_stream_size,
    {
        self.header.minimum_standard_stream_size
    }

    /// Returns the ids of the sectors that hold the allocation table.
    pub fn main_sat(&self) -> (r: &Vec<u32>)
        ensures
            r@ == self@.tables.main_sat,
    {
        &self.tables.main_sat
    }

    /// Returns the allocation table.
    pub fn sat(&self) -> (r: &Vec<u32>)
        ensures
            r@ == self@.tables.sat,
    {
        &self.tables.sat
    }

    /// Returns the mini allocation table.
    pub fn ssat(&self) -> (r: &Vec<u32>)
        ensures
            r@ == self@.tables.ssat,
    {
        &self.tables.ssat
    }

    /// Returns the sectors of the directory, in order.
    pub fn dir_sat(&self) -> (r: &Vec<u32>)
        ensures
            r@ == self@.tables.dir_sat,
    {
        &self.tables.dir_sat
    }

    /// Returns the id of the designated root: the last entry of kind root storage.
    pub fn root_entry(&self) -> (r: Option<u32>)
        ensures
            r == self@.root_entry,
    {
        self.root_entry
    }

    /// Returns the slice for the entry.
    ///
    /// Fails with `EmptyEntry` for an entry of size zero. An entry of this
    /// reader has a slice otherwise. For an entry from elsewhere the chain
    /// is held against this file, and `BadSizeValue` tells that it does
    /// not fit.
    pub fn get_entry_slice(&self, entry: &Entry) -> (r: Result<EntrySlice<'_>, Error>)
        requires
            self.wf(),
        ensures
            match r {
                Ok(slice) => entry_slice_fault(self@, entry@) is None && slice.wf() && slice@
                    == entry_slice(self@, entry@),
                Err(e) => entry_slice_fault(self@, entry@) == Some(e),
            },
            (r matches Err(e) && e == Error::EmptyEntry) <==> entry@.size == 0,
            entry@.size != 0 && is_entry_of(self@, entry@) ==> r is Ok,
    {
        proof {
            reveal(opened);
        }
        let size = entry.len();
        let kind = entry._type();
        if size == 0 {
            return Err(Error::EmptyEntry);
        }
        proof {
            lemma_directory_streams(
                self@.body,
                self@.header,
                self@.tables,
                DirectoryView { entries: self@.entries, root_entry: self@.root_entry },
            );
        }
        if kind == EntryType::UserStream && size < self.header.minimum_standard_stream_size {
            get_short_stream_slices(
                self.body.as_slice(),
                self.header.sec_size,
                self.header.short_sec_size,
                self.entries[0].sec_id_chain(),
                entry.sec_id_chain(),
                size,
            )
        } else {
            get_stream_slices(
                self.body.as_slice(),
                self.header.sec_size,
                entry.sec_id_chain(),
                size,
            )
        }
    }
}

} // verus!
