//! Streams: the bytes of an entry, read in order from the sectors of its chain.
//!
//! A stream of at least the threshold size of the header lies in sectors of
//! the file. A smaller one lies in mini sectors: pieces of the mini stream,
//! which is the stream of the root storage and lies in sectors itself.

use vstd::prelude::*;
use vstd::arithmetic::div_mod::lemma_fundamental_div_mod;
use vstd::arithmetic::div_mod::lemma_fundamental_div_mod_converse_div;
use vstd::arithmetic::div_mod::lemma_fundamental_div_mod_converse_mod;
use vstd::arithmetic::div_mod::lemma_mod_bound;
use vstd::arithmetic::div_mod::lemma_multiply_divide_lt;
use vstd::slice::slice_subrange;
use crate::error::Error;
use crate::sat::all_in_bounds;
use crate::sector::lemma_sector_range;
use crate::sector::read_sector;
use crate::sector::sector_bytes;
use crate::sector::sector_in_bounds;
use crate::sector::sector_offset;

verus! {

/// Whether a chain of `chain_len` pieces of `chunk` bytes each has room for
/// `size` bytes.
pub open spec fn chain_covers(chain_len: int, chunk: int, size: int) -> bool {
    chain_len * chunk >= size
}

/// How many mini sectors one sector holds.
pub open spec fn minis_per_sector(sec_size: int, short_sec_size: int) -> int {
    if short_sec_size > 0 {
        sec_size / short_sec_size
    } else {
        0
    }
}

/// The sector of the mini stream that holds the mini sector `mini_id`,
/// counted along the chain of the root storage.
pub open spec fn mini_sector_place(sec_size: int, short_sec_size: int, mini_id: u32) -> int {
    mini_id as int / minis_per_sector(sec_size, short_sec_size)
}

/// Whether the mini sector `mini_id` lies in a sector of the chain
/// `root_chain` of the root storage, and that sector wholly inside the file.
pub open spec fn mini_sector_located(
    body_len: int,
    sec_size: int,
    short_sec_size: int,
    root_chain: Seq<u32>,
    mini_id: u32,
) -> bool {
    &&& minis_per_sector(sec_size, short_sec_size) > 0
    &&& mini_sector_place(sec_size, short_sec_size, mini_id) < root_chain.len()
    &&& sector_in_bounds(
        body_len,
        sec_size,
        root_chain[mini_sector_place(sec_size, short_sec_size, mini_id)] as int,
    )
}

/// Offset in the file of the first byte of the mini sector `mini_id`.
pub open spec fn mini_sector_offset(
    sec_size: int,
    short_sec_size: int,
    root_chain: Seq<u32>,
    mini_id: u32,
) -> int {
    sector_offset(
        sec_size,
        root_chain[mini_sector_place(sec_size, short_sec_size, mini_id)] as int,
    ) + short_sec_size * (mini_id as int % minis_per_sector(sec_size, short_sec_size))
}

/// The bytes of the mini sector `mini_id`.
pub open spec fn mini_sector_bytes(
    body: Seq<u8>,
    sec_size: int,
    short_sec_size: int,
    root_chain: Seq<u32>,
    mini_id: u32,
) -> Seq<u8> {
    body.subrange(
        mini_sector_offset(sec_size, short_sec_size, root_chain, mini_id),
        mini_sector_offset(sec_size, short_sec_size, root_chain, mini_id) + short_sec_size,
    )
}

/// Whether every mini sector of `chain` lies in a sector of `root_chain`
/// that is wholly inside the file.
pub open spec fn all_located(
    body_len: int,
    sec_size: int,
    short_sec_size: int,
    root_chain: Seq<u32>,
    chain: Seq<u32>,
) -> bool {
    forall|i: int|
        0 <= i < chain.len() ==> mini_sector_located(
            body_len,
            sec_size,
            short_sec_size,
            root_chain,
            #[trigger] chain[i],
        )
}

/// What is wrong with a stream of `size` bytes in the sectors `chain`:
/// the sectors together are more than the machine can address, the chain
/// has no room for the size, or a sector of it is not wholly inside the
/// file.
pub open spec fn stream_fault(body_len: int, sec_size: int, chain: Seq<u32>, size: int) -> Option<
    Error,
> {
    if chain.len() * sec_size > usize::MAX {
        Some(Error::BadSizeValue("Stream is too large"))
    } else if !chain_covers(chain.len() as int, sec_size, size) {
        Some(Error::BadSizeValue("Stream is longer than its chain"))
    } else if !all_in_bounds(body_len, sec_size, chain) {
        Some(Error::BadSizeValue("File is too short"))
    } else {
        None
    }
}

/// What is wrong with a stream of `size` bytes in the mini sectors `chain`:
/// the mini sectors together are more than the machine can address, the
/// chain has no room for the size, or a mini sector of it lies outside the
/// sectors of the root storage or outside the file.
pub open spec fn short_stream_fault(
    body_len: int,
    sec_size: int,
    short_sec_size: int,
    root_chain: Seq<u32>,
    chain: Seq<u32>,
    size: int,
) -> Option<Error> {
    if chain.len() * short_sec_size > usize::MAX {
        Some(Error::BadSizeValue("Stream is too large"))
    } else if !chain_covers(chain.len() as int, short_sec_size, size) {
        Some(Error::BadSizeValue("Stream is longer than its chain"))
    } else if !all_located(body_len, sec_size, short_sec_size, root_chain, chain) {
        Some(Error::BadSizeValue("Mini stream is too short"))
    } else {
        None
    }
}

/// The sectors `chain` of the file, one after the other.
pub open spec fn sector_chunks(body: Seq<u8>, sec_size: int, chain: Seq<u32>) -> Seq<Seq<u8>> {
    Seq::new(chain.len(), |i: int| sector_bytes(body, sec_size, chain[i] as int))
}

/// The mini sectors `chain`, one after the other.
pub open spec fn mini_sector_chunks(
    body: Seq<u8>,
    sec_size: int,
    short_sec_size: int,
    root_chain: Seq<u32>,
    chain: Seq<u32>,
) -> Seq<Seq<u8>> {
    Seq::new(
        chain.len(),
        |i: int| mini_sector_bytes(body, sec_size, short_sec_size, root_chain, chain[i]),
    )
}

/// Sectors inside the file are pieces of the sector size.
pub proof fn lemma_sectors_are_whole(body: Seq<u8>, sec_size: int, chain: Seq<u32>)
    requires
        0 <= sec_size,
        all_in_bounds(body.len() as int, sec_size, chain),
    ensures
        forall|i: int|
            0 <= i < chain.len() ==> (#[trigger] sector_chunks(body, sec_size, chain)[i]).len()
                == sec_size,
{
    assert forall|i: int| 0 <= i < chain.len() implies (#[trigger] sector_chunks(
        body,
        sec_size,
        chain,
    )[i]).len() == sec_size by {
        lemma_sector_range(body.len() as int, sec_size, chain[i] as int);
    }
}

/// A mini sector that is located lies inside its sector, and so inside the file.
pub proof fn lemma_mini_sector_range(
    body_len: int,
    sec_size: int,
    short_sec_size: int,
    root_chain: Seq<u32>,
    mini_id: u32,
)
    requires
        0 <= sec_size,
        mini_sector_located(body_len, sec_size, short_sec_size, root_chain, mini_id),
    ensures
        sector_offset(
            sec_size,
            root_chain[mini_sector_place(sec_size, short_sec_size, mini_id)] as int,
        ) <= mini_sector_offset(sec_size, short_sec_size, root_chain, mini_id),
        mini_sector_offset(sec_size, short_sec_size, root_chain, mini_id) + short_sec_size
            <= sector_offset(
            sec_size,
            root_chain[mini_sector_place(sec_size, short_sec_size, mini_id)] as int,
        ) + sec_size,
        0 <= mini_sector_offset(sec_size, short_sec_size, root_chain, mini_id),
        mini_sector_offset(sec_size, short_sec_size, root_chain, mini_id) + short_sec_size
            <= body_len,
{
    let per = minis_per_sector(sec_size, short_sec_size);
    let within = mini_id as int % per;
    let holder = root_chain[mini_sector_place(sec_size, short_sec_size, mini_id)];
    lemma_sector_range(body_len, sec_size, holder as int);
    lemma_mod_bound(mini_id as int, per);
    lemma_fundamental_div_mod(sec_size, short_sec_size);
    assert(short_sec_size * (within + 1) <= short_sec_size * per) by (nonlinear_arith)
        requires
            within + 1 <= per,
            0 <= short_sec_size,
    ;
    assert(short_sec_size * (within + 1) == short_sec_size * within + short_sec_size)
        by (nonlinear_arith);
    assert(0 <= short_sec_size * within) by (nonlinear_arith)
        requires
            0 <= within,
            0 <= short_sec_size,
    ;
}

/// Mini sectors that are located are pieces of the mini sector size.
pub proof fn lemma_mini_sectors_are_whole(
    body: Seq<u8>,
    sec_size: int,
    short_sec_size: int,
    root_chain: Seq<u32>,
    chain: Seq<u32>,
)
    requires
        0 <= sec_size,
        all_located(body.len() as int, sec_size, short_sec_size, root_chain, chain),
    ensures
        forall|i: int|
            0 <= i < chain.len() ==> (#[trigger] mini_sector_chunks(
                body,
                sec_size,
                short_sec_size,
                root_chain,
                chain,
            )[i]).len() == short_sec_size,
{
    assert forall|i: int| 0 <= i < chain.len() implies (#[trigger] mini_sector_chunks(
        body,
        sec_size,
        short_sec_size,
        root_chain,
        chain,
    )[i]).len() == short_sec_size by {
        lemma_mini_sector_range(body.len() as int, sec_size, short_sec_size, root_chain, chain[i]);
    }
}

/// A stream being read, as a mathematical value.
pub ghost struct EntrySliceView {
    /// Size of each chunk: the sector size, or the mini sector size.
    pub chunk_size: nat,
    /// The chunks of the stream, in order, each a whole sector or mini sector.
    pub chunks: Seq<Seq<u8>>,
    /// How many bytes were read so far.
    pub position: nat,
    /// Size of the stream in bytes.
    pub len: nat,
}

impl EntrySliceView {
    /// The sum of the sizes of the chunks.
    pub open spec fn real_len(self) -> nat {
        self.chunks.len() * self.chunk_size
    }

    /// The byte of the chunks that stands at `offset`, counted over all chunks.
    pub open spec fn byte_at(self, offset: int) -> u8 {
        self.chunks[offset / self.chunk_size as int][offset % self.chunk_size as int]
    }

    /// The bytes of the stream: the first `len` bytes of the chunks.
    pub open spec fn content(self) -> Seq<u8> {
        Seq::new(self.len, |offset: int| self.byte_at(offset))
    }

    /// How many bytes are still to be read.
    pub open spec fn remaining(self) -> nat {
        (self.len - self.position) as nat
    }

    /// How many bytes a read into a buffer of `room` bytes copies: `room`,
    /// or what is still to be read where that is less.
    pub open spec fn read_count(self, room: nat) -> nat {
        if room <= self.remaining() {
            room
        } else {
            self.remaining()
        }
    }

    /// The stream after a read into a buffer of `room` bytes.
    pub open spec fn after_read(self, room: nat) -> EntrySliceView {
        EntrySliceView { position: self.position + self.read_count(room), ..self }
    }

    /// The stream after reads into buffers of `rooms` bytes, one after the other.
    pub open spec fn after_reads(self, rooms: Seq<nat>) -> EntrySliceView
        decreases rooms.len(),
    {
        if rooms.len() == 0 {
            self
        } else {
            self.after_reads(rooms.drop_last()).after_read(rooms.last())
        }
    }

    /// Whether the chunks are whole and have room for the stream, and the
    /// position is inside it.
    pub open spec fn wf(self) -> bool {
        &&& forall|i: int|
            0 <= i < self.chunks.len() ==> (#[trigger] self.chunks[i]).len() == self.chunk_size
        &&& self.real_len() >= self.len
        &&& self.position <= self.len
    }
}

/// The sum of `rooms`.
pub open spec fn total_room(rooms: Seq<nat>) -> nat
    decreases rooms.len(),
{
    if rooms.len() == 0 {
        0
    } else {
        total_room(rooms.drop_last()) + rooms.last()
    }
}

/// Reads, one after the other, copy as many bytes as the buffers have room
/// for together, or what was still to be read where that is less. The
/// stream stays well formed, and nothing but its position changes.
pub proof fn lemma_reads_add_up(stream: EntrySliceView, rooms: Seq<nat>)
    requires
        stream.wf(),
    ensures
        stream.after_reads(rooms).wf(),
        stream.after_reads(rooms) == (EntrySliceView {
            position: stream.after_reads(rooms).position,
            ..stream
        }),
        stream.after_reads(rooms).position - stream.position == if total_room(rooms)
            <= stream.remaining() {
            total_room(rooms)
        } else {
            stream.remaining()
        },
    decreases rooms.len(),
{
    if rooms.len() > 0 {
        lemma_reads_add_up(stream, rooms.drop_last());
    }
}

/// Reads into buffers that together have room for the stream read it to
/// its end: they copy exactly the bytes that were still to be read, and
/// every read after them copies nothing.
pub proof fn lemma_reads_exhaust(stream: EntrySliceView, rooms: Seq<nat>, room: nat)
    requires
        stream.wf(),
        total_room(rooms) >= stream.remaining(),
    ensures
        stream.after_reads(rooms).position == stream.len,
        stream.after_reads(rooms).read_count(room) == 0,
        stream.after_reads(rooms).after_read(room) == stream.after_reads(rooms),
{
    lemma_reads_add_up(stream, rooms);
}

/// The bytes of two reads in a row are the bytes of the stream between the
/// position before the first and the position after the second.
pub proof fn lemma_reads_are_consecutive(stream: EntrySliceView, first: nat, second: nat)
    requires
        stream.wf(),
    ensures
        stream.content().subrange(
            stream.position as int,
            stream.after_read(first).position as int,
        ) + stream.content().subrange(
            stream.after_read(first).position as int,
            stream.after_read(first).after_read(second).position as int,
        ) =~= stream.content().subrange(
            stream.position as int,
            stream.after_read(first).after_read(second).position as int,
        ),
{
}

/// The content of a stream is its chunks one after the other, in their
/// order: byte `within` of chunk `index` stands at `index` times the chunk
/// size plus `within`.
pub proof fn lemma_content_follows_chunks(stream: EntrySliceView, index: int, within: int)
    requires
        stream.wf(),
        0 <= index,
        0 <= within < stream.chunk_size,
        index * stream.chunk_size + within < stream.len,
    ensures
        index < stream.chunks.len(),
        stream.content()[index * stream.chunk_size + within] == stream.chunks[index][within],
{
    let size = stream.chunk_size as int;
    let at = index * size + within;
    lemma_fundamental_div_mod_converse_div(at, size, index, within);
    lemma_fundamental_div_mod_converse_mod(at, size, index, within);
    assert(index < stream.chunks.len()) by (nonlinear_arith)
        requires
            index * size + within < stream.chunks.len() * size,
            0 <= within,
            0 < size,
    ;
}

/// The content of a stream that lies in the sectors `chain` is the bytes of
/// those sectors in the order of the chain, whatever their order in the
/// file: byte `within` of the sector at place `index` of the chain.
pub proof fn lemma_content_lies_in_sectors(
    body: Seq<u8>,
    sec_size: int,
    chain: Seq<u32>,
    size: int,
    index: int,
    within: int,
)
    requires
        stream_fault(body.len() as int, sec_size, chain, size) is None,
        0 <= size,
        0 <= index,
        0 <= within < sec_size,
        index * sec_size + within < size,
    ensures
        index < chain.len(),
        (EntrySliceView {
            chunk_size: sec_size as nat,
            chunks: sector_chunks(body, sec_size, chain),
            position: 0,
            len: size as nat,
        }).content()[index * sec_size + within] == body[sector_offset(
            sec_size,
            chain[index] as int,
        ) + within],
{
    let stream = EntrySliceView {
        chunk_size: sec_size as nat,
        chunks: sector_chunks(body, sec_size, chain),
        position: 0,
        len: size as nat,
    };
    lemma_sectors_are_whole(body, sec_size, chain);
    lemma_content_follows_chunks(stream, index, within);
    lemma_sector_range(body.len() as int, sec_size, chain[index] as int);
}

/// The content of a stream that lies in the mini sectors `chain` is the
/// bytes of those mini sectors in the order of the chain, and each of them
/// lies in a sector of the chain of the root storage.
pub proof fn lemma_content_lies_in_mini_sectors(
    body: Seq<u8>,
    sec_size: int,
    short_sec_size: int,
    root_chain: Seq<u32>,
    chain: Seq<u32>,
    size: int,
    index: int,
    within: int,
)
    requires
        short_stream_fault(body.len() as int, sec_size, short_sec_size, root_chain, chain, size)
            is None,
        0 <= sec_size,
        0 <= size,
        0 <= index,
        0 <= within < short_sec_size,
        index * short_sec_size + within < size,
    ensures
        index < chain.len(),
        mini_sector_located(body.len() as int, sec_size, short_sec_size, root_chain, chain[index]),
        (EntrySliceView {
            chunk_size: short_sec_size as nat,
            chunks: mini_sector_chunks(body, sec_size, short_sec_size, root_chain, chain),
            position: 0,
            len: size as nat,
        }).content()[index * short_sec_size + within] == body[mini_sector_offset(
            sec_size,
            short_sec_size,
            root_chain,
            chain[index],
        ) + within],
{
    let stream = EntrySliceView {
        chunk_size: short_sec_size as nat,
        chunks: mini_sector_chunks(body, sec_size, short_sec_size, root_chain, chain),
        position: 0,
        len: size as nat,
    };
    lemma_mini_sectors_are_whole(body, sec_size, short_sec_size, root_chain, chain);
    lemma_content_follows_chunks(stream, index, within);
    lemma_mini_sector_range(body.len() as int, sec_size, short_sec_size, root_chain, chain[index]);
}

/// The chunks of a well-formed stream hold at least as many bytes as the
/// stream has.
pub proof fn lemma_real_len_covers(stream: EntrySliceView)
    requires
        stream.wf(),
    ensures
        stream.real_len() >= stream.len,
{
}

/// Slice of the content of an entry.
///
/// This is not an ordinary slice: a stream lies in the sectors of its
/// chain, which may be anywhere in the file. The slice reads them as one
/// run of bytes.
#[derive(Debug)]
pub struct EntrySlice<'s> {
    /// Chunk size, i.e. size of the sector.
    max_chunk_size: usize,
    /// List of slices.
    chunks: Vec<&'s [u8]>,
    /// How many bytes which have been already read.
    read: usize,
    /// Total size of slice.
    total_size: usize,
    /// Real size of all chunks.
    real_size: usize,
}

impl<'s> View for EntrySlice<'s> {
    type V = EntrySliceView;

    closed spec fn view(&self) -> EntrySliceView {
        EntrySliceView {
            chunk_size: self.max_chunk_size as nat,
            chunks: Seq::new(self.chunks@.len(), |i: int| self.chunks@[i]@),
            position: self.read as nat,
            len: self.total_size as nat,
        }
    }
}

impl<'s> EntrySlice<'s> {
    /// Whether the fields agree with each other, whatever the chunks have room for.
    pub closed spec fn chunks_whole(&self) -> bool {
        &&& forall|i: int|
            0 <= i < self.chunks@.len() ==> (#[trigger] self.chunks@[i])@.len()
                == self.max_chunk_size
        &&& self.real_size == self.chunks@.len() * self.max_chunk_size
        &&& self.read <= self.total_size
    }

    /// Whether the slice is one that `get_entry_slice` returns: whole chunks
    /// with room for the stream.
    pub closed spec fn wf(&self) -> bool {
        &&& self.chunks_whole()
        &&& self.real_size >= self.total_size
    }

    /// A slice that is well formed has a view that is.
    pub proof fn lemma_wf_view(&self)
        requires
            self.wf(),
        ensures
            self@.wf(),
    {
    }

    /// A slice of `size` bytes in chunks of `max_chunk_size` bytes, without
    /// chunks yet.
    pub(crate) fn new(max_chunk_size: usize, size: usize) -> (slice: EntrySlice<'s>)
        ensures
            slice.chunks_whole(),
            slice@ == (EntrySliceView {
                chunk_size: max_chunk_size as nat,
                chunks: Seq::empty(),
                position: 0,
                len: size as nat,
            }),
    {
        let slice = EntrySlice {
            max_chunk_size,
            chunks: Vec::new(),
            read: 0usize,
            total_size: size,
            real_size: 0,
        };
        assert(slice@.chunks =~= Seq::<Seq<u8>>::empty());
        slice
    }

    /// Adds `chunk` behind the chunks of the slice.
    pub(crate) fn add_chunk(&mut self, chunk: &'s [u8])
        requires
            old(self).chunks_whole(),
            chunk@.len() == old(self)@.chunk_size,
            old(self)@.real_len() + chunk@.len() <= usize::MAX,
        ensures
            final(self).chunks_whole(),
            final(self)@ == (EntrySliceView {
                chunks: old(self)@.chunks.push(chunk@),
                ..old(self)@
            }),
    {
        assert((self.chunks@.len() + 1) * self.max_chunk_size == self.chunks@.len()
            * self.max_chunk_size + self.max_chunk_size) by (nonlinear_arith);
        self.real_size = self.real_size + chunk.len();
        self.chunks.push(chunk);
        assert(self@.chunks =~= old(self)@.chunks.push(chunk@));
    }

    /// Returns the length of the slice, therefore the length of the entry.
    pub fn len(&self) -> (r: usize)
        ensures
            r == self@.len,
    {
        self.total_size
    }

    /// Returns whether the entry holds no bytes.
    pub fn is_empty(&self) -> (r: bool)
        ensures
            r == (self@.len == 0),
    {
        self.total_size == 0
    }

    /// Returns the real length of all chunks: the sum of their sizes. It is
    /// never less than the length of the entry, and more where the last
    /// chunk is not filled.
    pub fn real_len(&self) -> (r: usize)
        requires
            self.wf(),
        ensures
            r == self@.real_len(),
            r >= self@.len,
    {
        self.real_size
    }

    /// Copies the next bytes of the stream to the start of `buf`: as many
    /// as `buf` has room for, or the rest of the stream where that is less.
    /// Returns how many bytes were copied, 0 once the stream is read to its
    /// end. What follows them in `buf` is left as it was.
    pub fn read(&mut self, buf: &mut [u8]) -> (count: usize)
        requires
            old(self).wf(),
        ensures
            final(self).wf(),
            count == old(self)@.read_count(old(buf)@.len()),
            final(self)@ == old(self)@.after_read(old(buf)@.len()),
            final(buf)@.len() == old(buf)@.len(),
            final(buf)@.subrange(0, count as int) == old(self)@.content().subrange(
                old(self)@.position as int,
                old(self)@.position + count,
            ),
            final(buf)@.subrange(count as int, old(buf)@.len() as int) == old(buf)@.subrange(
                count as int,
                old(buf)@.len() as int,
            ),
    {
        let left: usize = self.total_size - self.read;
        let to_read: usize = if buf.len() <= left {
            buf.len()
        } else {
            left
        };
        let ghost start = self.read as int;
        let ghost whole = self@;
        let chunk_size = self.max_chunk_size;
        if to_read == 0 {
            return 0;
        }
        assert(chunk_size > 0) by (nonlinear_arith)
            requires
                self.chunks@.len() * chunk_size >= self.total_size,
                self.total_size > 0,
        ;
        let mut done: usize = 0;
        while done < to_read
            invariant
                self.wf(),
                0 <= done <= to_read,
                to_read <= buf@.len(),
                start + to_read <= self.total_size,
                self.read == start + done,
                chunk_size == self.max_chunk_size,
                chunk_size > 0,
                self@ == (EntrySliceView { position: (start + done) as nat, ..whole }),
                whole == old(self)@,
                whole.wf(),
                start == whole.position,
                buf@.len() == old(buf)@.len(),
                forall|k: int| 0 <= k < done ==> #[trigger] buf@[k] == whole.byte_at(start + k),
                forall|k: int| done <= k < buf@.len() ==> #[trigger] buf@[k] == old(buf)@[k],
            decreases to_read - done,
        {
            let offset: usize = self.read;
            let chunk_index: usize = offset / chunk_size;
            let local: usize = offset % chunk_size;
            proof {
                assert(offset < chunk_size * self.chunks@.len()) by (nonlinear_arith)
                    requires
                        offset < self.chunks@.len() * chunk_size,
                ;
                lemma_multiply_divide_lt(
                    offset as int,
                    chunk_size as int,
                    self.chunks@.len() as int,
                );
                lemma_mod_bound(offset as int, chunk_size as int);
            }
            let chunk: &[u8] = self.chunks[chunk_index];
            let room: usize = chunk_size - local;
            let wanted: usize = to_read - done;
            let end: usize = if wanted <= room {
                local + wanted
            } else {
                chunk_size
            };
            let ghost base = offset - local;
            proof {
                assert(offset == chunk_size * (offset as int / chunk_size as int) + offset
                    % chunk_size) by {
                    lemma_fundamental_div_mod(
                        offset as int,
                        chunk_size as int,
                    );
                }
                assert(base == chunk_index * chunk_size) by (nonlinear_arith)
                    requires
                        base == offset - local,
                        offset == chunk_size * chunk_index + local,
                ;
            }
            let ghost first = done as int;
            let mut j: usize = local;
            while j < end
                invariant
                    self.wf(),
                    local <= j <= end <= chunk_size,
                    0 < chunk_size,
                    end - local <= to_read - first,
                    done == first + (j - local),
                    done <= to_read,
                    to_read <= buf@.len(),
                    start + to_read <= self.total_size,
                    self.read == start + done,
                    chunk_size == self.max_chunk_size,
                    self@ == (EntrySliceView { position: (start + done) as nat, ..whole }),
                    whole.wf(),
                    start == whole.position,
                    chunk@ == whole.chunks[chunk_index as int],
                    chunk@.len() == chunk_size,
                    base == chunk_index * chunk_size,
                    base + local == start + first,
                    buf@.len() == old(buf)@.len(),
                    forall|k: int| 0 <= k < done ==> #[trigger] buf@[k] == whole.byte_at(start + k),
                    forall|k: int| done <= k < buf@.len() ==> #[trigger] buf@[k] == old(buf)@[k],
                decreases end - j,
            {
                proof {
                    lemma_fundamental_div_mod_converse_div(
                        base + j,
                        chunk_size as int,
                        chunk_index as int,
                        j as int,
                    );
                    lemma_fundamental_div_mod_converse_mod(
                        base + j,
                        chunk_size as int,
                        chunk_index as int,
                        j as int,
                    );
                }
                buf[done] = chunk[j];
                done = done + 1;
                self.read = self.read + 1;
                j = j + 1;
            }
        }
        done
    }
}

} // verus!

verus! {

/// The stream of `size` bytes that lies in the sectors `chain` of `body`.
/// Fails with `BadSizeValue` where `stream_fault` finds a fault.
#[verifier::loop_isolation(false)]
pub fn get_stream_slices<'a>(body: &'a [u8], sec_size: usize, chain: &Vec<u32>, size: usize) -> (r:
    Result<EntrySlice<'a>, Error>)
    ensures
        match r {
            Ok(slice) => stream_fault(body@.len() as int, sec_size as int, chain@, size as int)
                is None && slice.wf() && slice@ == (EntrySliceView {
                chunk_size: sec_size as nat,
                chunks: sector_chunks(body@, sec_size as int, chain@),
                position: 0,
                len: size as nat,
            }),
            Err(e) => stream_fault(body@.len() as int, sec_size as int, chain@, size as int)
                == Some(e),
        },
{
    let pieces: usize = chain.len();
    assert(pieces * sec_size <= 0xFFFF_FFFF_FFFF_FFFF * 0xFFFF_FFFF_FFFF_FFFF) by (nonlinear_arith)
        requires
            pieces <= 0xFFFF_FFFF_FFFF_FFFF,
            sec_size <= 0xFFFF_FFFF_FFFF_FFFF,
    ;
    let room: u128 = pieces as u128 * sec_size as u128;
    if room > usize::MAX as u128 {
        return Err(Error::BadSizeValue("Stream is too large"));
    }
    if room < size as u128 {
        return Err(Error::BadSizeValue("Stream is longer than its chain"));
    }
    let mut slice = EntrySlice::new(sec_size, size);
    assert(sector_chunks(body@, sec_size as int, chain@.take(0)) =~= Seq::<Seq<u8>>::empty());
    let mut i: usize = 0;
    while i < pieces
        invariant
            0 <= i <= pieces,
            pieces == chain@.len(),
            pieces * sec_size <= usize::MAX,
            slice.chunks_whole(),
            all_in_bounds(body@.len() as int, sec_size as int, chain@.take(i as int)),
            slice@ == (EntrySliceView {
                chunk_size: sec_size as nat,
                chunks: sector_chunks(body@, sec_size as int, chain@.take(i as int)),
                position: 0,
                len: size as nat,
            }),
        decreases pieces - i,
    {
        let sector = match read_sector(body, sec_size, chain[i]) {
            Ok(sector) => sector,
            Err(e) => {
                return Err(e);
            },
        };
        proof {
            lemma_sector_range(body@.len() as int, sec_size as int, chain@[i as int] as int);
            assert((i + 1) * sec_size <= pieces * sec_size) by (nonlinear_arith)
                requires
                    i + 1 <= pieces,
                    0 <= sec_size,
            ;
            assert((i + 1) * sec_size == i * sec_size + sec_size) by (nonlinear_arith);
        }
        slice.add_chunk(sector);
        proof {
            let before = chain@.take(i as int);
            let after = chain@.take(i + 1);
            assert(sector_chunks(body@, sec_size as int, after) =~= sector_chunks(
                body@,
                sec_size as int,
                before,
            ).push(sector@));
            assert forall|j: int| 0 <= j < after.len() implies sector_in_bounds(
                body@.len() as int,
                sec_size as int,
                #[trigger] after[j] as int,
            ) by {}
        }
        i = i + 1;
    }
    proof {
        assert(chain@.take(pieces as int) =~= chain@);
        assert(slice@.chunks.len() == pieces);
    }
    Ok(slice)
}

/// The stream of `size` bytes that lies in the mini sectors `chain`. The
/// mini sectors are pieces of `short_sec_size` bytes of the sectors
/// `root_chain`, the chain of the root storage. Fails with `BadSizeValue`
/// where `short_stream_fault` finds a fault.
#[verifier::loop_isolation(false)]
pub fn get_short_stream_slices<'a>(
    body: &'a [u8],
    sec_size: usize,
    short_sec_size: usize,
    root_chain: &Vec<u32>,
    chain: &Vec<u32>,
    size: usize,
) -> (r: Result<EntrySlice<'a>, Error>)
    ensures
        match r {
            Ok(slice) => short_stream_fault(
                body@.len() as int,
                sec_size as int,
                short_sec_size as int,
                root_chain@,
                chain@,
                size as int,
            ) is None && slice.wf() && slice@ == (EntrySliceView {
                chunk_size: short_sec_size as nat,
                chunks: mini_sector_chunks(
                    body@,
                    sec_size as int,
                    short_sec_size as int,
                    root_chain@,
                    chain@,
                ),
                position: 0,
                len: size as nat,
            }),
            Err(e) => short_stream_fault(
                body@.len() as int,
                sec_size as int,
                short_sec_size as int,
                root_chain@,
                chain@,
                size as int,
            ) == Some(e),
        },
{
    let pieces: usize = chain.len();
    assert(pieces * short_sec_size <= 0xFFFF_FFFF_FFFF_FFFF * 0xFFFF_FFFF_FFFF_FFFF)
        by (nonlinear_arith)
        requires
            pieces <= 0xFFFF_FFFF_FFFF_FFFF,
            short_sec_size <= 0xFFFF_FFFF_FFFF_FFFF,
    ;
    let room: u128 = pieces as u128 * short_sec_size as u128;
    if room > usize::MAX as u128 {
        return Err(Error::BadSizeValue("Stream is too large"));
    }
    if room < size as u128 {
        return Err(Error::BadSizeValue("Stream is longer than its chain"));
    }
    let per: usize = if short_sec_size > 0 {
        sec_size / short_sec_size
    } else {
        0
    };
    let mut slice = EntrySlice::new(short_sec_size, size);
    assert(mini_sector_chunks(
        body@,
        sec_size as int,
        short_sec_size as int,
        root_chain@,
        chain@.take(0),
    ) =~= Seq::<Seq<u8>>::empty());
    let mut i: usize = 0;
    while i < pieces
        invariant
            0 <= i <= pieces,
            pieces == chain@.len(),
            pieces * short_sec_size <= usize::MAX,
            per == minis_per_sector(sec_size as int, short_sec_size as int),
            slice.chunks_whole(),
            all_located(
                body@.len() as int,
                sec_size as int,
                short_sec_size as int,
                root_chain@,
                chain@.take(i as int),
            ),
            slice@ == (EntrySliceView {
                chunk_size: short_sec_size as nat,
                chunks: mini_sector_chunks(
                    body@,
                    sec_size as int,
                    short_sec_size as int,
                    root_chain@,
                    chain@.take(i as int),
                ),
                position: 0,
                len: size as nat,
            }),
        decreases pieces - i,
    {
        let mini_id: u32 = chain[i];
        if per == 0 {
            return Err(Error::BadSizeValue("Mini stream is too short"));
        }
        let place: usize = mini_id as usize / per;
        if place >= root_chain.len() {
            return Err(Error::BadSizeValue("Mini stream is too short"));
        }
        let sector = match read_sector(body, sec_size, root_chain[place]) {
            Ok(sector) => sector,
            Err(_) => {
                return Err(Error::BadSizeValue("Mini stream is too short"));
            },
        };
        let within: usize = mini_id as usize % per;
        proof {
            let holder = root_chain@[place as int];
            lemma_sector_range(body@.len() as int, sec_size as int, holder as int);
            lemma_mod_bound(mini_id as int, per as int);
            lemma_fundamental_div_mod(
                sec_size as int,
                short_sec_size as int,
            );
            assert((within + 1) * short_sec_size <= per * short_sec_size) by (nonlinear_arith)
                requires
                    within + 1 <= per,
                    0 <= short_sec_size,
            ;
            assert((within + 1) * short_sec_size == within * short_sec_size + short_sec_size)
                by (nonlinear_arith);
            assert(per * short_sec_size == short_sec_size * per) by (nonlinear_arith);
            assert(within * short_sec_size == short_sec_size * within) by (nonlinear_arith);
            assert((i + 1) * short_sec_size <= pieces * short_sec_size) by (nonlinear_arith)
                requires
                    i + 1 <= pieces,
                    0 <= short_sec_size,
            ;
            assert((i + 1) * short_sec_size == i * short_sec_size + short_sec_size)
                by (nonlinear_arith);
        }
        let start: usize = within * short_sec_size;
        let chunk = slice_subrange(sector, start, start + short_sec_size);
        proof {
            assert(chunk@ =~= mini_sector_bytes(
                body@,
                sec_size as int,
                short_sec_size as int,
                root_chain@,
                mini_id,
            ));
        }
        slice.add_chunk(chunk);
        proof {
            let before = chain@.take(i as int);
            let after = chain@.take(i + 1);
            assert(mini_sector_chunks(
                body@,
                sec_size as int,
                short_sec_size as int,
                root_chain@,
                after,
            ) =~= mini_sector_chunks(
                body@,
                sec_size as int,
                short_sec_size as int,
                root_chain@,
                before,
            ).push(chunk@));
            assert forall|j: int| 0 <= j < after.len() implies mini_sector_located(
                body@.len() as int,
                sec_size as int,
                short_sec_size as int,
                root_chain@,
                #[trigger] after[j],
            ) by {}
        }
        i = i + 1;
    }
    proof {
        assert(chain@.take(pieces as int) =~= chain@);
        assert(slice@.chunks.len() == pieces);
    }
    Ok(slice)
}

} // verus!
