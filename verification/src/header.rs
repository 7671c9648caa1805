//! The header: the first 512 bytes of a container.
//!
//! | offset | size | field                                   |
//! |--------|------|-----------------------------------------|
//! | 0      | 8    | signature                               |
//! | 8      | 16   | unique identifier                       |
//! | 24     | 2    | revision number                         |
//! | 26     | 2    | version number                          |
//! | 28     | 2    | byte order mark                         |
//! | 30     | 2    | sector size, as a power of two          |
//! | 32     | 2    | mini sector size, as a power of two     |
//! | 44     | 4    | number of allocation-table sectors      |
//! | 48     | 4    | first sector of the directory           |
//! | 56     | 4    | size below which a stream is a mini stream |
//! | 60     | 4    | first sector of the mini allocation table |
//! | 64     | 4    | number of mini allocation-table sectors |
//! | 68     | 4    | first sector of the DIFAT chain         |
//! | 72     | 4    | number of DIFAT sectors                 |
//! | 76     | 436  | the first 109 allocation-table sector ids |
//!
//! All integers are little-endian.

use vstd::prelude::*;
use vstd::arithmetic::power2::lemma2_to64;
use vstd::arithmetic::power2::lemma_pow2_strictly_increases;
use vstd::arithmetic::power2::lemma_pow2_unfold;
use vstd::arithmetic::power2::pow2;
use crate::constants::HEADER_SIZE;
use crate::constants::IDENTIFIER;
use crate::constants::MINIMUM_STREAM_THRESHOLD;
use crate::constants::identifier;
use crate::error::Error;
use crate::util::le_u16;
use crate::util::le_u32;
use crate::util::read_u16;
use crate::util::read_u32;

verus! {

/// What the header says about the container.
#[derive(Debug, Clone, Copy, PartialEq, Eq)]
pub struct Header {
    /// Unique identifier of the container.
    pub uid: [u8; 16],
    /// Revision number.
    pub revision_number: u16,
    /// Version number.
    pub version_number: u16,
    /// Size of one sector in bytes.
    pub sec_size: usize,
    /// Size of one mini sector in bytes.
    pub short_sec_size: usize,
    /// Number of sectors that hold the allocation table.
    pub fat_sector_count: u32,
    /// First sector of the directory.
    pub directory_start: u32,
    /// Size in bytes from which a stream is stored in regular sectors.
    pub minimum_standard_stream_size: usize,
    /// First sector of the mini allocation table.
    pub mini_fat_start: u32,
    /// Number of sectors that hold the mini allocation table.
    pub mini_fat_count: u32,
    /// First sector of the DIFAT chain.
    pub difat_start: u32,
    /// Number of sectors in the DIFAT chain.
    pub difat_count: u32,
}

/// Whether `number`, a revision or a version number, fixes the sector sizes.
pub open spec fn fixes_sizes(number: int) -> bool {
    number == 3 || number == 4
}

/// The sector shift that `number`, a revision or a version number, allows.
pub open spec fn allows_sector_shift(number: int, shift: int) -> bool {
    &&& number == 3 ==> shift == 9
    &&& number == 4 ==> shift == 12
}

/// The first fault in the two size fields, if there is one. Sizes are powers
/// of two below 2^16. Revision or version 3 means sectors of 512 bytes,
/// 4 means sectors of 4096 bytes, and both mean mini sectors of 64 bytes.
pub open spec fn size_fault(revision: int, version: int, shift: int, mini_shift: int) -> Option<
    Error,
> {
    if shift >= 16 {
        Some(Error::BadSizeValue("Overflow on sector size"))
    } else if !allows_sector_shift(revision, shift) || !allows_sector_shift(version, shift) {
        Some(Error::BadSizeValue("Wrong Sector size!"))
    } else if mini_shift >= 16 {
        Some(Error::BadSizeValue("Overflow on short sector size"))
    } else if (fixes_sizes(revision) || fixes_sizes(version)) && mini_shift != 6 {
        Some(Error::BadSizeValue("Wrong Mini Sector size!"))
    } else {
        None
    }
}

/// The first fault in a header, if there is one. The checks come in this
/// order: length, signature, byte order, sector sizes, stream threshold.
pub open spec fn header_fault(data: Seq<u8>) -> Option<Error> {
    if data.len() < HEADER_SIZE {
        Some(Error::BadSizeValue("File is too short"))
    } else if data.subrange(0, 8) != identifier() {
        Some(Error::InvalidFormat)
    } else if data[28] == 0xFF && data[29] == 0xFE {
        Some(Error::Unsupported)
    } else if !(data[28] == 0xFE && data[29] == 0xFF) {
        Some(Error::InvalidFormat)
    } else if size_fault(le_u16(data, 24), le_u16(data, 26), le_u16(data, 30), le_u16(data, 32))
        is Some {
        size_fault(le_u16(data, 24), le_u16(data, 26), le_u16(data, 30), le_u16(data, 32))
    } else if le_u32(data, 56) < MINIMUM_STREAM_THRESHOLD {
        Some(Error::InvalidFormat)
    } else {
        None
    }
}

/// Whether `header` holds the fields of `data`, a buffer of at least 512 bytes.
pub open spec fn header_of(header: Header, data: Seq<u8>) -> bool {
    &&& header.uid@ == data.subrange(8, 24)
    &&& header.revision_number == le_u16(data, 24)
    &&& header.version_number == le_u16(data, 26)
    &&& header.sec_size == pow2(le_u16(data, 30) as nat)
    &&& header.short_sec_size == pow2(le_u16(data, 32) as nat)
    &&& header.fat_sector_count == le_u32(data, 44)
    &&& header.directory_start == le_u32(data, 48)
    &&& header.minimum_standard_stream_size == le_u32(data, 56)
    &&& header.mini_fat_start == le_u32(data, 60)
    &&& header.mini_fat_count == le_u32(data, 64)
    &&& header.difat_start == le_u32(data, 68)
    &&& header.difat_count == le_u32(data, 72)
}

/// The header that `data` holds, where `data` has at least 512 bytes.
pub open spec fn header_fields(data: Seq<u8>) -> Header {
    choose|header: Header| header_of(header, data)
}

/// No two headers hold the fields of the same bytes.
pub proof fn lemma_header_unique(a: Header, b: Header, data: Seq<u8>)
    requires
        header_of(a, data),
        header_of(b, data),
    ensures
        a == b,
        header_fields(data) == a,
{
    assert(a.uid =~= b.uid);
    let c = header_fields(data);
    assert(c.uid =~= a.uid);
}

impl Header {
    /// What every header that `parse_header` returns satisfies.
    pub open spec fn wf(self) -> bool {
        &&& exists|k: nat| k < 16 && self.sec_size == #[trigger] pow2(k)
        &&& exists|k: nat| k < 16 && self.short_sec_size == #[trigger] pow2(k)
        &&& 0 < self.sec_size <= 0x8000
        &&& 0 < self.short_sec_size <= 0x8000
        &&& self.minimum_standard_stream_size >= MINIMUM_STREAM_THRESHOLD
        &&& fixes_sizes(self.revision_number as int) || fixes_sizes(self.version_number as int)
            ==> self.short_sec_size == 64
        &&& self.revision_number == 3 || self.version_number == 3 ==> self.sec_size == 512
        &&& self.revision_number == 4 || self.version_number == 4 ==> self.sec_size == 4096
    }
}

/// Two to the power `shift`.
fn size_of_shift(shift: u16) -> (size: usize)
    requires
        shift < 16,
    ensures
        size == pow2(shift as nat),
        0 < size <= 0x8000,
{
    let mut size: usize = 1;
    let mut done: u16 = 0;
    proof {
        lemma2_to64();
    }
    while done < shift
        invariant
            done <= shift < 16,
            size == pow2(done as nat),
            pow2(15) == 0x8000,
            0 < size,
        decreases shift - done,
    {
        proof {
            lemma_pow2_unfold((done + 1) as nat);
            if done + 1 < 15 {
                lemma_pow2_strictly_increases((done + 1) as nat, 15);
            }
        }
        size = size * 2;
        done = done + 1;
    }
    proof {
        if shift < 15 {
            lemma_pow2_strictly_increases(shift as nat, 15);
        }
    }
    size
}

/// Whether `data` starts with the signature of a container.
fn starts_with_identifier(data: &[u8]) -> (found: bool)
    requires
        data.len() >= 8,
    ensures
        found == (data@.subrange(0, 8) == identifier()),
{
    let found = data[0] == IDENTIFIER[0] && data[1] == IDENTIFIER[1] && data[2] == IDENTIFIER[2]
        && data[3] == IDENTIFIER[3] && data[4] == IDENTIFIER[4] && data[5] == IDENTIFIER[5]
        && data[6] == IDENTIFIER[6] && data[7] == IDENTIFIER[7];
    proof {
        let head = data@.subrange(0, 8);
        if found {
            assert(head =~= identifier());
        }
    }
    found
}

/// Checks the two size fields against the revision and version numbers.
fn check_sizes(revision: u16, version: u16, shift: u16, mini_shift: u16) -> (r: Result<(), Error>)
    ensures
        match r {
            Ok(_) => size_fault(revision as int, version as int, shift as int, mini_shift as int)
                is None,
            Err(e) => size_fault(revision as int, version as int, shift as int, mini_shift as int)
                == Some(e),
        },
{
    if shift >= 16 {
        return Err(Error::BadSizeValue("Overflow on sector size"));
    }
    if (revision == 3 || version == 3) && shift != 9 {
        return Err(Error::BadSizeValue("Wrong Sector size!"));
    }
    if (revision == 4 || version == 4) && shift != 12 {
        return Err(Error::BadSizeValue("Wrong Sector size!"));
    }
    if mini_shift >= 16 {
        return Err(Error::BadSizeValue("Overflow on short sector size"));
    }
    if (revision == 3 || revision == 4 || version == 3 || version == 4) && mini_shift != 6 {
        return Err(Error::BadSizeValue("Wrong Mini Sector size!"));
    }
    Ok(())
}

/// Reads and checks the header at the start of `data`.
///
/// Fails with the first fault that `header_fault` finds: `BadSizeValue` for
/// a buffer shorter than a header or for a size field that is out of range
/// or contradicts the revision or version number, `InvalidFormat` for a
/// wrong signature, an unknown byte order mark or a stream threshold below
/// 4096, `Unsupported` for the big-endian byte order mark.
pub fn parse_header(data: &[u8]) -> (r: Result<Header, Error>)
    ensures
        match r {
            Ok(header) => header_fault(data@) is None && header_of(header, data@) && header
                == header_fields(data@) && header.wf(),
            Err(e) => header_fault(data@) == Some(e),
        },
{
    if data.len() < HEADER_SIZE {
        return Err(Error::BadSizeValue("File is too short"));
    }
    if !starts_with_identifier(data) {
        return Err(Error::InvalidFormat);
    }
    if data[28] == 0xFF && data[29] == 0xFE {
        return Err(Error::Unsupported);
    }
    if !(data[28] == 0xFE && data[29] == 0xFF) {
        return Err(Error::InvalidFormat);
    }
    let revision_number = read_u16(data, 24);
    let version_number = read_u16(data, 26);
    let shift = read_u16(data, 30);
    let mini_shift = read_u16(data, 32);
    match check_sizes(revision_number, version_number, shift, mini_shift) {
        Err(e) => {
            return Err(e);
        },
        Ok(_) => {},
    }
    let threshold = read_u32(data, 56);
    if threshold < MINIMUM_STREAM_THRESHOLD {
        return Err(Error::InvalidFormat);
    }
    let uid: [u8; 16] = [
        data[8],
        data[9],
        data[10],
        data[11],
        data[12],
        data[13],
        data[14],
        data[15],
        data[16],
        data[17],
        data[18],
        data[19],
        data[20],
        data[21],
        data[22],
        data[23],
    ];
    assert(uid@ =~= data@.subrange(8, 24));
    let header = Header {
        uid,
        revision_number,
        version_number,
        sec_size: size_of_shift(shift),
        short_sec_size: size_of_shift(mini_shift),
        fat_sector_count: read_u32(data, 44),
        directory_start: read_u32(data, 48),
        minimum_standard_stream_size: threshold as usize,
        mini_fat_start: read_u32(data, 60),
        mini_fat_count: read_u32(data, 64),
        difat_start: read_u32(data, 68),
        difat_count: read_u32(data, 72),
    };
    proof {
        lemma2_to64();
        lemma_header_unique(header, header, data@);
    }
    Ok(header)
}

/// A buffer of the length of a header whose first eight bytes are not the
/// signature is `InvalidFormat`, whatever the rest of it holds.
pub proof fn lemma_altered_signature_is_invalid(data: Seq<u8>)
    requires
        data.len() >= HEADER_SIZE,
        data.subrange(0, 8) != identifier(),
    ensures
        header_fault(data) == Some(Error::InvalidFormat),
{
}

/// A header with the signature and the big-endian byte order mark is
/// `Unsupported`, whatever the rest of it holds.
pub proof fn lemma_big_endian_is_unsupported(data: Seq<u8>)
    requires
        data.len() >= HEADER_SIZE,
        data.subrange(0, 8) == identifier(),
        data[28] == 0xFF,
        data[29] == 0xFE,
    ensures
        header_fault(data) == Some(Error::Unsupported),
{
}

/// A header without fault has sectors of 512 bytes where its revision or
/// version number is 3, of 4096 bytes where one of them is 4, and mini
/// sectors of 64 bytes in both cases.
pub proof fn lemma_sizes_follow_revision(data: Seq<u8>)
    requires
        header_fault(data) is None,
    ensures
        le_u16(data, 24) == 3 || le_u16(data, 26) == 3 ==> pow2(le_u16(data, 30) as nat) == 512,
        le_u16(data, 24) == 4 || le_u16(data, 26) == 4 ==> pow2(le_u16(data, 30) as nat) == 4096,
        fixes_sizes(le_u16(data, 24)) || fixes_sizes(le_u16(data, 26)) ==> pow2(
            le_u16(data, 32) as nat,
        ) == 64,
{
    lemma2_to64();
}

/// The name of the header field that starts at `offset`, for the fields
/// that a listing of the header names.
pub open spec fn field_label_at(offset: usize) -> Option<Seq<char>> {
    if offset == 0 {
        Some("SIGNATURE"@)
    } else if offset == 16 {
        Some("CLSID"@)
    } else if offset == 48 {
        Some("Dir Start Sector"@)
    } else if offset == 68 {
        Some("First DIFAT Sector Location"@)
    } else if offset == 72 {
        Some("Number of DIFAT"@)
    } else if offset == 76 {
        Some("DIFAT"@)
    } else {
        None
    }
}

/// Returns the name of the header field that starts at `offset`, if a
/// listing of the header names one there.
pub fn header_field_label(offset: usize) -> (label: Option<&'static str>)
    ensures
        match label {
            Some(text) => field_label_at(offset) == Some(text@),
            None => field_label_at(offset) is None,
        },
{
    if offset == 0 {
        Some("SIGNATURE")
    } else if offset == 16 {
        Some("CLSID")
    } else if offset == 48 {
        Some("Dir Start Sector")
    } else if offset == 68 {
        Some("First DIFAT Sector Location")
    } else if offset == 72 {
        Some("Number of DIFAT")
    } else if offset == 76 {
        Some("DIFAT")
    } else {
        None
    }
}

} // verus!
