//! Fixed sizes and reserved values of the container format.

use vstd::prelude::*;

verus! {

/// Size in bytes of the header block at the start of the file.
pub const HEADER_SIZE: usize = 512;

/// Size in bytes of the unique identifier stored in the header.
pub const UID_SIZE: usize = 16;

/// Sector id of a slot that is not in use. Also the null link of directory records.
pub const FREE_SECID_U32: u32 = 0xFFFF_FFFF;

/// Sector id that ends a chain.
pub const END_OF_CHAIN_SECID_U32: u32 = 0xFFFF_FFFE;

/// Sector id of a sector that holds part of the allocation table.
pub const CONTAINS_FAT_SECTORS: u32 = 0xFFFF_FFFD;

/// Sector id of a sector that holds part of the table of allocation-table sectors.
pub const CONTAINS_DIFAT_SECTORS: u32 = 0xFFFF_FFFC;

/// Largest sector id that names a sector.
pub const SECID_MAX: u32 = 0xFFFF_FFF9;

/// Size in bytes of one entry of an allocation table.
pub const U32_SIZE: usize = 4;

/// Size in bytes of one directory record.
pub const DIRECTORY_ENTRY_SIZE: usize = 128;

/// Number of allocation-table sector ids stored in the header itself.
pub const HEADER_DIFAT_ENTRIES: usize = 109;

/// Offset in the header of the first of those ids.
pub const HEADER_DIFAT_OFFSET: usize = 76;

/// Smallest threshold a header may declare between mini streams and regular streams.
pub const MINIMUM_STREAM_THRESHOLD: u32 = 4096;

/// The eight bytes every container starts with.
pub const IDENTIFIER: [u8; 8] = [0xD0, 0xCF, 0x11, 0xE0, 0xA1, 0xB1, 0x1A, 0xE1];

/// The byte order mark of a little-endian container.
pub const LITTLE_ENDIAN_IDENTIFIER: [u8; 2] = [0xFE, 0xFF];

/// The byte order mark of a big-endian container.
pub const BIG_ENDIAN_IDENTIFIER: [u8; 2] = [0xFF, 0xFE];

/// The bytes of the free marker.
pub const FREE_SECID: [u8; 4] = [0xFF, 0xFF, 0xFF, 0xFF];

/// The signature as a sequence of bytes.
pub open spec fn identifier() -> Seq<u8> {
    IDENTIFIER@
}

} // verus!
