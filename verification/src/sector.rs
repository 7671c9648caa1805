//! Sectors: the fixed-size blocks that follow the header.

use vstd::prelude::*;
use vstd::slice::slice_subrange;
use crate::error::Error;

verus! {

/// Offset in the file of the first byte of sector `index`. Sector 0 starts
/// one sector size into the file: the header takes the room of a sector.
pub open spec fn sector_offset(sec_size: int, index: int) -> int {
    sec_size * (index + 1)
}

/// Whether sector `index` lies wholly inside a file of `body_len` bytes.
pub open spec fn sector_in_bounds(body_len: int, sec_size: int, index: int) -> bool {
    sec_size * (index + 2) <= body_len
}

/// The bytes of sector `index`.
pub open spec fn sector_bytes(body: Seq<u8>, sec_size: int, index: int) -> Seq<u8> {
    body.subrange(sector_offset(sec_size, index), sector_offset(sec_size, index) + sec_size)
}

/// A sector inside the file starts and ends inside it.
pub proof fn lemma_sector_range(body_len: int, sec_size: int, index: int)
    requires
        0 <= sec_size,
        0 <= index,
        sector_in_bounds(body_len, sec_size, index),
    ensures
        0 <= sector_offset(sec_size, index),
        sector_offset(sec_size, index) + sec_size <= body_len,
        sec_size * index <= sector_offset(sec_size, index),
{
    assert(sec_size * (index + 1) + sec_size == sec_size * (index + 2)) by (nonlinear_arith);
    assert(sec_size * (index + 1) == sec_size * index + sec_size) by (nonlinear_arith);
    assert(sec_size * index >= 0) by (nonlinear_arith)
        requires
            0 <= sec_size,
            0 <= index,
    ;
}

/// Returns sector `sector_index` of `body`, or `BadSizeValue` when the file
/// ends before the end of that sector.
pub fn read_sector<'a>(body: &'a [u8], sec_size: usize, sector_index: u32) -> (r: Result<
    &'a [u8],
    Error,
>)
    ensures
        match r {
            Ok(sector) => sector_in_bounds(body@.len() as int, sec_size as int, sector_index as int)
                && sector@ == sector_bytes(body@, sec_size as int, sector_index as int),
            Err(e) => !sector_in_bounds(body@.len() as int, sec_size as int, sector_index as int)
                && e == Error::BadSizeValue("File is too short"),
        },
{
    let wide_size: u128 = sec_size as u128;
    let count: u128 = sector_index as u128 + 2;
    assert(wide_size * count <= 0x1_0000_0000_0000_0000 * 0x1_0000_0002) by (nonlinear_arith)
        requires
            wide_size <= 0x1_0000_0000_0000_0000,
            count <= 0x1_0000_0002,
    ;
    let end: u128 = wide_size * count;
    if end <= body.len() as u128 {
        assert(sec_size * (sector_index + 1) + sec_size == sec_size * (sector_index + 2))
            by (nonlinear_arith);
        assert(sec_size * (sector_index + 1) >= 0) by (nonlinear_arith);
        let stop: usize = end as usize;
        let start: usize = stop - sec_size;
        Ok(slice_subrange(body, start, stop))
    } else {
        Err(Error::BadSizeValue("File is too short"))
    }
}

} // verus!
