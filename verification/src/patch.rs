//! Patch lumps: the sprite header and the column-offset table of the
//! run-length-encoded pixel stream.

use vstd::prelude::*;
use vstd::bytes::*;

verus! {

/// Failure of patch decoding.
#[derive(Clone, Copy, PartialEq, Eq, Structural, Debug)]
pub enum PatchError {
    /// A header, column offset or run span reaches past the end of the
    /// lump's bytes.
    OutOfBounds,
}

/// The signed value the 16-bit field `v` stores in two's complement.
pub open spec fn as_signed_16(v: u16) -> i16 {
    if v < 32768 {
        v as i16
    } else {
        (v - 65536) as i16
    }
}

/// The width field of a patch header.
pub open spec fn patch_w(b: Seq<u8>) -> u16 {
    spec_u16_from_le_bytes(b.subrange(0, 2))
}

/// The height field of a patch header.
pub open spec fn patch_h(b: Seq<u8>) -> u16 {
    spec_u16_from_le_bytes(b.subrange(2, 4))
}

/// The left offset field of a patch header.
pub open spec fn patch_left(b: Seq<u8>) -> i16 {
    as_signed_16(spec_u16_from_le_bytes(b.subrange(4, 6)))
}

/// The top offset field of a patch header.
pub open spec fn patch_top(b: Seq<u8>) -> i16 {
    as_signed_16(spec_u16_from_le_bytes(b.subrange(6, 8)))
}

/// The column-offset table entry for column `c`: a 32-bit offset,
/// relative to the start of the patch's bytes, stored right after the
/// 8-byte header.
pub open spec fn col_offset(b: Seq<u8>, c: int) -> int {
    spec_u32_from_le_bytes(b.subrange(8 + 4 * c, 12 + 4 * c)) as int
}

/// Reinterpret an unsigned 16-bit field as signed.
fn to_signed_16(v: u16) -> (r: i16)
    ensures
        r == as_signed_16(v),
{
    if v < 32768 {
        v as i16
    } else {
        ((v as i32) - 65536) as i16
    }
}

/// A sprite patch's header: dimensions and origin offset.
#[derive(Clone, Copy, PartialEq, Eq, Structural, Debug)]
pub struct Patch {
    /// Width in columns.
    pub w: u32,
    /// Height in rows.
    pub h: u32,
    /// Horizontal origin offset, subtracted from the destination x.
    pub left: i32,
    /// Vertical origin offset, subtracted from the destination y.
    pub top: i32,
}

impl Patch {
    /// Read the four header fields, in fixed order: width, height,
    /// left offset, top offset, each 16 bits little-endian. Succeeds
    /// exactly when the lump holds a whole header.
    pub fn read_header(data: &[u8]) -> (r: Result<Patch, PatchError>)
        ensures
            r is Ok <==> data@.len() >= 8,
            r matches Ok(p) ==> p == (Patch {
                w: patch_w(data@) as u32,
                h: patch_h(data@) as u32,
                left: patch_left(data@) as i32,
                top: patch_top(data@) as i32,
            }),
            r matches Err(e) ==> e == PatchError::OutOfBounds,
    {
        if data.len() < 8 {
            return Err(PatchError::OutOfBounds);
        }
        let w = u16_from_le_bytes(vstd::slice::slice_subrange(data, 0, 2)) as u32;
        let h = u16_from_le_bytes(vstd::slice::slice_subrange(data, 2, 4)) as u32;
        let left = to_signed_16(u16_from_le_bytes(vstd::slice::slice_subrange(data, 4, 6))) as i32;
        let top = to_signed_16(u16_from_le_bytes(vstd::slice::slice_subrange(data, 6, 8))) as i32;
        Ok(Patch { w, h, left, top })
    }

    /// Read column `c`'s entry of the column-offset table: a 32-bit
    /// little-endian offset, relative to the start of the patch's
    /// bytes, stored at byte `8 + 4 * c`. Succeeds exactly when the
    /// entry lies inside the lump.
    pub fn column_offset(data: &[u8], c: u32) -> (r: Result<u32, PatchError>)
        ensures
            r is Ok <==> 12 + 4 * (c as int) <= data@.len(),
            r matches Ok(o) ==> o == col_offset(data@, c as int),
            r matches Err(e) ==> e == PatchError::OutOfBounds,
    {
        let dlen = data.len();
        if c as usize > usize::MAX / 4 || dlen < 12 || (dlen - 12) / 4 < c as usize {
            proof {
                assert(12 + 4 * (c as int) > data@.len());
            }
            return Err(PatchError::OutOfBounds);
        }
        let start = 8 + 4 * (c as usize);
        Ok(u32_from_le_bytes(vstd::slice::slice_subrange(data, start, start + 4)))
    }

    /// Read the header of a lump already known to hold one.
    pub fn from_lump(data: &[u8]) -> (p: Patch)
        requires
            data@.len() >= 8,
        ensures
            p == (Patch {
                w: patch_w(data@) as u32,
                h: patch_h(data@) as u32,
                left: patch_left(data@) as i32,
                top: patch_top(data@) as i32,
            }),
    {
        match Patch::read_header(data) {
            Ok(p) => p,
            Err(_) => {
                proof {
                    assert(false);
                }
                Patch { w: 0, h: 0, left: 0, top: 0 }
            },
        }
    }
}

} // verus!
