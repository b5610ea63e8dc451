//! The frame of a file: magic bytes at both ends, and the metadata before the last of them.
use vstd::prelude::*;
use vstd::slice::slice_subrange;

use crate::bytes::{le, le_u32};
use crate::error::{bad, PqError, PqErrorView};

verus! {

/// The bytes at the start and at the end of a file.
pub const MAGIC: [u8; 4] = [0x50, 0x41, 0x52, 0x31];

/// Where the metadata of a file stands: before its length, which stands before the last four bytes.
pub open spec fn metadata_range(file: Seq<u8>) -> Result<(int, int), PqErrorView> {
    let len = file.len() as int;
    if len < 12 {
        Err(PqErrorView::Bad("file too short"@))
    } else if file.take(4) != MAGIC@ {
        Err(PqErrorView::Bad("leading magic"@))
    } else if file.skip(len - 4) != MAGIC@ {
        Err(PqErrorView::Bad("trailing magic"@))
    } else {
        let n = le(file.subrange(len - 8, len - 4)) as int;
        if n > len - 12 {
            Err(PqErrorView::Bad("metadata length exceeds file"@))
        } else {
            Ok((len - 8 - n, len - 8))
        }
    }
}

/// Whether the four bytes at `p` are the magic bytes.
fn magic_at(file: &[u8], p: usize) -> (r: bool)
    requires
        p + 4 <= file@.len(),
    ensures
        r == (file@.subrange(p as int, p + 4) == MAGIC@),
{
    assert(file@.len() == file.len());
    let m: [u8; 4] = MAGIC;
    let t = slice_subrange(file, p, p + 4);
    let r = t[0] == m[0] && t[1] == m[1] && t[2] == m[2] && t[3] == m[3];
    proof {
        if r {
            assert(t@ =~= MAGIC@);
        } else {
            assert(t@[0] != MAGIC@[0] || t@[1] != MAGIC@[1] || t@[2] != MAGIC@[2] || t@[3]
                != MAGIC@[3]);
        }
    }
    r
}

/// The metadata of a file.
pub fn metadata_slice(file: &[u8]) -> (r: Result<&[u8], PqError>)
    ensures
        match (r, metadata_range(file@)) {
            (Ok(s), Ok((a, b))) => s@ == file@.subrange(a, b),
            (Err(x), Err(y)) => x@ == y,
            _ => false,
        },
{
    let len: usize = file.len();
    if len < 12 {
        return Err(bad("file too short"));
    }
    proof {
        assert(file@.take(4) =~= file@.subrange(0, 4));
        assert(file@.skip(len - 4) =~= file@.subrange(len - 4, len as int));
    }
    if !magic_at(file, 0) {
        return Err(bad("leading magic"));
    }
    if !magic_at(file, len - 4) {
        return Err(bad("trailing magic"));
    }
    let n: u32 = le_u32(file, len - 8);
    if n as u64 > (len - 12) as u64 {
        return Err(bad("metadata length exceeds file"));
    }
    Ok(slice_subrange(file, len - 8 - n as usize, len - 8))
}

} // verus!
