//! Data pages whose values are indices into a dictionary.
use vstd::prelude::*;
use vstd::slice::slice_subrange;

use crate::error::{bad, PqError, PqErrorView};
use crate::plain::{decodes, Plain};
use crate::rle::{decode_hybrid, hybrid};
use crate::value::{values, PqV, PqValue};

verus! {

/// The dictionary's values at the indices.
pub open spec fn looked_up(indices: Seq<u64>, dict: Seq<PqV>) -> Plain {
    if exists|i: int| 0 <= i < indices.len() && #[trigger] indices[i] >= dict.len() {
        Err(PqErrorView::Bad("dict index out of range"@))
    } else {
        Ok(Seq::new(indices.len(), |i: int| dict[indices[i] as int]))
    }
}

/// The `n` values of a page: one byte for the width of the indices, then the indices.
pub open spec fn dict_values(payload: Seq<u8>, dict: Seq<PqV>, n: nat) -> Plain {
    if payload.len() == 0 {
        Err(PqErrorView::Bad("dict data page: missing bit width"@))
    } else {
        match hybrid(payload.skip(1), payload[0] as nat, n) {
            Err(e) => Err(e),
            Ok(indices) => looked_up(indices, dict),
        }
    }
}

/// Reads the `n` values of a page of dictionary indices.
pub fn resolve_dict_indices(payload: &[u8], dict: &[PqValue], n: usize) -> (r: Result<
    Vec<PqValue>,
    PqError,
>)
    ensures
        decodes(r, dict_values(payload@, values(dict@), n as nat)),
        r matches Ok(v) ==> v@.len() == n,
{
    if payload.len() == 0 {
        return Err(bad("dict data page: missing bit width"));
    }
    let body = slice_subrange(payload, 1, payload.len());
    proof {
        assert(body@ =~= payload@.skip(1));
    }
    let indices = decode_hybrid(body, payload[0] as u32, n)?;
    let mut out: Vec<PqValue> = Vec::new();
    let mut i: usize = 0;
    while i < indices.len()
        invariant
            i <= indices@.len(),
            out@.len() == i,
            forall|j: int| 0 <= j < i ==> (#[trigger] indices@[j]) < dict@.len(),
            forall|j: int|
                0 <= j < i ==> (#[trigger] out@[j])@ == dict@[indices@[j] as int]@,
            payload@.len() > 0,
            indices@.len() == n,
            hybrid(payload@.skip(1), payload@[0] as nat, n as nat) == Ok::<Seq<u64>, PqErrorView>(
                indices@,
            ),
        decreases indices@.len() - i,
    {
        let at: u64 = indices[i];
        if at >= dict.len() as u64 {
            assert(values(dict@).len() == dict@.len());
            assert(indices@[i as int] >= values(dict@).len());
            return Err(bad("dict index out of range"));
        }
        out.push(dict[at as usize].clone());
        i = i + 1;
    }
    proof {
        assert(values(out@) =~= Seq::new(
            indices@.len(),
            |j: int| values(dict@)[indices@[j] as int],
        ));
    }
    Ok(out)
}

} // verus!
