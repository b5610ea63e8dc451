//! Copies from earlier output, which every byte-oriented compressor here shares.
use vstd::prelude::*;

verus! {

/// `out` followed by `n` bytes, each the byte that stands `offset` bytes before it. Where `offset`
/// is less than `n` the copy reads bytes that it has itself written.
pub open spec fn copied(out: Seq<u8>, offset: int, n: nat) -> Seq<u8>
    decreases n,
{
    if n == 0 {
        out
    } else {
        let before = copied(out, offset, (n - 1) as nat);
        before.push(before[before.len() - offset])
    }
}

/// A copy of `n` bytes makes the output `n` bytes longer and leaves what was there.
pub proof fn lemma_copied(out: Seq<u8>, offset: int, n: nat)
    requires
        1 <= offset <= out.len(),
    ensures
        copied(out, offset, n).len() == out.len() + n,
        copied(out, offset, n).take(out.len() as int) =~= out,
        forall|i: int|
            out.len() <= i < out.len() + n ==> #[trigger] copied(out, offset, n)[i] == copied(
                out,
                offset,
                n,
            )[i - offset],
    decreases n,
{
    if n > 0 {
        lemma_copied(out, offset, (n - 1) as nat);
    }
}

/// Appends `n` bytes, each the byte that stands `offset` bytes before it.
pub fn copy_match(out: &mut Vec<u8>, offset: usize, n: usize)
    requires
        1 <= offset <= old(out)@.len(),
        old(out)@.len() + n <= usize::MAX,
    ensures
        final(out)@ == copied(old(out)@, offset as int, n as nat),
        final(out)@.len() == old(out)@.len() + n,
{
    let ghost start = out@;
    let mut i: usize = 0;
    while i < n
        invariant
            i <= n,
            1 <= offset <= start.len(),
            start.len() + n <= usize::MAX,
            out@ == copied(start, offset as int, i as nat),
            out@.len() == start.len() + i,
        decreases n - i,
    {
        let x: u8 = out[out.len() - offset];
        out.push(x);
        i += 1;
    }
}

} // verus!
