//! The codecs by their numbers: what was compressed is expanded.
use vstd::prelude::*;

use crate::codec::{expanded, FrameWords};
use crate::error::PqErrorView;
use crate::gzip::{crc32, GZIP_MAX_DECOMP};
use crate::laws::blocks::{law_lz4, lz4_all_stepped, lz4_form, lz4_steps_ok, Lz4Step};
use crate::laws::gzip_members::{
    blocks_end, blocks_ok, blocks_result, blocks_stand, law_gzip_member, member_head,
    member_head_ok, whole, DBlock, MemberHead,
};
use crate::laws::numbers::{le_form, varint_form};
use crate::laws::snappy_forms::{
    law_snappy_forms, sized_stepped, sized_steps_form, sized_steps_ok, SizedStep,
};
use crate::laws::zstd_frames::{
    head_form, head_ok, law_zstd_frame, zblocks_form, zblocks_ok, zblocks_output, FrameHead, ZBlock,
};
use crate::meta::Codec;
use crate::zstd::first_state;

verus! {

/// The codec 0 leaves a page as it is. No codec but 0, 1, 2, 6 and 7 expands anything.
pub proof fn law_codec_none(codec: i32, s: Seq<u8>, n: nat, w: FrameWords)
    ensures
        codec == 0 ==> expanded(Codec::of(codec), s, n, w) == Ok::<Seq<u8>, PqErrorView>(s),
        codec != 0 && codec != 1 && codec != 2 && codec != 6 && codec != 7 ==> expanded(
            Codec::of(codec),
            s,
            n,
            w,
        ) is Err,
{
    reveal(expanded);
}

/// The codec 1 is Snappy.
pub proof fn law_codec_snappy(steps: Seq<SizedStep>, w: FrameWords)
    requires
        sized_steps_ok(seq![], steps),
        sized_stepped(seq![], steps).len() <= 0x1000_0000,
        (varint_form(sized_stepped(seq![], steps).len()) + sized_steps_form(steps)).len()
            <= usize::MAX,
    ensures
        expanded(
            Codec::of(1),
            varint_form(sized_stepped(seq![], steps).len()) + sized_steps_form(steps),
            sized_stepped(seq![], steps).len(),
            w,
        ) == Ok::<Seq<u8>, PqErrorView>(sized_stepped(seq![], steps)),
{
    reveal(expanded);
    law_snappy_forms(steps);
}

/// The codec 2 is gzip.
pub proof fn law_codec_gzip(h: MemberHead, s: Seq<DBlock>, stream: Seq<u8>, w: FrameWords)
    requires
        member_head_ok(h),
        s.len() > 0,
        ({
            let out = blocks_result(s, 0, seq![]);
            let tail = le_form(crc32(out) as nat, 4) + le_form(out.len(), 4);
            &&& out.len() <= GZIP_MAX_DECOMP
            &&& blocks_ok(s, 0, seq![], out.len())
            &&& blocks_stand(stream + tail, 0, s, 0)
            &&& whole(blocks_end(0, s, 0)) == stream.len()
        }),
    ensures
        ({
            let out = blocks_result(s, 0, seq![]);
            let tail = le_form(crc32(out) as nat, 4) + le_form(out.len(), 4);
            expanded(Codec::of(2), member_head(h) + (stream + tail), out.len(), w) == Ok::<
                Seq<u8>,
                PqErrorView,
            >(out)
        }),
{
    reveal(expanded);
    law_gzip_member(h, s, stream);
}

/// The codec 6 is Zstandard. What a frame gives must be of the length asked for.
pub proof fn law_codec_zstd(
    h: FrameHead,
    s: Seq<ZBlock>,
    checksum: Seq<u8>,
    after: Seq<u8>,
    n: nat,
    w: FrameWords,
)
    requires
        s.len() > 0,
        zblocks_ok(s, 0, first_state(), seq![]),
        head_ok(h, zblocks_output(s, 0, first_state(), seq![]).len()),
        h.checksum ==> checksum.len() == 4,
    ensures
        ({
            let out = zblocks_output(s, 0, first_state(), seq![]);
            let frame = head_form(h, out.len()) + (zblocks_form(s, 0, first_state()) + (checksum
                + after));
            &&& n == out.len() ==> expanded(Codec::of(6), frame, n, w) == Ok::<
                Seq<u8>,
                PqErrorView,
            >(out)
            &&& n != out.len() ==> expanded(Codec::of(6), frame, n, w) is Err
        }),
{
    reveal(expanded);
    law_zstd_frame(h, s, checksum, after);
}

/// The codec 7 is LZ4.
pub proof fn law_codec_lz4(steps: Seq<Lz4Step>, last: Seq<u8>, w: FrameWords)
    requires
        lz4_steps_ok(seq![], steps),
        lz4_all_stepped(seq![], steps, last).len() <= usize::MAX,
        lz4_form(steps, last).len() <= usize::MAX,
    ensures
        expanded(
            Codec::of(7),
            lz4_form(steps, last),
            lz4_all_stepped(seq![], steps, last).len(),
            w,
        ) == Ok::<Seq<u8>, PqErrorView>(lz4_all_stepped(seq![], steps, last)),
{
    reveal(expanded);
    law_lz4(steps, last);
}

} // verus!
