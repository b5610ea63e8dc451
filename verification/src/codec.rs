//! The codecs that pages are compressed with.
use vstd::prelude::*;
use vstd::string::*;

use crate::error::{decimal, decimal_text, text3, text4, text7, unsupported, PqError, PqErrorView};
use crate::gzip;
use crate::lz4;
use crate::meta::Codec;
use crate::snappy;
use crate::snappy::yields;
use crate::value::copy_bytes;
use crate::zstd;
use crate::zstd::{frame_output, ZstdError, ZstdErrorView};

verus! {

/// The name of a variant with one field, and the field.
pub open spec fn one_field(name: Seq<char>, field: Seq<char>, v: int) -> Seq<char> {
    name + " { "@ + field + ": "@ + decimal(v) + " }"@
}

/// The name of a variant with two fields, and the fields.
pub open spec fn two_fields(
    name: Seq<char>,
    first: Seq<char>,
    v: int,
    second: Seq<char>,
    w: int,
) -> Seq<char> {
    name + " { "@ + first + ": "@ + decimal(v) + ", "@ + second + ": "@ + decimal(w) + " }"@
}

/// The numbers in brackets.
pub open spec fn four_numbers(m: Seq<u8>) -> Seq<char> {
    "["@ + decimal(m[0] as int) + ", "@ + decimal(m[1] as int) + ", "@ + decimal(m[2] as int)
        + ", "@ + decimal(m[3] as int) + "]"@
}

/// An error in the words of the source: the name of its variant, and its fields.
pub open spec fn zstd_error(e: ZstdErrorView) -> Seq<char> {
    match e {
        ZstdErrorView::UnexpectedEof => "UnexpectedEof"@,
        ZstdErrorView::BadMagic(m) => "BadMagic("@ + four_numbers(m) + ")"@,
        ZstdErrorView::ReservedFrameHeaderBit(b) => "ReservedFrameHeaderBit("@ + decimal(b as int)
            + ")"@,
        ZstdErrorView::DictionaryNotSupported(n) => "DictionaryNotSupported("@ + decimal(n as int)
            + ")"@,
        ZstdErrorView::FrameContentSizeTooLarge { claimed, cap } => two_fields(
            "FrameContentSizeTooLarge"@,
            "claimed"@,
            claimed as int,
            "cap"@,
            cap as int,
        ),
        ZstdErrorView::ReservedBlockType => "ReservedBlockType"@,
        ZstdErrorView::BlockSizeTooLarge { claimed, max } => two_fields(
            "BlockSizeTooLarge"@,
            "claimed"@,
            claimed as int,
            "max"@,
            max as int,
        ),
        ZstdErrorView::CompressedBlockNotYetSupported { block_size } => one_field(
            "CompressedBlockNotYetSupported"@,
            "block_size"@,
            block_size as int,
        ),
        ZstdErrorView::SizeMismatch { declared, decoded } => two_fields(
            "SizeMismatch"@,
            "declared"@,
            declared as int,
            "decoded"@,
            decoded as int,
        ),
        ZstdErrorView::DecompressionBomb { decoded, cap } => two_fields(
            "DecompressionBomb"@,
            "decoded"@,
            decoded as int,
            "cap"@,
            cap as int,
        ),
        ZstdErrorView::TrailingChecksumTruncated => "TrailingChecksumTruncated"@,
        ZstdErrorView::LiteralsBlockTypeNotYetSupported { block_type } => one_field(
            "LiteralsBlockTypeNotYetSupported"@,
            "block_type"@,
            block_type as int,
        ),
        ZstdErrorView::FseWeightHuffmanNotYetSupported { header_byte } => one_field(
            "FseWeightHuffmanNotYetSupported"@,
            "header_byte"@,
            header_byte as int,
        ),
    }
}

fn one_field_text(name: &str, field: &str, v: i128) -> (s: String)
    ensures
        s@ == one_field(name@, field@, v as int),
{
    let n = decimal_text(v);
    let mut s = text4(name, " { ", field, ": ");
    s.append(n.as_str());
    s.append(" }");
    s
}

fn two_fields_text(name: &str, first: &str, v: i128, second: &str, w: i128) -> (s: String)
    ensures
        s@ == two_fields(name@, first@, v as int, second@, w as int),
{
    let a = decimal_text(v);
    let b = decimal_text(w);
    let mut s = text7(name, " { ", first, ": ", a.as_str(), ", ", second);
    s.append(": ");
    s.append(b.as_str());
    s.append(" }");
    s
}

fn four_numbers_text(m: &[u8; 4]) -> (s: String)
    ensures
        s@ == four_numbers(m@),
{
    let a = decimal_text(m[0] as i128);
    let b = decimal_text(m[1] as i128);
    let c = decimal_text(m[2] as i128);
    let d = decimal_text(m[3] as i128);
    let mut s = text7("[", a.as_str(), ", ", b.as_str(), ", ", c.as_str(), ", ");
    s.append(d.as_str());
    s.append("]");
    s
}

/// The text of an error.
pub fn zstd_error_text(e: &ZstdError) -> (s: String)
    ensures
        s@ == zstd_error(e@),
{
    match e {
        ZstdError::UnexpectedEof => "UnexpectedEof".to_owned(),
        ZstdError::BadMagic(m) => {
            let t = four_numbers_text(m);
            text3("BadMagic(", t.as_str(), ")")
        },
        ZstdError::ReservedFrameHeaderBit(b) => {
            let t = decimal_text(*b as i128);
            text3("ReservedFrameHeaderBit(", t.as_str(), ")")
        },
        ZstdError::DictionaryNotSupported(n) => {
            let t = decimal_text(*n as i128);
            text3("DictionaryNotSupported(", t.as_str(), ")")
        },
        ZstdError::FrameContentSizeTooLarge { claimed, cap } => two_fields_text(
            "FrameContentSizeTooLarge",
            "claimed",
            *claimed as i128,
            "cap",
            *cap as i128,
        ),
        ZstdError::ReservedBlockType => "ReservedBlockType".to_owned(),
        ZstdError::BlockSizeTooLarge { claimed, max } => two_fields_text(
            "BlockSizeTooLarge",
            "claimed",
            *claimed as i128,
            "max",
            *max as i128,
        ),
        ZstdError::CompressedBlockNotYetSupported { block_size } => one_field_text(
            "CompressedBlockNotYetSupported",
            "block_size",
            *block_size as i128,
        ),
        ZstdError::SizeMismatch { declared, decoded } => two_fields_text(
            "SizeMismatch",
            "declared",
            *declared as i128,
            "decoded",
            *decoded as i128,
        ),
        ZstdError::DecompressionBomb { decoded, cap } => two_fields_text(
            "DecompressionBomb",
            "decoded",
            *decoded as i128,
            "cap",
            *cap as i128,
        ),
        ZstdError::TrailingChecksumTruncated => "TrailingChecksumTruncated".to_owned(),
        ZstdError::LiteralsBlockTypeNotYetSupported { block_type } => one_field_text(
            "LiteralsBlockTypeNotYetSupported",
            "block_type",
            *block_type as i128,
        ),
        ZstdError::FseWeightHuffmanNotYetSupported { header_byte } => one_field_text(
            "FseWeightHuffmanNotYetSupported",
            "header_byte",
            *header_byte as i128,
        ),
    }
}

/// The words in which a page speaks of a Zstandard frame that fails, or is of the wrong size.
#[derive(Clone, Copy)]
pub struct FrameWords {
    pub decode: &'static str,
    pub size: &'static str,
    pub wanted: &'static str,
}

/// What the on-disk bytes of a codec decompress to: `n` bytes.
#[verifier::opaque]
pub open spec fn expanded(codec: Codec, s: Seq<u8>, n: nat, w: FrameWords) -> Result<
    Seq<u8>,
    PqErrorView,
> {
    match codec {
        Codec::Uncompressed => Ok(s),
        Codec::Snappy => snappy::block_output(s, n),
        Codec::Gzip => gzip::member_output(s, n),
        Codec::Zstd => match frame_output(s) {
            Err(e) => Err(PqErrorView::Bad(w.decode@ + zstd_error(e))),
            Ok(out) => if out.len() != n {
                Err(
                    PqErrorView::Bad(
                        w.size@ + decimal(out.len() as int) + w.wanted@ + decimal(n as int),
                    ),
                )
            } else {
                Ok(out)
            },
        },
        Codec::Lz4Raw => lz4::block_output(s, n),
        _ => Err(codec_error(codec)),
    }
}

/// The complaint about a codec that is not supported.
pub open spec fn codec_error(codec: Codec) -> PqErrorView {
    match codec {
        Codec::Brotli => PqErrorView::Unsupported(
            "Brotli decode: zero-dep decoder is a dedicated multi-week SP-arc (~10-15 tasks like SP125-SP140 zstd); workaround — ask the writer to use compression='zstd' or compression='lz4' instead"@,
        ),
        Codec::Other(5) => PqErrorView::Unsupported(
            "LZ4 (deprecated Hadoop framing) — use LZ4_RAW; SP149 follow-up if needed"@,
        ),
        _ => PqErrorView::Unsupported("compression codec: OBJ-2c"@),
    }
}

/// Whether a codec is supported.
pub open spec fn codec_known(codec: Codec) -> bool {
    match codec {
        Codec::Brotli => false,
        Codec::Other(_) => false,
        _ => true,
    }
}

/// The complaint about a codec that is not supported.
pub fn refuse_codec(codec: Codec) -> (e: PqError)
    ensures
        e@ == codec_error(codec),
{
    match codec {
        Codec::Brotli => unsupported(
            "Brotli decode: zero-dep decoder is a dedicated multi-week SP-arc (~10-15 tasks like SP125-SP140 zstd); workaround — ask the writer to use compression='zstd' or compression='lz4' instead",
        ),
        Codec::Other(5) => unsupported(
            "LZ4 (deprecated Hadoop framing) — use LZ4_RAW; SP149 follow-up if needed",
        ),
        _ => unsupported("compression codec: OBJ-2c"),
    }
}

/// Whether a codec is supported.
pub fn knows_codec(codec: Codec) -> (r: bool)
    ensures
        r == codec_known(codec),
{
    match codec {
        Codec::Brotli => false,
        Codec::Other(_) => false,
        _ => true,
    }
}

fn expand_frame(s: &[u8], n: usize, w: FrameWords) -> (r: Result<Vec<u8>, PqError>)
    ensures
        yields(r, expanded(Codec::Zstd, s@, n as nat, w)),
        r matches Ok(v) ==> v@.len() == n,
{
    proof {
        reveal(expanded);
    }
    match zstd::decompress(s) {
        Err(e) => {
            let t = zstd_error_text(&e);
            let mut m = w.decode.to_owned();
            m.append(t.as_str());
            Err(PqError::Bad(m))
        },
        Ok(out) => {
            if out.len() != n {
                let have = decimal_text(out.len() as i128);
                let want = decimal_text(n as i128);
                return Err(
                    PqError::Bad(text4(w.size, have.as_str(), w.wanted, want.as_str())),
                );
            }
            Ok(out)
        },
    }
}

/// Decompresses the on-disk bytes of a codec to `n` bytes.
pub fn expand(codec: Codec, s: &[u8], n: usize, w: FrameWords) -> (r: Result<Vec<u8>, PqError>)
    ensures
        yields(r, expanded(codec, s@, n as nat, w)),
{
    proof {
        reveal(expanded);
    }
    match codec {
        Codec::Uncompressed => Ok(copy_bytes(s)),
        Codec::Snappy => snappy::decompress(s, n),
        Codec::Gzip => gzip::decompress(s, n),
        Codec::Zstd => expand_frame(s, n, w),
        Codec::Lz4Raw => lz4::decompress(s, n),
        _ => Err(refuse_codec(codec)),
    }
}

} // verus!
