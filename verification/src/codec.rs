//! The chunk and document codecs: gzip and zlib from `flate2`, and the LZ4
//! block format from `lz4_java_wrc`.
use vstd::prelude::*;

use std::io::{Read, Write};

use flate2::read::{GzDecoder, ZlibDecoder};
use flate2::write::{GzEncoder, ZlibEncoder};
use flate2::Compression;
use lz4_java_wrc::{Lz4BlockInput, Lz4BlockOutput};

use crate::mcregion::{ChunkCompression, CompressedChunk, CompressionError};

verus! {

/// Reading all of a gzip stream out of `input`: whether it ends without
/// error, and, when it does, the bytes it decodes to.
pub uninterp spec fn gzip_decoded(input: Seq<u8>) -> (bool, Seq<u8>);

/// As `gzip_decoded`, for a zlib stream.
pub uninterp spec fn zlib_decoded(input: Seq<u8>) -> (bool, Seq<u8>);

/// As `gzip_decoded`, for a stream of LZ4 blocks.
pub uninterp spec fn lz4_decoded(input: Seq<u8>) -> (bool, Seq<u8>);

/// Writing `input` into a gzip encoder at `level` and finishing the stream:
/// whether the write succeeded, and the complete compressed stream.
pub uninterp spec fn gzip_encoded(input: Seq<u8>, level: u32) -> (bool, Seq<u8>);

/// As `gzip_encoded`, for a zlib stream.
pub uninterp spec fn zlib_encoded(input: Seq<u8>, level: u32) -> (bool, Seq<u8>);

/// As `gzip_encoded`, for a stream of LZ4 blocks of the default block size.
pub uninterp spec fn lz4_encoded(input: Seq<u8>) -> (bool, Seq<u8>);

/// `flate2::read::GzDecoder::new(input).read_to_end(out)`: on success appends
/// the decoded bytes and returns how many. On an error, how much of what was
/// decoded before it stays in `out` depends on how `read_to_end` splits its
/// reads, which follows `out`'s spare capacity; only that `out` keeps its old
/// bytes in front is stated. A stream that `GzEncoder` produced from `y`
/// decodes to `y`.
#[verifier::external_body]
fn gzip_decode_into(input: &[u8], out: &mut Vec<u8>) -> (r: Result<usize, std::io::Error>)
    ensures
        r is Ok ==> final(out)@ == old(out)@ + gzip_decoded(input@).1,
        r is Err ==> old(out)@.is_prefix_of(final(out)@),
        final(out)@.len() <= isize::MAX,
        r is Ok <==> gzip_decoded(input@).0,
        r matches Ok(n) ==> n == gzip_decoded(input@).1.len(),
        forall|y: Seq<u8>, l: u32|
            (r == Ok::<usize, std::io::Error>(y.len() as usize) && final(out)@ == old(out)@ + y)
                <== #[trigger] gzip_encoded(y, l) == (true, input@),
{
    GzDecoder::new(input).read_to_end(out)
}

/// `flate2::read::ZlibDecoder::new(input).read_to_end(out)`, as `gzip_decode_into`
/// (what stays in `out` after an error is not stated); a stream that
/// `ZlibEncoder` produced from `y` decodes to `y`.
#[verifier::external_body]
fn zlib_decode_into(input: &[u8], out: &mut Vec<u8>) -> (r: Result<usize, std::io::Error>)
    ensures
        r is Ok ==> final(out)@ == old(out)@ + zlib_decoded(input@).1,
        r is Err ==> old(out)@.is_prefix_of(final(out)@),
        final(out)@.len() <= isize::MAX,
        r is Ok <==> zlib_decoded(input@).0,
        r matches Ok(n) ==> n == zlib_decoded(input@).1.len(),
        forall|y: Seq<u8>, l: u32|
            (r == Ok::<usize, std::io::Error>(y.len() as usize) && final(out)@ == old(out)@ + y)
                <== #[trigger] zlib_encoded(y, l) == (true, input@),
{
    ZlibDecoder::new(input).read_to_end(out)
}

/// `lz4_java_wrc::Lz4BlockInput::new(input).read_to_end(out)`, as `gzip_decode_into`;
/// a stream that `Lz4BlockOutput` produced from `y` decodes to `y`.
#[verifier::external_body]
fn lz4_decode_into(input: &[u8], out: &mut Vec<u8>) -> (r: Result<usize, std::io::Error>)
    ensures
        final(out)@ == old(out)@ + lz4_decoded(input@).1,
        final(out)@.len() <= isize::MAX,
        r is Ok <==> lz4_decoded(input@).0,
        r matches Ok(n) ==> n == lz4_decoded(input@).1.len(),
        forall|y: Seq<u8>|
            (r == Ok::<usize, std::io::Error>(y.len() as usize) && final(out)@ == old(out)@ + y)
                <== #[trigger] lz4_encoded(y) == (true, input@),
{
    Lz4BlockInput::new(input).read_to_end(out)
}

/// `flate2::write::GzEncoder::new(out, Compression::new(level)).write_all(input)`,
/// the encoder then dropped, which finishes the stream. On success the whole
/// stream has been appended to `out`; what `out` holds after an error is not
/// stated. Levels above 9 trip a debug assertion in `flate2`.
#[verifier::external_body]
fn gzip_encode_into(input: &[u8], level: u32, out: &mut Vec<u8>) -> (r: Result<(), std::io::Error>)
    requires
        level <= 9,
    ensures
        final(out)@.len() <= isize::MAX,
        r is Ok <==> gzip_encoded(input@, level).0,
        r is Ok ==> final(out)@ == old(out)@ + gzip_encoded(input@, level).1,
{
    GzEncoder::new(out, Compression::new(level)).write_all(input)
}

/// `flate2::write::ZlibEncoder::new(out, Compression::new(level)).write_all(input)`,
/// as `gzip_encode_into`.
#[verifier::external_body]
fn zlib_encode_into(input: &[u8], level: u32, out: &mut Vec<u8>) -> (r: Result<(), std::io::Error>)
    requires
        level <= 9,
    ensures
        final(out)@.len() <= isize::MAX,
        r is Ok <==> zlib_encoded(input@, level).0,
        r is Ok ==> final(out)@ == old(out)@ + zlib_encoded(input@, level).1,
{
    ZlibEncoder::new(out, Compression::new(level)).write_all(input)
}

/// `lz4_java_wrc::Lz4BlockOutput::new(out).write_all(input)`, the encoder then
/// dropped, which flushes the last block; as `gzip_encode_into`.
#[verifier::external_body]
fn lz4_encode_into(input: &[u8], out: &mut Vec<u8>) -> (r: Result<(), std::io::Error>)
    ensures
        final(out)@.len() <= isize::MAX,
        r is Ok <==> lz4_encoded(input@).0,
        r is Ok ==> final(out)@ == old(out)@ + lz4_encoded(input@).1,
{
    Lz4BlockOutput::new(out).write_all(input)
}

/// The bytes that decoding `input` with codec `c` appends, and whether it
/// succeeds.
pub open spec fn spec_decoded(input: Seq<u8>, c: ChunkCompression) -> (bool, Seq<u8>) {
    match c {
        ChunkCompression::Uncompressed => (true, input),
        ChunkCompression::Gzip => gzip_decoded(input),
        ChunkCompression::Zlib => zlib_decoded(input),
        ChunkCompression::Lz4 => lz4_decoded(input),
    }
}

/// The stream that encoding `input` with codec `c` at `level` gives, and
/// whether it succeeds.
pub open spec fn spec_encoded(input: Seq<u8>, c: ChunkCompression, level: u32) -> (bool, Seq<u8>) {
    match c {
        ChunkCompression::Uncompressed => (true, input),
        ChunkCompression::Gzip => gzip_encoded(input, level),
        ChunkCompression::Zlib => zlib_encoded(input, level),
        ChunkCompression::Lz4 => lz4_encoded(input),
    }
}

/// The error variant that belongs to codec `c`.
pub open spec fn error_of_codec(e: CompressionError, c: ChunkCompression) -> bool {
    match c {
        ChunkCompression::Gzip => e is Gzip,
        ChunkCompression::Zlib => e is Zlib,
        ChunkCompression::Lz4 => e is Lz4,
        ChunkCompression::Uncompressed => false,
    }
}

/// Each codec is the one its variant names: gzip for `Gzip`, zlib for
/// `Zlib`, the LZ4 block format for `Lz4`, and the bytes as they are for
/// `Uncompressed`; no variant stands for another's codec.
pub proof fn lemma_each_codec_is_its_own(s: Seq<u8>, y: Seq<u8>, level: u32)
    ensures
        spec_decoded(s, ChunkCompression::Gzip) == gzip_decoded(s),
        spec_decoded(s, ChunkCompression::Zlib) == zlib_decoded(s),
        spec_decoded(s, ChunkCompression::Lz4) == lz4_decoded(s),
        spec_decoded(s, ChunkCompression::Uncompressed) == (true, s),
        spec_encoded(y, ChunkCompression::Gzip, level) == gzip_encoded(y, level),
        spec_encoded(y, ChunkCompression::Zlib, level) == zlib_encoded(y, level),
        spec_encoded(y, ChunkCompression::Lz4, level) == lz4_encoded(y),
        spec_encoded(y, ChunkCompression::Uncompressed, level) == (true, y),
{
}

/// Encodes `input` with codec `c` (level `level` for gzip and zlib),
/// appending the stream to `out`.
pub fn encode_into(input: &[u8], c: ChunkCompression, level: u32, out: &mut Vec<u8>) -> (r: Result<
    (),
    CompressionError,
>)
    requires
        level <= 9,
    ensures
        final(out)@.len() <= isize::MAX || c == ChunkCompression::Uncompressed,
        r is Ok <==> spec_encoded(input@, c, level).0,
        r is Ok ==> final(out)@ == old(out)@ + spec_encoded(input@, c, level).1,
        r matches Err(e) ==> error_of_codec(e, c),
        c == ChunkCompression::Uncompressed ==> r is Ok && final(out)@ == old(out)@ + input@,
        c == ChunkCompression::Gzip ==> (r is Ok <==> gzip_encoded(input@, level).0) && (r is Ok
            ==> final(out)@ == old(out)@ + gzip_encoded(input@, level).1),
        c == ChunkCompression::Zlib ==> (r is Ok <==> zlib_encoded(input@, level).0) && (r is Ok
            ==> final(out)@ == old(out)@ + zlib_encoded(input@, level).1),
        c == ChunkCompression::Lz4 ==> (r is Ok <==> lz4_encoded(input@).0) && (r is Ok ==> final(
            out)@ == old(out)@ + lz4_encoded(input@).1),
{
    match c {
        ChunkCompression::Uncompressed => {
            out.extend_from_slice(input);
            proof {
                assert(out@ =~= old(out)@ + input@);
            }
            Ok(())
        },
        ChunkCompression::Gzip => match gzip_encode_into(input, level, out) {
            Ok(()) => Ok(()),
            Err(e) => Err(CompressionError::Gzip(e)),
        },
        ChunkCompression::Zlib => match zlib_encode_into(input, level, out) {
            Ok(()) => Ok(()),
            Err(e) => Err(CompressionError::Zlib(e)),
        },
        ChunkCompression::Lz4 => match lz4_encode_into(input, out) {
            Ok(()) => Ok(()),
            Err(e) => Err(CompressionError::Lz4(e)),
        },
    }
}

/// Decodes `input` with codec `c`, appending what was decoded to `out`; on an
/// error `out` keeps its old bytes in front.
pub fn decode_into(input: &[u8], c: ChunkCompression, out: &mut Vec<u8>) -> (r: Result<
    usize,
    CompressionError,
>)
    ensures
        r is Ok ==> final(out)@ == old(out)@ + spec_decoded(input@, c).1,
        r is Err ==> old(out)@.is_prefix_of(final(out)@),
        r is Ok <==> spec_decoded(input@, c).0,
        r matches Ok(n) ==> n == spec_decoded(input@, c).1.len(),
        r matches Err(e) ==> error_of_codec(e, c),
        forall|y: Seq<u8>, l: u32|
            #![trigger spec_encoded(y, c, l)]
            spec_encoded(y, c, l).0 && spec_encoded(y, c, l).1 == input@ ==> r == Ok::<
                usize,
                CompressionError,
            >(y.len() as usize) && final(out)@ == old(out)@ + y,
        c == ChunkCompression::Uncompressed ==> r == Ok::<usize, CompressionError>(
            input@.len() as usize,
        ) && final(out)@ == old(out)@ + input@,
        c == ChunkCompression::Gzip ==> (r is Ok <==> gzip_decoded(input@).0) && (r is Ok ==> final(
            out)@ == old(out)@ + gzip_decoded(input@).1),
        c == ChunkCompression::Zlib ==> (r is Ok <==> zlib_decoded(input@).0) && (r is Ok ==> final(
            out)@ == old(out)@ + zlib_decoded(input@).1),
        c == ChunkCompression::Lz4 ==> (r is Ok <==> lz4_decoded(input@).0) && (r is Ok ==> final(
            out)@ == old(out)@ + lz4_decoded(input@).1),
        c == ChunkCompression::Gzip ==> forall|y: Seq<u8>, l: u32|
            #[trigger] gzip_encoded(y, l) == (true, input@) ==> r == Ok::<usize, CompressionError>(
                y.len() as usize,
            ) && final(out)@ == old(out)@ + y,
        c == ChunkCompression::Zlib ==> forall|y: Seq<u8>, l: u32|
            #[trigger] zlib_encoded(y, l) == (true, input@) ==> r == Ok::<usize, CompressionError>(
                y.len() as usize,
            ) && final(out)@ == old(out)@ + y,
        c == ChunkCompression::Lz4 ==> forall|y: Seq<u8>|
            #[trigger] lz4_encoded(y) == (true, input@) ==> r == Ok::<usize, CompressionError>(
                y.len() as usize,
            ) && final(out)@ == old(out)@ + y,
{
    match c {
        ChunkCompression::Uncompressed => {
            out.extend_from_slice(input);
            proof {
                assert(out@ =~= old(out)@ + input@);
            }
            Ok(input.len())
        },
        ChunkCompression::Gzip => match gzip_decode_into(input, out) {
            Ok(n) => Ok(n),
            Err(e) => Err(CompressionError::Gzip(e)),
        },
        ChunkCompression::Zlib => match zlib_decode_into(input, out) {
            Ok(n) => Ok(n),
            Err(e) => Err(CompressionError::Zlib(e)),
        },
        ChunkCompression::Lz4 => match lz4_decode_into(input, out) {
            Ok(n) => Ok(n),
            Err(e) => Err(CompressionError::Lz4(e)),
        },
    }
}

impl<'a> CompressedChunk<'a> {
    /// Appends the decompressed bytes of the chunk to `buf` and returns how
    /// many there were; on an error `buf` keeps its old bytes in front.
    pub fn decompress_to(&self, buf: &mut Vec<u8>, compression: ChunkCompression) -> (r: Result<
        usize,
        CompressionError,
    >)
        ensures
            r is Ok ==> final(buf)@ == old(buf)@ + spec_decoded(self@, compression).1,
            r is Err ==> old(buf)@.is_prefix_of(final(buf)@),
            r is Ok <==> spec_decoded(self@, compression).0,
            r matches Ok(n) ==> n == spec_decoded(self@, compression).1.len(),
            r matches Err(e) ==> error_of_codec(e, compression),
            forall|y: Seq<u8>, l: u32|
                #![trigger spec_encoded(y, compression, l)]
                spec_encoded(y, compression, l).0 && spec_encoded(y, compression, l).1 == self@
                    ==> r == Ok::<usize, CompressionError>(y.len() as usize) && final(buf)@ == old(
                    buf,
                )@ + y,
            compression == ChunkCompression::Uncompressed ==> r == Ok::<usize, CompressionError>(
            self@.len() as usize,
        ) && final(buf)@ == old(buf)@ + self@,
            compression == ChunkCompression::Gzip ==> (r is Ok <==> gzip_decoded(self@).0) && (r is Ok ==> final(
            buf)@ == old(buf)@ + gzip_decoded(self@).1),
            compression == ChunkCompression::Zlib ==> (r is Ok <==> zlib_decoded(self@).0) && (r is Ok ==> final(
            buf)@ == old(buf)@ + zlib_decoded(self@).1),
            compression == ChunkCompression::Lz4 ==> (r is Ok <==> lz4_decoded(self@).0) && (r is Ok ==> final(
            buf)@ == old(buf)@ + lz4_decoded(self@).1),
            compression == ChunkCompression::Gzip ==> forall|y: Seq<u8>, l: u32|
                #[trigger] gzip_encoded(y, l) == (true, self@) ==> r == Ok::<usize, CompressionError>(
                    y.len() as usize,
                ) && final(buf)@ == old(buf)@ + y,
            compression == ChunkCompression::Zlib ==> forall|y: Seq<u8>, l: u32|
                #[trigger] zlib_encoded(y, l) == (true, self@) ==> r == Ok::<usize, CompressionError>(
                    y.len() as usize,
                ) && final(buf)@ == old(buf)@ + y,
            compression == ChunkCompression::Lz4 ==> forall|y: Seq<u8>|
                #[trigger] lz4_encoded(y) == (true, self@) ==> r == Ok::<usize, CompressionError>(
                    y.len() as usize,
                ) && final(buf)@ == old(buf)@ + y,
    {
        decode_into(self.bytes(), compression, buf)
    }
}

} // verus!
