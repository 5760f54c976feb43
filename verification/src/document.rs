//! The byte-level half of loading and saving NBT documents: the codec a
//! document is stored with, and decoding and encoding with it.
use vstd::prelude::*;

use crate::codec::{
    decode_into, encode_into, error_of_codec, gzip_decoded, gzip_encoded, spec_decoded,
    spec_encoded, zlib_decoded, zlib_encoded,
};
use crate::mcregion::{ChunkCompression, CompressionError};

verus! {

/// Codec of a stored NBT document (`Uncompressed`: stored as it is).
#[derive(Clone, Copy, Debug, PartialEq, Eq, Structural)]
pub enum NbtCompression {
    Uncompressed,
    Gzip,
    Zlib,
}

/// The chunk codec that handles documents stored with `c`.
pub open spec fn spec_document_codec(c: NbtCompression) -> ChunkCompression {
    match c {
        NbtCompression::Uncompressed => ChunkCompression::Uncompressed,
        NbtCompression::Gzip => ChunkCompression::Gzip,
        NbtCompression::Zlib => ChunkCompression::Zlib,
    }
}

fn document_codec(c: NbtCompression) -> (r: ChunkCompression)
    ensures
        r == spec_document_codec(c),
{
    match c {
        NbtCompression::Uncompressed => ChunkCompression::Uncompressed,
        NbtCompression::Gzip => ChunkCompression::Gzip,
        NbtCompression::Zlib => ChunkCompression::Zlib,
    }
}

/// A document is stored with the codec its kind names: a gzip document is
/// decoded and encoded with gzip, a zlib document with zlib, and an
/// uncompressed one is taken as it is.
pub proof fn lemma_document_codecs(s: Seq<u8>, y: Seq<u8>, level: u32)
    ensures
        spec_decoded(s, spec_document_codec(NbtCompression::Gzip)) == gzip_decoded(s),
        spec_decoded(s, spec_document_codec(NbtCompression::Zlib)) == zlib_decoded(s),
        spec_decoded(s, spec_document_codec(NbtCompression::Uncompressed)) == (true, s),
        spec_encoded(y, spec_document_codec(NbtCompression::Gzip), level) == gzip_encoded(y, level),
        spec_encoded(y, spec_document_codec(NbtCompression::Zlib), level) == zlib_encoded(y, level),
        spec_encoded(y, spec_document_codec(NbtCompression::Uncompressed), level) == (true, y),
{
}

/// The compression level documents are saved with (`flate2`'s default).
pub const DOCUMENT_COMPRESSION_LEVEL: u32 = 6;

/// The NBT bytes of a document stored as `bytes` with codec `compression`.
pub fn decompress_document(bytes: &[u8], compression: NbtCompression) -> (r: Result<
    Vec<u8>,
    CompressionError,
>)
    ensures
        r is Ok <==> spec_decoded(bytes@, spec_document_codec(compression)).0,
        r matches Ok(v) ==> v@ == spec_decoded(bytes@, spec_document_codec(compression)).1,
        r matches Err(e) ==> error_of_codec(e, spec_document_codec(compression)),
        forall|y: Seq<u8>, l: u32|
            #![trigger spec_encoded(y, spec_document_codec(compression), l)]
            spec_encoded(y, spec_document_codec(compression), l).0 && spec_encoded(
                y,
                spec_document_codec(compression),
                l,
            ).1 == bytes@ ==> (r matches Ok(v) && v@ == y),
        compression == NbtCompression::Uncompressed ==> (r matches Ok(v) && v@ == bytes@),
        compression == NbtCompression::Gzip ==> (r is Ok <==> gzip_decoded(bytes@).0) && (r matches Ok(
            v,
        ) ==> v@ == gzip_decoded(bytes@).1),
        compression == NbtCompression::Zlib ==> (r is Ok <==> zlib_decoded(bytes@).0) && (r matches Ok(
            v,
        ) ==> v@ == zlib_decoded(bytes@).1),
        compression == NbtCompression::Gzip ==> forall|y: Seq<u8>, l: u32|
            #[trigger] gzip_encoded(y, l) == (true, bytes@) ==> (r matches Ok(v) && v@ == y),
        compression == NbtCompression::Zlib ==> forall|y: Seq<u8>, l: u32|
            #[trigger] zlib_encoded(y, l) == (true, bytes@) ==> (r matches Ok(v) && v@ == y),
{
    let mut out: Vec<u8> = Vec::new();
    match decode_into(bytes, document_codec(compression), &mut out) {
        Ok(_) => {
            assert(out@ =~= spec_decoded(bytes@, spec_document_codec(compression)).1);
            Ok(out)
        },
        Err(e) => Err(e),
    }
}

/// The bytes to store for a document whose NBT bytes are `bytes`, with codec
/// `compression` at the default level.
pub fn compress_document(bytes: &[u8], compression: NbtCompression) -> (r: Result<
    Vec<u8>,
    CompressionError,
>)
    ensures
        r is Ok <==> spec_encoded(
            bytes@,
            spec_document_codec(compression),
            DOCUMENT_COMPRESSION_LEVEL,
        ).0,
        r matches Ok(v) ==> v@ == spec_encoded(
            bytes@,
            spec_document_codec(compression),
            DOCUMENT_COMPRESSION_LEVEL,
        ).1,
        r matches Err(e) ==> error_of_codec(e, spec_document_codec(compression)),
        compression == NbtCompression::Uncompressed ==> (r matches Ok(v) && v@ == bytes@),
        compression == NbtCompression::Gzip ==> (r is Ok <==> gzip_encoded(
            bytes@,
            DOCUMENT_COMPRESSION_LEVEL,
        ).0) && (r matches Ok(v) ==> v@ == gzip_encoded(bytes@, DOCUMENT_COMPRESSION_LEVEL).1),
        compression == NbtCompression::Zlib ==> (r is Ok <==> zlib_encoded(
            bytes@,
            DOCUMENT_COMPRESSION_LEVEL,
        ).0) && (r matches Ok(v) ==> v@ == zlib_encoded(bytes@, DOCUMENT_COMPRESSION_LEVEL).1),
{
    let mut out: Vec<u8> = Vec::new();
    match encode_into(bytes, document_codec(compression), DOCUMENT_COMPRESSION_LEVEL, &mut out) {
        Ok(()) => {
            assert(out@ =~= spec_encoded(
                bytes@,
                spec_document_codec(compression),
                DOCUMENT_COMPRESSION_LEVEL,
            ).1);
            Ok(out)
        },
        Err(e) => Err(e),
    }
}

/// Where a document tab stands, as far as saving and loading go.
#[derive(Clone, Copy, Debug, PartialEq, Eq, Structural)]
pub enum DocumentStatus {
    /// Its tree is away being written.
    Saving,
    /// Its file is being read.
    Loading,
    /// Reading its file failed.
    ReadError,
    /// It holds a tree.
    Loaded,
}

/// What a save does once it knows what it saves.
#[derive(Clone, Copy, Debug, PartialEq, Eq, Structural)]
pub enum SaveStep {
    /// Nothing to write: hand the document back as it was.
    Finish,
    /// Ask the user where to write, then write there.
    AskForLocation,
    /// Write to the location the tab already has.
    Write,
}

/// The status a tab keeps once a save has started on it.
pub open spec fn spec_status_after_take(status: DocumentStatus) -> DocumentStatus {
    if status == DocumentStatus::Loaded {
        DocumentStatus::Saving
    } else {
        status
    }
}

/// The step a save takes for what it was handed.
pub open spec fn spec_save_step(to_save: DocumentStatus, has_location: bool) -> SaveStep {
    if to_save != DocumentStatus::Loaded {
        SaveStep::Finish
    } else if has_location {
        SaveStep::Write
    } else {
        SaveStep::AskForLocation
    }
}

/// Starts a save: a tab that holds a tree hands it over and is `Saving`
/// until the save comes back; any other tab keeps its status. Returns the
/// status of what was handed over.
pub fn take_to_save(status: &mut DocumentStatus) -> (r: DocumentStatus)
    ensures
        r == *old(status),
        *final(status) == spec_status_after_take(*old(status)),
{
    match *status {
        DocumentStatus::Loaded => {
            *status = DocumentStatus::Saving;
            DocumentStatus::Loaded
        },
        other => other,
    }
}

/// The step a save takes for what it was handed: only a tree is written,
/// at the tab's location if it has one.
pub fn save_step(to_save: DocumentStatus, has_location: bool) -> (r: SaveStep)
    ensures
        r == spec_save_step(to_save, has_location),
{
    match to_save {
        DocumentStatus::Loaded => if has_location {
            SaveStep::Write
        } else {
            SaveStep::AskForLocation
        },
        _ => SaveStep::Finish,
    }
}

/// Whether a tab is read from its file: only while it waits for its data
/// and knows where the file is.
pub fn should_load(status: DocumentStatus, has_path: bool) -> (r: bool)
    ensures
        r == (status == DocumentStatus::Loading && has_path),
{
    match status {
        DocumentStatus::Loading => has_path,
        _ => false,
    }
}

/// A save started while another is under way writes nothing: the first one
/// left the tab `Saving`, and what a `Saving` tab hands over is not written.
pub proof fn lemma_second_save_writes_nothing(status: DocumentStatus, has_location: bool)
    ensures
        spec_save_step(spec_status_after_take(status), has_location) == SaveStep::Finish,
{
}

/// Only a tab that holds a tree is written, and a save leaves every other
/// tab as it was.
pub proof fn lemma_only_trees_are_written(status: DocumentStatus, has_location: bool)
    ensures
        spec_save_step(status, has_location) == SaveStep::Write ==> status == DocumentStatus::Loaded,
        status != DocumentStatus::Loaded ==> spec_status_after_take(status) == status,
{
}

} // verus!
