//! On-disk layout of a region file: the header table, the timestamp table and
//! the shape of a chunk record.
use vstd::prelude::*;

verus! {

#[verifier::external_type_specification]
#[verifier::external_body]
pub struct ExIoError(std::io::Error);

/// Size of a sector, the allocation unit of a region file.
pub const SECTOR_SIZE: usize = 4096;
/// Number of chunks along each side of a region.
pub const REGION_SIZE: u8 = 32;
/// Number of chunks in a region.
pub const REGION_SIZE_SQ: usize = 1024;
/// Largest chunk that fits in the 255 sectors a header can describe.
pub const MAX_CHUNK_BYTES: usize = 255 * SECTOR_SIZE;

/// Errors of the three chunk compression codecs.
#[derive(Debug)]
pub enum CompressionError {
    Gzip(std::io::Error),
    Zlib(std::io::Error),
    Lz4(std::io::Error),
}

/// Errors met while reading a region file.
#[derive(Debug)]
pub enum RegionReadError {
    MissingHeaders,
    UnalignedData,
    MissingChunkData,
    InvalidChunkCoords(u8, u8),
    InvalidChunkLengthField,
    InvalidChunkOffset,
    InvalidCompression(u8),
    OversizedChunk(usize),
    InvalidBackingBufferSize(usize),
    CompressionError(CompressionError),
}

/// Errors met while writing into a region file.
#[derive(Debug)]
pub enum RegionWriteError {
    OversizedChunk(usize),
    NotEnoguhFreeSectors,
    ReadingError(RegionReadError),
    UnrepresentableChunkLength(usize),
    InvalidChunkCoords(u8, u8),
    CompressionError(CompressionError),
}

/// Reader and writer settings.
#[derive(Debug, Clone, Copy, Default)]
pub struct Options {
    pub allow_oversized_chunks: bool,
}

/// Index of chunk `(x, z)` in the header and timestamp tables; coordinates
/// are taken modulo the region size.
pub open spec fn spec_chunk_idx(x: u8, z: u8) -> int {
    (x % 32) as int + 32 * ((z % 32) as int)
}

/// Coordinates that the checked accessors accept (note: up to and including 32).
pub open spec fn coords_accepted(x: u8, z: u8) -> bool {
    x <= 32 && z <= 32
}

pub fn chunk_idx_fast(x: u8, z: u8) -> (r: usize)
    ensures
        r == spec_chunk_idx(x, z),
        r < 1024,
{
    ((x % REGION_SIZE) as usize) + 32 * ((z % REGION_SIZE) as usize)
}

/// Big-endian 24-bit number stored in `b[at..at + 3]`.
pub open spec fn be24(b: Seq<u8>, at: int) -> int {
    b[at] * 65536 + b[at + 1] * 256 + b[at + 2]
}

/// Big-endian 32-bit number stored in `b[at..at + 4]`.
pub open spec fn be32(b: Seq<u8>, at: int) -> int {
    b[at] * 16777216 + b[at + 1] * 65536 + b[at + 2] * 256 + b[at + 3]
}

/// The four bytes of `v` in big-endian order.
pub open spec fn be32_bytes(v: int) -> Seq<u8> {
    seq![
        (v / 16777216 % 256) as u8,
        (v / 65536 % 256) as u8,
        (v / 256 % 256) as u8,
        (v % 256) as u8,
    ]
}

pub proof fn lemma_be32_roundtrip(v: int)
    requires
        0 <= v <= u32::MAX,
    ensures
        be32(be32_bytes(v), 0) == v,
{
    let b = be32_bytes(v);
    assert(b[0] == v / 16777216 % 256);
    assert(b[1] == v / 65536 % 256);
    assert(b[2] == v / 256 % 256);
    assert(b[3] == v % 256);
    assert(v / 16777216 % 256 * 16777216 + v / 65536 % 256 * 65536 + v / 256 % 256 * 256 + v % 256
        == v) by (nonlinear_arith)
        requires
            0 <= v <= u32::MAX,
    ;
}

/// Order in which a machine lays out the four bytes of a `u32`.
#[derive(Debug, Clone, Copy, PartialEq, Eq, Structural)]
pub enum ByteOrder {
    Little,
    Big,
}

/// Little-endian 32-bit number stored in `b[at..at + 4]`.
pub open spec fn le32(b: Seq<u8>, at: int) -> int {
    b[at] + b[at + 1] * 256 + b[at + 2] * 65536 + b[at + 3] * 16777216
}

/// The 32-bit number stored in `b[at..at + 4]` in order `o`.
#[verifier::opaque]
pub open spec fn word(b: Seq<u8>, at: int, o: ByteOrder) -> int {
    match o {
        ByteOrder::Little => le32(b, at),
        ByteOrder::Big => be32(b, at),
    }
}

/// The four bytes of `v` in order `o`.
pub open spec fn word_bytes(v: int, o: ByteOrder) -> Seq<u8> {
    match o {
        ByteOrder::Little => seq![
            (v % 256) as u8,
            (v / 256 % 256) as u8,
            (v / 65536 % 256) as u8,
            (v / 16777216 % 256) as u8,
        ],
        ByteOrder::Big => be32_bytes(v),
    }
}

pub proof fn lemma_word_roundtrip(v: int, o: ByteOrder)
    requires
        0 <= v <= u32::MAX,
    ensures
        word(word_bytes(v, o), 0, o) == v,
        word_bytes(v, o).len() == 4,
{
    reveal(word);
    lemma_be32_roundtrip(v);
    let b = word_bytes(v, o);
    assert(b[0] == v % 256 || o == ByteOrder::Big);
    assert(v / 16777216 % 256 * 16777216 + v / 65536 % 256 * 65536 + v / 256 % 256 * 256 + v % 256
        == v) by (nonlinear_arith)
        requires
            0 <= v <= u32::MAX,
    ;
}

/// `u32::from_ne_bytes`: the four bytes read in the machine's own order,
/// which is one of the two orders; which one is not stated.
#[verifier::external_body]
fn u32_from_ne_bytes(bytes: [u8; 4]) -> (r: u32)
    ensures
        r == le32(bytes@, 0) || r == be32(bytes@, 0),
{
    u32::from_ne_bytes(bytes)
}

/// The byte order of this machine: the order in which `u32::from_ne_bytes`
/// reads `[1, 0, 0, 0]` as 1.
pub fn native_byte_order() -> (r: ByteOrder) {
    if u32_from_ne_bytes([1u8, 0u8, 0u8, 0u8]) == 1 {
        ByteOrder::Little
    } else {
        ByteOrder::Big
    }
}

/// Reads the `u32` at `data[at..at + 4]` in order `o`.
pub fn read_u32(data: &[u8], at: usize, o: ByteOrder) -> (r: u32)
    requires
        at + 4 <= data@.len(),
    ensures
        r == word(data@, at as int, o),
{
    reveal(word);
    match o {
        ByteOrder::Little => (data[at] as u32) + (data[at + 1] as u32) * 256 + (data[at + 2] as u32)
            * 65536 + (data[at + 3] as u32) * 16777216,
        ByteOrder::Big => read_be_u32(data, at),
    }
}

/// The four bytes of `v` in order `o`.
pub fn u32_bytes(v: u32, o: ByteOrder) -> (r: [u8; 4])
    ensures
        r@ == word_bytes(v as int, o),
{
    let r = match o {
        ByteOrder::Little => [(v % 256) as u8, (v / 256 % 256) as u8, (v / 65536 % 256) as u8, (v
            / 16777216 % 256) as u8],
        ByteOrder::Big => [(v / 16777216 % 256) as u8, (v / 65536 % 256) as u8, (v / 256 % 256) as u8, (
        v % 256) as u8],
    };
    assert(r@ =~= word_bytes(v as int, o));
    r
}

/// Reads the big-endian `u32` at `data[at..at + 4]`.
pub fn read_be_u32(data: &[u8], at: usize) -> (r: u32)
    requires
        at + 4 <= data@.len(),
    ensures
        r == be32(data@, at as int),
{
    (data[at] as u32) * 16777216 + (data[at + 1] as u32) * 65536 + (data[at + 2] as u32) * 256
        + (data[at + 3] as u32)
}

/// One entry of the header table: a 24-bit big-endian sector offset followed
/// by a sector count.
#[derive(Debug, Clone, Copy, Default)]
pub struct MCRegionHeader(pub [u8; 4]);

impl MCRegionHeader {
    pub open spec fn spec_offset(&self) -> int {
        be24(self.0@, 0)
    }

    pub open spec fn spec_sector_count(&self) -> u8 {
        self.0@[3]
    }

    pub fn offset(&self) -> (r: u32)
        ensures
            r == self.spec_offset(),
            r <= 0xFFFFFF,
    {
        (self.0[0] as u32) * 65536 + (self.0[1] as u32) * 256 + (self.0[2] as u32)
    }

    pub fn sector_count(&self) -> (r: u8)
        ensures
            r == self.spec_sector_count(),
    {
        self.0[3]
    }

    pub fn new(offset: usize, sector_count: u8) -> (r: Option<Self>)
        ensures
            r is Some <==> offset <= 0xFFFFFF,
            r matches Some(h) ==> h.spec_offset() == offset && h.spec_sector_count()
                == sector_count,
            r matches Some(h) ==> h.0@ == seq![
                (offset / 65536) as u8,
                (offset / 256 % 256) as u8,
                (offset % 256) as u8,
                sector_count,
            ],
    {
        if offset <= 0xFFFFFF {
            let h = Self(
                [(offset / 65536) as u8, (offset / 256 % 256) as u8, (offset % 256) as u8, sector_count],
            );
            assert((offset / 65536) * 65536 + (offset / 256 % 256) * 256 + offset % 256 == offset)
                by (nonlinear_arith)
                requires
                    offset <= 0xFFFFFF,
            ;
            assert(h.0@ =~= seq![
                (offset / 65536) as u8,
                (offset / 256 % 256) as u8,
                (offset % 256) as u8,
                sector_count,
            ]);
            Some(h)
        } else {
            None
        }
    }

    pub fn unpack(&self) -> (r: (u32, u8))
        ensures
            r.0 == self.spec_offset(),
            r.1 == self.spec_sector_count(),
    {
        (self.offset(), self.sector_count())
    }

    pub fn is_none(&self) -> (r: bool)
        ensures
            r == (self.0@ == seq![0u8, 0u8, 0u8, 0u8]),
            r == (self.spec_offset() == 0 && self.spec_sector_count() == 0),
    {
        let r = self.0[0] == 0 && self.0[1] == 0 && self.0[2] == 0 && self.0[3] == 0;
        assert(r ==> self.0@ =~= seq![0u8, 0u8, 0u8, 0u8]);
        r
    }
}

/// The header table of a region file.
#[derive(Debug, Clone)]
pub struct MCRegionHeaders(pub [MCRegionHeader; 1024]);

/// The timestamp table of a region file.
#[derive(Debug, Clone)]
pub struct MCRegionTimestamps(pub [u32; 1024]);

/// Codec of a chunk, as given by the low bits of its compression byte
/// (`Uncompressed`: the bytes are stored as they are).
#[derive(Debug, Clone, Copy, PartialEq, Eq, Structural)]
pub enum ChunkCompression {
    Gzip,
    Zlib,
    Uncompressed,
    Lz4,
}

/// The compression byte that stands for each codec.
pub open spec fn spec_compression_byte(c: ChunkCompression) -> u8 {
    match c {
        ChunkCompression::Gzip => 1,
        ChunkCompression::Zlib => 2,
        ChunkCompression::Uncompressed => 3,
        ChunkCompression::Lz4 => 4,
    }
}

/// The codec that the low seven bits of a compression byte name, if any.
pub open spec fn spec_compression_of(b: u8) -> Option<ChunkCompression> {
    let low = b % 128;
    if low == 1 {
        Some(ChunkCompression::Gzip)
    } else if low == 2 {
        Some(ChunkCompression::Zlib)
    } else if low == 3 {
        Some(ChunkCompression::Uncompressed)
    } else if low == 4 {
        Some(ChunkCompression::Lz4)
    } else {
        None
    }
}

pub fn compression_byte(c: ChunkCompression) -> (r: u8)
    ensures
        r == spec_compression_byte(c),
        spec_compression_of(r) == Some(c),
        r < 128,
{
    match c {
        ChunkCompression::Gzip => 1,
        ChunkCompression::Zlib => 2,
        ChunkCompression::Uncompressed => 3,
        ChunkCompression::Lz4 => 4,
    }
}

/// The compressed bytes of a chunk, borrowed from the region data.
#[derive(Debug, Clone, Copy)]
pub struct CompressedChunk<'a>(&'a [u8]);

impl<'a> View for CompressedChunk<'a> {
    type V = Seq<u8>;

    closed spec fn view(&self) -> Seq<u8> {
        self.0@
    }
}

impl<'a> CompressedChunk<'a> {
    pub fn new(data: &'a [u8]) -> (r: Self)
        ensures
            r@ == data@,
    {
        Self(data)
    }

    /// The compressed bytes.
    pub fn bytes(&self) -> (r: &'a [u8])
        ensures
            r@ == self@,
    {
        self.0
    }
}

impl<'a> core::ops::Deref for CompressedChunk<'a> {
    type Target = [u8];

    fn deref(&self) -> (r: &[u8])
        ensures
            r@ == self@,
    {
        self.0
    }
}

impl<'a> AsRef<[u8]> for CompressedChunk<'a> {
    fn as_ref(&self) -> (r: &[u8])
        ensures
            r@ == self@,
    {
        self.0
    }
}

impl<'a> core::borrow::Borrow<[u8]> for CompressedChunk<'a> {
    fn borrow(&self) -> &[u8] {
        self.0
    }
}

/// What a header table entry leads to (`Empty`: no chunk is stored there).
#[derive(Debug, Clone, Copy)]
pub enum RawChunkData<'a> {
    Empty,
    Chunk { bytes: CompressedChunk<'a>, offset_sector: u32, timestamp: u32, compression: ChunkCompression },
    External { offset_sector: u32, timestamp: u32, compression: ChunkCompression },
}

/// Decompressed bytes together with the codec they were stored with.
pub struct DecompressedChunk<'a> {
    bytes: &'a [u8],
    compression: ChunkCompression,
}

impl<'a> DecompressedChunk<'a> {
    pub fn new(bytes: &'a [u8], compression: ChunkCompression) -> (r: Self)
        ensures
            r.spec_bytes() == bytes@,
            r.spec_compression() == compression,
    {
        DecompressedChunk { bytes, compression }
    }

    pub closed spec fn spec_bytes(&self) -> Seq<u8> {
        self.bytes@
    }

    pub closed spec fn spec_compression(&self) -> ChunkCompression {
        self.compression
    }

    pub fn get_bytes(&self) -> (r: &'a [u8])
        ensures
            r@ == self.spec_bytes(),
    {
        self.bytes
    }

    pub fn get_compression(&self) -> (r: ChunkCompression)
        ensures
            r == self.spec_compression(),
    {
        self.compression
    }
}

} // verus!
