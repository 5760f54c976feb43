//! Writing chunk records into the bytes of a region file.
use vstd::prelude::*;

use crate::allocator::{
    canonical, free_sectors, is_floor_key, keys_at_least, lemma_allocate_result,
    lemma_allocate_takes_free_sectors,
    lemma_free_returns_sectors, lemma_free_within, lemma_keys_at_least_preserved,
    lemma_mark_allocated_takes_free_sectors, lemma_new_allocator, runs_in_range, sector_range,
    spec_allocate, spec_free, spec_mark_allocated, BTreeFreeSectorAllocator,
};
use crate::mcregion::{
    be24, be32, be32_bytes, chunk_idx_fast, compression_byte, coords_accepted, lemma_be32_roundtrip,
    lemma_word_roundtrip, native_byte_order, u32_bytes, word, word_bytes, ByteOrder,
    spec_chunk_idx, spec_compression_byte, spec_compression_of, ChunkCompression, MCRegionHeader, Options,
    RegionReadError, RegionWriteError, REGION_SIZE, SECTOR_SIZE,
};
use crate::mcregion::RawChunkData;
use crate::reader::{
    spec_actual_sector_count, spec_chunk_data_raw, spec_header_offset, spec_header_sectors,
    spec_sectors_for_length, spec_timestamp, RegionReaderImpl, WrappedMCRegionReader,
};
use crate::codec::{encode_into, error_of_codec, spec_encoded};
use crate::sector_buffer::SectorBuffer;

verus! {

/// `d` with `b` written over it from index `at`.
pub open spec fn splice(d: Seq<u8>, at: int, b: Seq<u8>) -> Seq<u8> {
    d.take(at) + b + d.skip(at + b.len())
}

/// `n` rounded up to a whole number of sectors, in bytes.
pub open spec fn sector_ceil(n: int) -> int {
    (n + 4095) / 4096 * 4096
}

/// `d` extended with zero bytes up to `need` bytes, if shorter.
pub open spec fn grown(d: Seq<u8>, need: int) -> Seq<u8> {
    if need > d.len() {
        d + Seq::new((need - d.len()) as nat, |i: int| 0u8)
    } else {
        d
    }
}

/// The four bytes of a header entry for `offset` and `sectors`.
pub open spec fn header_bytes(offset: int, sectors: u8) -> Seq<u8> {
    seq![(offset / 65536) as u8, (offset / 256 % 256) as u8, (offset % 256) as u8, sectors]
}

/// The free map once the sectors that header `(offset, sectors)` describes
/// are given back, or the error met while working out which they are.
pub open spec fn spec_free_old(
    data: Seq<u8>,
    options: Options,
    m: Map<usize, usize>,
    offset: int,
    sectors: u8,
) -> Result<Map<usize, usize>, RegionReadError> {
    match spec_actual_sector_count(data, options, offset, sectors) {
        Err(e) => Err(e),
        Ok(None) => Ok(m),
        Ok(Some((o, c))) => Ok(spec_free(m, o, c)),
    }
}

/// The free map of a region whose headers `0..n` have been taken into
/// account, or the first error met on the way.
pub open spec fn spec_region_allocator(data: Seq<u8>, options: Options, n: nat) -> Result<
    Map<usize, usize>,
    RegionReadError,
>
    decreases n,
{
    if n == 0 {
        Ok(spec_mark_allocated(map![0usize => (data.len() / 4096) as usize], 0, 2).1)
    } else {
        match spec_region_allocator(data, options, (n - 1) as nat) {
            Err(e) => Err(e),
            Ok(m) => match spec_actual_sector_count(
                data,
                options,
                spec_header_offset(data, n - 1),
                spec_header_sectors(data, n - 1),
            ) {
                Err(e) => Err(e),
                Ok(None) => Ok(m),
                Ok(Some((o, c))) => Ok(spec_mark_allocated(m, o, c).1),
            },
        }
    }
}

/// Sectors that a chunk record of `field_len` length-field bytes is given.
pub open spec fn spec_record_sectors(field_len: int) -> int {
    (field_len + 5 + 4095) / 4096
}

/// Outcome of placing a record of `sectors` sectors and writing `record` at
/// its start and its header entry for chunk `idx`: the result, the bytes and
/// the free map afterwards.
pub open spec fn spec_place_record(
    data: Seq<u8>,
    m: Map<usize, usize>,
    idx: int,
    sectors: usize,
    header_sectors: u8,
    record: Seq<u8>,
    ok: usize,
) -> (Result<usize, RegionWriteError>, Seq<u8>, Map<usize, usize>) {
    let (a, m2) = spec_allocate(m, sectors);
    let offset: int = match a {
        Some(o) => o as int,
        None => (data.len() / 4096) as int,
    };
    if offset > 0xFFFFFF {
        (Err(RegionWriteError::NotEnoguhFreeSectors), data, m2)
    } else {
        let base = offset * 4096;
        let need = sector_ceil(base + record.len());
        if need > isize::MAX {
            (Err(RegionWriteError::NotEnoguhFreeSectors), data, m2)
        } else {
            let d1 = splice(grown(data, need), base, record);
            (Ok(ok), splice(d1, 4 * idx, header_bytes(offset, header_sectors)), m2)
        }
    }
}

/// Outcome of `write_chunk_data_compressed_unchecked` on chunk `idx`.
pub open spec fn spec_write_compressed(
    data: Seq<u8>,
    options: Options,
    m: Map<usize, usize>,
    idx: int,
    payload: Seq<u8>,
    comp: ChunkCompression,
) -> (Result<usize, RegionWriteError>, Seq<u8>, Map<usize, usize>) {
    match spec_free_old(
        data,
        options,
        m,
        spec_header_offset(data, idx),
        spec_header_sectors(data, idx),
    ) {
        Err(e) => (Err(RegionWriteError::ReadingError(e)), data, m),
        Ok(m1) => {
            let field_len: int = payload.len() as int + 1;
            if field_len > u32::MAX {
                (Err(RegionWriteError::UnrepresentableChunkLength(field_len as usize)), data, m1)
            } else {
                let sc = spec_record_sectors(field_len);
                if sc > 255 && !options.allow_oversized_chunks {
                    (Err(RegionWriteError::OversizedChunk(sc as usize)), data, m1)
                } else {
                    spec_place_record(
                        data,
                        m1,
                        idx,
                        sc as usize,
                        if sc > 255 {
                            255u8
                        } else {
                            sc as u8
                        },
                        be32_bytes(field_len) + seq![spec_compression_byte(comp)] + payload,
                        payload.len() as usize,
                    )
                }
            }
        }
    }
}

/// Outcome of `write_chunk_external_unchecked` on chunk `idx` (before the
/// timestamp is written).
pub open spec fn spec_write_external(
    data: Seq<u8>,
    options: Options,
    m: Map<usize, usize>,
    idx: int,
    comp: ChunkCompression,
) -> (Result<usize, RegionWriteError>, Seq<u8>, Map<usize, usize>) {
    match spec_free_old(
        data,
        options,
        m,
        spec_header_offset(data, idx),
        spec_header_sectors(data, idx),
    ) {
        Err(e) => (Err(RegionWriteError::ReadingError(e)), data, m),
        Ok(m1) => spec_place_record(
            data,
            m1,
            idx,
            1,
            1,
            be32_bytes(1) + seq![spec_compression_byte(comp)],
            0,
        ),
    }
}

proof fn lemma_region_allocator_err_stays(data: Seq<u8>, options: Options, n: nat, k: nat)
    requires
        n <= k,
        spec_region_allocator(data, options, n) is Err,
    ensures
        spec_region_allocator(data, options, k) == spec_region_allocator(data, options, n),
    decreases k,
{
    if k > n {
        lemma_region_allocator_err_stays(data, options, n, (k - 1) as nat);
    }
}

proof fn lemma_splice_adjacent(d: Seq<u8>, at: int, a: Seq<u8>, b: Seq<u8>)
    requires
        0 <= at,
        at + a.len() + b.len() <= d.len(),
    ensures
        splice(splice(d, at, a), at + a.len(), b) =~= splice(d, at, a + b),
{
}

proof fn lemma_sector_ceil(n: int)
    requires
        0 <= n,
    ensures
        sector_ceil(n) >= n,
        sector_ceil(n) % 4096 == 0,
        sector_ceil(n) < n + 4096,
{
    assert((n + 4095) / 4096 * 4096 >= n && (n + 4095) / 4096 * 4096 % 4096 == 0 && (n + 4095)
        / 4096 * 4096 < n + 4096) by (nonlinear_arith)
        requires
            0 <= n,
    ;
}

/// The sector counts that `actual_sector_count` gives are small.
proof fn lemma_actual_sector_count_small(data: Seq<u8>, options: Options, offset: int, sectors: u8)
    requires
        0 <= offset <= 0xFFFFFF,
        forall|i: int| 0 <= i < data.len() ==> data[i] <= 255,
    ensures
        spec_actual_sector_count(data, options, offset, sectors) matches Ok(Some((o, c))) ==> 2
            <= o <= 0xFFFFFF && c <= 0x100001,
{
    if offset >= 2 && sectors == 255 && options.allow_oversized_chunks && offset * 4096 + 4
        <= data.len() {
        let b = offset * 4096;
        assert(be32(data, b) <= u32::MAX);
    }
}

/// A region being written: its bytes, settings and free sectors.
pub struct MCRegionWriter {
    options: Options,
    order: ByteOrder,
    data: SectorBuffer,
    allocator: BTreeFreeSectorAllocator,
}

impl MCRegionWriter {
    pub closed spec fn spec_data(&self) -> Seq<u8> {
        self.data@
    }

    pub closed spec fn spec_options(&self) -> Options {
        self.options
    }

    /// The byte order in which the timestamps are written and read: the
    /// machine's, found when the writer was made.
    pub closed spec fn spec_order(&self) -> ByteOrder {
        self.order
    }

    /// The free runs, keyed by first sector.
    pub closed spec fn spec_free_map(&self) -> Map<usize, usize> {
        self.allocator@
    }

    /// The bytes hold the two table sectors and whole sectors only, the free
    /// map is well formed and never reaches into the tables.
    pub closed spec fn wf(&self) -> bool {
        &&& self.allocator.wf()
        &&& self.data@.len() >= 8192
        &&& self.data@.len() % 4096 == 0
        &&& keys_at_least(self.allocator@, 2)
    }

    pub proof fn lemma_wf(&self)
        requires
            self.wf(),
        ensures
            self.spec_data().len() >= 8192,
            self.spec_data().len() % 4096 == 0,
            keys_at_least(self.spec_free_map(), 2),
            runs_in_range(self.spec_free_map()),
    {
        self.allocator.lemma_wf_runs_in_range();
    }

    /// An empty region: two zeroed table sectors and no free sector.
    pub fn new(options: Options) -> (r: Self)
        ensures
            r.wf(),
            r.spec_options() == options,
            r.spec_data() == Seq::new(8192, |i: int| 0u8),
            r.spec_free_map() == Map::<usize, usize>::empty(),
    {
        let mut data = SectorBuffer::with_capacity(SECTOR_SIZE * 2);
        data.resize(SECTOR_SIZE * 2, 0);
        let mut allocator = BTreeFreeSectorAllocator::new(2).unwrap();
        allocator.mark_allocated(0, 2);
        proof {
            let m = map![0usize => 2usize];
            assert(is_floor_key(m, 0, 0));
            let k = choose|k: usize| is_floor_key(m, 0, k);
            assert(k == 0);
            assert(allocator@ =~= Map::<usize, usize>::empty());
            assert(data@ =~= Seq::new(8192, |i: int| 0u8));
        }
        let order = native_byte_order();
        Self { options, order, data, allocator }
    }

    /// Free sectors of `data`: everything past the two table sectors that no
    /// header claims.
    fn build_allocator(options: Options, data: &SectorBuffer) -> (r: Result<
        BTreeFreeSectorAllocator,
        RegionReadError,
    >)
        ensures
            data@.len() < 8192 ==> r == Err::<BTreeFreeSectorAllocator, RegionReadError>(
                RegionReadError::MissingHeaders,
            ),
            data@.len() >= 8192 && data@.len() % 4096 != 0 ==> r == Err::<
                BTreeFreeSectorAllocator,
                RegionReadError,
            >(RegionReadError::InvalidBackingBufferSize(data@.len() as usize)),
            data@.len() >= 8192 && data@.len() % 4096 == 0 ==> match r {
                Ok(a) => a.wf() && keys_at_least(a@, 2) && spec_region_allocator(
                    data@,
                    options,
                    1024,
                ) == Ok::<Map<usize, usize>, RegionReadError>(a@),
                Err(e) => spec_region_allocator(data@, options, 1024) == Err::<
                    Map<usize, usize>,
                    RegionReadError,
                >(e),
            },
    {
        let len = data.len();
        if len < 2 * SECTOR_SIZE {
            return Err(RegionReadError::MissingHeaders);
        }
        if len % SECTOR_SIZE != 0 {
            return Err(RegionReadError::InvalidBackingBufferSize(len));
        }
        let mut allocator = BTreeFreeSectorAllocator::new(len / SECTOR_SIZE).unwrap();
        allocator.mark_allocated(0, 2);
        let bytes = data.as_slice();
        let reader = WrappedMCRegionReader::new(bytes, &options, ByteOrder::Big);
        proof {
            let n = (len / 4096) as usize;
            let m = map![0usize => n];
            assert(is_floor_key(m, 0, 0));
            let k = choose|k: usize| is_floor_key(m, 0, k);
            assert(k == 0);
            assert(keys_at_least(allocator@, 2));
            allocator.lemma_wf_runs_in_range();
        }
        let mut i: usize = 0;
        while i < 1024
            invariant
                i <= 1024,
                bytes@ == data@,
                bytes@.len() >= 8192,
                reader.reader_wf(),
                reader.spec_data() == bytes@,
                reader.spec_options() == options,
                data@.len() % 4096 == 0,
                allocator.wf(),
                keys_at_least(allocator@, 2),
                spec_region_allocator(data@, options, i as nat) == Ok::<
                    Map<usize, usize>,
                    RegionReadError,
                >(allocator@),
            decreases 1024 - i,
        {
            let header = reader.get_header_unchecked((i % 32) as u8, (i / 32) as u8);
            proof {
                assert(spec_chunk_idx((i % 32) as u8, (i / 32) as u8) == i);
                assert(header.0@[0] == bytes@[4 * i as int]);
                assert(header.0@[1] == bytes@[4 * i + 1]);
                assert(header.0@[2] == bytes@[4 * i + 2]);
                assert(header.0@[3] == bytes@[4 * i + 3]);
                assert(header.spec_offset() == spec_header_offset(data@, i as int));
                lemma_actual_sector_count_small(data@, options, header.spec_offset(), header.spec_sector_count());
                allocator.lemma_wf_runs_in_range();
            }
            match reader.actual_sector_count(&header) {
                Err(e) => {
                    proof {
                        lemma_region_allocator_err_stays(data@, options, (i + 1) as nat, 1024);
                    }
                    return Err(e);
                },
                Ok(None) => {},
                Ok(Some((offset, sectors))) => {
                    proof {
                        lemma_keys_at_least_preserved(allocator@, 2, offset, sectors);
                    }
                    allocator.mark_allocated(offset, sectors);
                },
            }
            i = i + 1;
        }
        Ok(allocator)
    }

    /// A writer over the bytes of `data`, provided they form a region file.
    pub fn from_aligned_vec(options: Options, data: SectorBuffer) -> (r: Result<Self, RegionReadError>)
        ensures
            data@.len() < 8192 ==> r is Err && r->Err_0 == RegionReadError::MissingHeaders,
            data@.len() >= 8192 && data@.len() % 4096 != 0 ==> r is Err && r->Err_0
                == RegionReadError::InvalidBackingBufferSize(data@.len() as usize),
            data@.len() >= 8192 && data@.len() % 4096 == 0 ==> match r {
                Ok(w) => w.wf() && w.spec_data() == data@ && w.spec_options() == options
                    && spec_region_allocator(data@, options, 1024) == Ok::<
                    Map<usize, usize>,
                    RegionReadError,
                >(w.spec_free_map()),
                Err(e) => spec_region_allocator(data@, options, 1024) == Err::<
                    Map<usize, usize>,
                    RegionReadError,
                >(e),
            },
    {
        if data.len() < 2 * SECTOR_SIZE {
            return Err(RegionReadError::MissingHeaders);
        }
        if data.len() % SECTOR_SIZE != 0 {
            return Err(RegionReadError::InvalidBackingBufferSize(data.len()));
        }
        let allocator = Self::build_allocator(options, &data)?;
        let order = native_byte_order();
        Ok(Self { options, order, data, allocator })
    }

    /// A writer over a copy of `bytes`, provided they form a region file.
    pub fn new_from_slice(options: Options, bytes: &[u8]) -> (r: Result<Self, RegionReadError>)
        ensures
            bytes@.len() < 8192 ==> r is Err && r->Err_0 == RegionReadError::MissingHeaders,
            bytes@.len() >= 8192 && bytes@.len() % 4096 != 0 ==> r is Err && r->Err_0
                == RegionReadError::InvalidBackingBufferSize(bytes@.len() as usize),
            bytes@.len() >= 8192 && bytes@.len() % 4096 == 0 ==> match r {
                Ok(w) => w.wf() && w.spec_data() == bytes@ && w.spec_options() == options
                    && spec_region_allocator(bytes@, options, 1024) == Ok::<
                    Map<usize, usize>,
                    RegionReadError,
                >(w.spec_free_map()),
                Err(e) => spec_region_allocator(bytes@, options, 1024) == Err::<
                    Map<usize, usize>,
                    RegionReadError,
                >(e),
            },
    {
        let data = SectorBuffer::from_slice(bytes);
        let allocator = Self::build_allocator(options, &data)?;
        let order = native_byte_order();
        Ok(Self { options, order, data, allocator })
    }

    /// A writer over the bytes of `bytes`, provided they form a region file.
    pub fn new_from_owned_bytes(options: Options, bytes: Box<[u8]>) -> (r: Result<Self, RegionReadError>)
        ensures
            bytes@.len() < 8192 ==> r is Err && r->Err_0 == RegionReadError::MissingHeaders,
            bytes@.len() >= 8192 && bytes@.len() % 4096 != 0 ==> r is Err && r->Err_0
                == RegionReadError::InvalidBackingBufferSize(bytes@.len() as usize),
            bytes@.len() >= 8192 && bytes@.len() % 4096 == 0 ==> match r {
                Ok(w) => w.wf() && w.spec_data() == bytes@ && w.spec_options() == options
                    && spec_region_allocator(bytes@, options, 1024) == Ok::<
                    Map<usize, usize>,
                    RegionReadError,
                >(w.spec_free_map()),
                Err(e) => spec_region_allocator(bytes@, options, 1024) == Err::<
                    Map<usize, usize>,
                    RegionReadError,
                >(e),
            },
    {
        if bytes.len() < 2 * SECTOR_SIZE {
            return Err(RegionReadError::MissingHeaders);
        }
        if bytes.len() % SECTOR_SIZE != 0 {
            return Err(RegionReadError::InvalidBackingBufferSize(bytes.len()));
        }
        Self::new_from_slice(options, &bytes)
    }

    /// A reader over the bytes being written.
    pub fn reader<'a>(&'a self) -> (r: WrappedMCRegionReader<'a>)
        requires
            self.wf(),
        ensures
            r.reader_wf(),
            r.spec_data() == self.spec_data(),
            r.spec_options() == self.spec_options(),
            r.spec_order() == self.spec_order(),
    {
        WrappedMCRegionReader::new(self.data.as_slice(), &self.options, self.order)
    }

    /// The header entry of chunk `(x, z)`.
    pub fn get_header_unchecked(&self, x: u8, z: u8) -> (r: MCRegionHeader)
        requires
            self.wf(),
        ensures
            r.0@ == self.spec_data().subrange(
                4 * spec_chunk_idx(x, z),
                4 * spec_chunk_idx(x, z) + 4,
            ),
            r.spec_offset() == spec_header_offset(self.spec_data(), spec_chunk_idx(x, z)),
            r.spec_sector_count() == spec_header_sectors(self.spec_data(), spec_chunk_idx(x, z)),
    {
        let reader = self.reader();
        let h = reader.get_header_unchecked(x, z);
        proof {
            let d = self.spec_data();
            let idx = spec_chunk_idx(x, z);
            assert(h.0@[0] == d[4 * idx]);
            assert(h.0@[1] == d[4 * idx + 1]);
            assert(h.0@[2] == d[4 * idx + 2]);
        }
        h
    }

    /// Writes `bytes` over the region bytes from `at`.
    fn write_bytes(&mut self, at: usize, bytes: &[u8])
        requires
            at + bytes@.len() <= old(self).spec_data().len(),
        ensures
            final(self).spec_data() == splice(old(self).spec_data(), at as int, bytes@),
            final(self).options == old(self).options,
            final(self).order == old(self).order,
            final(self).allocator == old(self).allocator,
    {
        let ghost d0 = self.data@;
        let _total = self.data.len();
        let mut i: usize = 0;
        while i < bytes.len()
            invariant
                i <= bytes@.len(),
                at + bytes@.len() <= d0.len(),
                d0.len() <= usize::MAX,
                self.data@ == splice(d0, at as int, bytes@.take(i as int)),
                self.options == old(self).options,
                self.order == old(self).order,
                self.allocator == old(self).allocator,
            decreases bytes@.len() - i,
        {
            assert(self.data@.len() == d0.len());
            self.data.set(at + i, bytes[i]);
            assert(self.data@ =~= splice(d0, at as int, bytes@.take(i + 1)));
            i = i + 1;
        }
        assert(bytes@.take(bytes@.len() as int) =~= bytes@);
    }

    /// Grows the region bytes with zeros up to `need` bytes.
    fn grow_to(&mut self, need: usize)
        requires
            need <= isize::MAX,
        ensures
            final(self).spec_data() == grown(old(self).spec_data(), need as int),
            final(self).options == old(self).options,
            final(self).order == old(self).order,
            final(self).allocator == old(self).allocator,
    {
        if need > self.data.len() {
            self.data.resize(need, 0);
        }
    }

    /// Writes `header` as the header entry of chunk `(x, z)`.
    pub fn set_header_unchecked(&mut self, x: u8, z: u8, header: MCRegionHeader)
        requires
            old(self).wf(),
        ensures
            final(self).wf(),
            final(self).spec_data() == splice(
                old(self).spec_data(),
                4 * spec_chunk_idx(x, z),
                header.0@,
            ),
            final(self).spec_options() == old(self).spec_options(),
            final(self).spec_order() == old(self).spec_order(),
            final(self).spec_free_map() == old(self).spec_free_map(),
    {
        let idx = chunk_idx_fast(x, z);
        self.write_bytes(4 * idx, header.0.as_slice());
    }

    /// Writes `timestamp`, big-endian, as the timestamp of chunk `(x, z)`.
    pub fn set_timestamp_unchecked(&mut self, x: u8, z: u8, timestamp: u32)
        requires
            old(self).wf(),
        ensures
            final(self).wf(),
            final(self).spec_data() == splice(
                old(self).spec_data(),
                4096 + 4 * spec_chunk_idx(x, z),
                word_bytes(timestamp as int, old(self).spec_order()),
            ),
            final(self).spec_options() == old(self).spec_options(),
            final(self).spec_order() == old(self).spec_order(),
            final(self).spec_free_map() == old(self).spec_free_map(),
    {
        let idx = chunk_idx_fast(x, z);
        let bytes = u32_bytes(timestamp, self.order);
        self.write_bytes(4096 + 4 * idx, bytes.as_slice());
    }

    /// Gives the sectors that `header` describes back to the free runs.
    fn helper_free_old(&mut self, header: MCRegionHeader) -> (r: Result<(), RegionWriteError>)
        requires
            old(self).wf(),
            header.spec_offset() <= 0xFFFFFF,
        ensures
            final(self).wf(),
            final(self).spec_data() == old(self).spec_data(),
            final(self).spec_options() == old(self).spec_options(),
            final(self).spec_order() == old(self).spec_order(),
            match spec_free_old(
                old(self).spec_data(),
                old(self).spec_options(),
                old(self).spec_free_map(),
                header.spec_offset(),
                header.spec_sector_count(),
            ) {
                Err(e) => r == Err::<(), RegionWriteError>(RegionWriteError::ReadingError(e))
                    && final(self).spec_free_map() == old(self).spec_free_map(),
                Ok(m) => r is Ok && final(self).spec_free_map() == m,
            },
    {
        let res = {
            let reader = self.reader();
            reader.actual_sector_count(&header)
        };
        proof {
            lemma_actual_sector_count_small(
                self.data@,
                self.options,
                header.spec_offset(),
                header.spec_sector_count(),
            );
        }
        match res {
            Err(e) => Err(RegionWriteError::ReadingError(e)),
            Ok(None) => Ok(()),
            Ok(Some((offset, count))) => {
                proof {
                    self.allocator.lemma_wf_runs_in_range();
                    lemma_keys_at_least_preserved(self.allocator@, 2, offset, count);
                }
                self.allocator.free(offset, count);
                Ok(())
            },
        }
    }
    /// Places a record of `sectors` sectors (taken from the free runs, or at
    /// the end of the region when no run is large enough): grows the bytes to
    /// whole sectors, writes the length field, the compression byte and the
    /// payload, and points the header entry of `(x, z)` at it.
    fn place_record(
        &mut self,
        x: u8,
        z: u8,
        sectors: usize,
        header_sectors: u8,
        field_len: u32,
        cb: u8,
        payload: &[u8],
        ok: usize,
    ) -> (r: Result<usize, RegionWriteError>)
        requires
            old(self).wf(),
            payload@.len() <= u32::MAX,
        ensures
            final(self).wf(),
            final(self).spec_options() == old(self).spec_options(),
            final(self).spec_order() == old(self).spec_order(),
            (r, final(self).spec_data(), final(self).spec_free_map()) == spec_place_record(
                old(self).spec_data(),
                old(self).spec_free_map(),
                spec_chunk_idx(x, z),
                sectors,
                header_sectors,
                be32_bytes(field_len as int) + seq![cb] + payload@,
                ok,
            ),
    {
        let ghost d = self.data@;
        let ghost m = self.allocator@;
        let ghost idx = spec_chunk_idx(x, z);
        let ghost record = be32_bytes(field_len as int) + seq![cb] + payload@;
        proof {
            self.allocator.lemma_wf_runs_in_range();
            lemma_keys_at_least_preserved(m, 2, 0, sectors);
        }
        let a = self.allocator.allocate(sectors);
        let offset = match a {
            Some(o) => o,
            None => self.data.len() / SECTOR_SIZE,
        };
        let new_header = match MCRegionHeader::new(offset, header_sectors) {
            Some(h) => h,
            None => {
                return Err(RegionWriteError::NotEnoguhFreeSectors);
            },
        };
        let base_wide = offset as u64 * 4096;
        let end_wide = base_wide + 5 + payload.len() as u64;
        let need_wide = (end_wide + 4095) / 4096 * 4096;
        if need_wide > isize::MAX as u64 {
            return Err(RegionWriteError::NotEnoguhFreeSectors);
        }
        proof {
            lemma_sector_ceil(end_wide as int);
            assert(record.len() == 5 + payload@.len());
        }
        let base = base_wide as usize;
        let need = need_wide as usize;
        self.grow_to(need);
        let ghost g = self.data@;
        let length_field = be_bytes(field_len);
        self.write_bytes(base, length_field.as_slice());
        let compression_field = [cb];
        self.write_bytes(base + 4, compression_field.as_slice());
        self.write_bytes(base + 5, payload);
        proof {
            assert(compression_field@ =~= seq![cb]);
            lemma_splice_adjacent(g, base as int, be32_bytes(field_len as int), seq![cb]);
            lemma_splice_adjacent(
                g,
                base as int,
                be32_bytes(field_len as int) + seq![cb],
                payload@,
            );
            assert(self.data@ == splice(g, base as int, record));
            assert(self.data@.len() % 4096 == 0);
        }
        self.set_header_unchecked(x, z, new_header);
        proof {
            assert(new_header.0@ == header_bytes(offset as int, header_sectors));
        }
        Ok(ok)
    }

    /// Stores `compressed_data`, compressed with `compression`, as the record
    /// of chunk `(x, z)`, after giving back the sectors of the record it had.
    /// Returns the number of payload bytes written.
    pub fn write_chunk_data_compressed_unchecked(
        &mut self,
        x: u8,
        z: u8,
        compressed_data: &[u8],
        compression: ChunkCompression,
    ) -> (r: Result<usize, RegionWriteError>)
        requires
            old(self).wf(),
            compressed_data@.len() < usize::MAX,
        ensures
            final(self).wf(),
            final(self).spec_options() == old(self).spec_options(),
            final(self).spec_order() == old(self).spec_order(),
            (r, final(self).spec_data(), final(self).spec_free_map()) == spec_write_compressed(
                old(self).spec_data(),
                old(self).spec_options(),
                old(self).spec_free_map(),
                spec_chunk_idx(x, z),
                compressed_data@,
                compression,
            ),
    {
        let old_header = self.get_header_unchecked(x, z);
        self.helper_free_old(old_header)?;
        let field_len = 1 + compressed_data.len();
        if field_len > u32::MAX as usize {
            return Err(RegionWriteError::UnrepresentableChunkLength(field_len));
        }
        let sector_count = ((field_len as u64 + 5 + 4095) / 4096) as usize;
        if sector_count > 255 && !self.options.allow_oversized_chunks {
            return Err(RegionWriteError::OversizedChunk(sector_count));
        }
        let header_sectors: u8 = if sector_count > 255 {
            255
        } else {
            sector_count as u8
        };
        let cb = compression_byte(compression);
        self.place_record(
            x,
            z,
            sector_count,
            header_sectors,
            field_len as u32,
            cb,
            compressed_data,
            compressed_data.len(),
        )
    }

    /// As `write_chunk_data_compressed_unchecked`, for accepted coordinates only.
    pub fn write_chunk_data_compressed(
        &mut self,
        x: u8,
        z: u8,
        compressed_data: &[u8],
        compression: ChunkCompression,
    ) -> (r: Result<usize, RegionWriteError>)
        requires
            old(self).wf(),
            compressed_data@.len() < usize::MAX,
        ensures
            final(self).wf(),
            final(self).spec_options() == old(self).spec_options(),
            final(self).spec_order() == old(self).spec_order(),
            !coords_accepted(x, z) ==> r == Err::<usize, RegionWriteError>(
                RegionWriteError::InvalidChunkCoords(x, z),
            ) && final(self).spec_data() == old(self).spec_data() && final(self).spec_free_map()
                == old(self).spec_free_map(),
            coords_accepted(x, z) ==> (r, final(self).spec_data(), final(self).spec_free_map())
                == spec_write_compressed(
                old(self).spec_data(),
                old(self).spec_options(),
                old(self).spec_free_map(),
                spec_chunk_idx(x, z),
                compressed_data@,
                compression,
            ),
    {
        if x <= REGION_SIZE && z <= REGION_SIZE {
            self.write_chunk_data_compressed_unchecked(x, z, compressed_data, compression)
        } else {
            Err(RegionWriteError::InvalidChunkCoords(x, z))
        }
    }

    /// Compresses `uncompressed_data` with `compression` (at
    /// `compression_level` for gzip and zlib), writes `timestamp` if given,
    /// and stores the result as the record of chunk `(x, z)`.
    pub fn write_chunk_data_uncompressed_unchecked(
        &mut self,
        x: u8,
        z: u8,
        uncompressed_data: &[u8],
        compression: ChunkCompression,
        compression_level: u32,
        timestamp: Option<u32>,
    ) -> (r: Result<usize, RegionWriteError>)
        requires
            old(self).wf(),
            compression_level <= 9,
            uncompressed_data@.len() < usize::MAX,
        ensures
            final(self).wf(),
            final(self).spec_options() == old(self).spec_options(),
            final(self).spec_order() == old(self).spec_order(),
            !spec_encoded(uncompressed_data@, compression, compression_level).0 ==> (r matches Err(
                RegionWriteError::CompressionError(e),
            ) && error_of_codec(e, compression)) && final(self).spec_data() == old(
                self,
            ).spec_data() && final(self).spec_free_map() == old(self).spec_free_map(),
            spec_encoded(uncompressed_data@, compression, compression_level).0 ==> (
            r,
            final(self).spec_data(),
            final(self).spec_free_map(),
            ) == spec_write_compressed(
                match timestamp {
                    Some(t) => splice(
                        old(self).spec_data(),
                        4096 + 4 * spec_chunk_idx(x, z),
                        word_bytes(t as int, old(self).spec_order()),
                    ),
                    None => old(self).spec_data(),
                },
                old(self).spec_options(),
                old(self).spec_free_map(),
                spec_chunk_idx(x, z),
                spec_encoded(uncompressed_data@, compression, compression_level).1,
                compression,
            ),
    {
        let mut compressed_data: Vec<u8> = Vec::new();
        let raw = matches!(compression, ChunkCompression::Uncompressed);
        if !raw {
            match encode_into(uncompressed_data, compression, compression_level, &mut compressed_data) {
                Err(e) => {
                    return Err(RegionWriteError::CompressionError(e));
                },
                Ok(()) => {},
            }
            assert(compressed_data@ =~= spec_encoded(
                uncompressed_data@,
                compression,
                compression_level,
            ).1);
        }
        if let Some(timestamp) = timestamp {
            self.set_timestamp_unchecked(x, z, timestamp);
        }
        if raw {
            self.write_chunk_data_compressed_unchecked(x, z, uncompressed_data, compression)
        } else {
            self.write_chunk_data_compressed_unchecked(
                x,
                z,
                compressed_data.as_slice(),
                compression,
            )
        }
    }

    /// As `write_chunk_data_uncompressed_unchecked`, for accepted coordinates only.
    pub fn write_chunk_data_uncompressed(
        &mut self,
        x: u8,
        z: u8,
        uncompressed_data: &[u8],
        compression: ChunkCompression,
        compression_level: u32,
        timestamp: Option<u32>,
    ) -> (r: Result<usize, RegionWriteError>)
        requires
            old(self).wf(),
            compression_level <= 9,
            uncompressed_data@.len() < usize::MAX,
        ensures
            final(self).wf(),
            final(self).spec_options() == old(self).spec_options(),
            final(self).spec_order() == old(self).spec_order(),
            !coords_accepted(x, z) ==> r == Err::<usize, RegionWriteError>(
                RegionWriteError::InvalidChunkCoords(x, z),
            ) && final(self).spec_data() == old(self).spec_data() && final(self).spec_free_map()
                == old(self).spec_free_map(),
            coords_accepted(x, z) && !spec_encoded(
                uncompressed_data@,
                compression,
                compression_level,
            ).0 ==> (r matches Err(RegionWriteError::CompressionError(e)) && error_of_codec(
                e,
                compression,
            )) && final(self).spec_data() == old(self).spec_data() && final(self).spec_free_map()
                == old(self).spec_free_map(),
            coords_accepted(x, z) && spec_encoded(
                uncompressed_data@,
                compression,
                compression_level,
            ).0 ==> (r, final(self).spec_data(), final(self).spec_free_map())
                == spec_write_compressed(
                match timestamp {
                    Some(t) => splice(
                        old(self).spec_data(),
                        4096 + 4 * spec_chunk_idx(x, z),
                        word_bytes(t as int, old(self).spec_order()),
                    ),
                    None => old(self).spec_data(),
                },
                old(self).spec_options(),
                old(self).spec_free_map(),
                spec_chunk_idx(x, z),
                spec_encoded(uncompressed_data@, compression, compression_level).1,
                compression,
            ),
    {
        if x <= REGION_SIZE && z <= REGION_SIZE {
            self.write_chunk_data_uncompressed_unchecked(
                x,
                z,
                uncompressed_data,
                compression,
                compression_level,
                timestamp,
            )
        } else {
            Err(RegionWriteError::InvalidChunkCoords(x, z))
        }
    }

    /// Marks chunk `(x, z)` as stored outside the region: a one-sector record
    /// holding a length of 1 and the compression byte. The timestamp, if
    /// given, is written once the record is in place.
    pub fn write_chunk_external_unchecked(
        &mut self,
        x: u8,
        z: u8,
        compression: ChunkCompression,
        timestamp: Option<u32>,
    ) -> (r: Result<(), RegionWriteError>)
        requires
            old(self).wf(),
        ensures
            final(self).wf(),
            final(self).spec_options() == old(self).spec_options(),
            final(self).spec_order() == old(self).spec_order(),
            ({
                let (sr, sd, sm) = spec_write_external(
                    old(self).spec_data(),
                    old(self).spec_options(),
                    old(self).spec_free_map(),
                    spec_chunk_idx(x, z),
                    compression,
                );
                &&& final(self).spec_free_map() == sm
                &&& sr is Ok <==> r is Ok
                &&& sr matches Err(e) ==> r == Err::<(), RegionWriteError>(e)
                    && final(self).spec_data() == sd
                &&& sr is Ok ==> final(self).spec_data() == match timestamp {
                    Some(t) => splice(
                        sd,
                        4096 + 4 * spec_chunk_idx(x, z),
                        word_bytes(t as int, old(self).spec_order()),
                    ),
                    None => sd,
                }
            }),
    {
        let old_header = self.get_header_unchecked(x, z);
        self.helper_free_old(old_header)?;
        let cb = compression_byte(compression);
        let empty: [u8; 0] = [];
        let placed = self.place_record(x, z, 1, 1, 1, cb, empty.as_slice(), 0);
        proof {
            assert(be32_bytes(1) + seq![cb] + empty@ =~= be32_bytes(1) + seq![cb]);
        }
        match placed {
            Err(e) => Err(e),
            Ok(_) => {
                if let Some(timestamp) = timestamp {
                    self.set_timestamp_unchecked(x, z, timestamp);
                }
                Ok(())
            },
        }
    }

    /// As `write_chunk_external_unchecked`, for accepted coordinates only.
    pub fn write_chunk_external(
        &mut self,
        x: u8,
        z: u8,
        compression: ChunkCompression,
        timestamp: Option<u32>,
    ) -> (r: Result<(), RegionWriteError>)
        requires
            old(self).wf(),
        ensures
            final(self).wf(),
            final(self).spec_options() == old(self).spec_options(),
            final(self).spec_order() == old(self).spec_order(),
            !coords_accepted(x, z) ==> r == Err::<(), RegionWriteError>(
                RegionWriteError::InvalidChunkCoords(x, z),
            ) && final(self).spec_data() == old(self).spec_data() && final(self).spec_free_map()
                == old(self).spec_free_map(),
            coords_accepted(x, z) ==> ({
                let (sr, sd, sm) = spec_write_external(
                    old(self).spec_data(),
                    old(self).spec_options(),
                    old(self).spec_free_map(),
                    spec_chunk_idx(x, z),
                    compression,
                );
                &&& final(self).spec_free_map() == sm
                &&& sr is Ok <==> r is Ok
                &&& sr matches Err(e) ==> r == Err::<(), RegionWriteError>(e)
                    && final(self).spec_data() == sd
                &&& sr is Ok ==> final(self).spec_data() == match timestamp {
                    Some(t) => splice(
                        sd,
                        4096 + 4 * spec_chunk_idx(x, z),
                        word_bytes(t as int, old(self).spec_order()),
                    ),
                    None => sd,
                }
            }),
    {
        if x <= REGION_SIZE && z <= REGION_SIZE {
            self.write_chunk_external_unchecked(x, z, compression, timestamp)
        } else {
            Err(RegionWriteError::InvalidChunkCoords(x, z))
        }
    }

    /// Gives back the sectors of the record of chunk `(x, z)` and zeroes its
    /// timestamp. The header entry itself is left as it was.
    pub fn write_chunk_free_unchecked(&mut self, x: u8, z: u8) -> (r: Result<(), RegionWriteError>)
        requires
            old(self).wf(),
        ensures
            final(self).wf(),
            final(self).spec_options() == old(self).spec_options(),
            final(self).spec_order() == old(self).spec_order(),
            match spec_free_old(
                old(self).spec_data(),
                old(self).spec_options(),
                old(self).spec_free_map(),
                spec_header_offset(old(self).spec_data(), spec_chunk_idx(x, z)),
                spec_header_sectors(old(self).spec_data(), spec_chunk_idx(x, z)),
            ) {
                Err(e) => r == Err::<(), RegionWriteError>(RegionWriteError::ReadingError(e))
                    && final(self).spec_free_map() == old(self).spec_free_map()
                    && final(self).spec_data() == old(self).spec_data(),
                Ok(m) => r is Ok && final(self).spec_free_map() == m && final(self).spec_data()
                    == splice(
                    old(self).spec_data(),
                    4096 + 4 * spec_chunk_idx(x, z),
                    word_bytes(0, old(self).spec_order()),
                ),
            },
    {
        let old_header = self.get_header_unchecked(x, z);
        self.helper_free_old(old_header)?;
        self.set_timestamp_unchecked(x, z, 0);
        Ok(())
    }

    /// As `write_chunk_free_unchecked`, for accepted coordinates only.
    pub fn write_chunk_free(&mut self, x: u8, z: u8) -> (r: Result<(), RegionWriteError>)
        requires
            old(self).wf(),
        ensures
            final(self).wf(),
            final(self).spec_options() == old(self).spec_options(),
            final(self).spec_order() == old(self).spec_order(),
            !coords_accepted(x, z) ==> r == Err::<(), RegionWriteError>(
                RegionWriteError::InvalidChunkCoords(x, z),
            ) && final(self).spec_data() == old(self).spec_data() && final(self).spec_free_map()
                == old(self).spec_free_map(),
            coords_accepted(x, z) ==> match spec_free_old(
                old(self).spec_data(),
                old(self).spec_options(),
                old(self).spec_free_map(),
                spec_header_offset(old(self).spec_data(), spec_chunk_idx(x, z)),
                spec_header_sectors(old(self).spec_data(), spec_chunk_idx(x, z)),
            ) {
                Err(e) => r == Err::<(), RegionWriteError>(RegionWriteError::ReadingError(e))
                    && final(self).spec_free_map() == old(self).spec_free_map()
                    && final(self).spec_data() == old(self).spec_data(),
                Ok(m) => r is Ok && final(self).spec_free_map() == m && final(self).spec_data()
                    == splice(
                    old(self).spec_data(),
                    4096 + 4 * spec_chunk_idx(x, z),
                    word_bytes(0, old(self).spec_order()),
                ),
            },
    {
        if x <= REGION_SIZE && z <= REGION_SIZE {
            self.write_chunk_free_unchecked(x, z)
        } else {
            Err(RegionWriteError::InvalidChunkCoords(x, z))
        }
    }

}

proof fn lemma_splice_index(d: Seq<u8>, at: int, b: Seq<u8>, i: int)
    requires
        0 <= at,
        at + b.len() <= d.len(),
        0 <= i < d.len(),
    ensures
        splice(d, at, b).len() == d.len(),
        splice(d, at, b)[i] == if at <= i < at + b.len() {
            b[i - at]
        } else {
            d[i]
        },
{
    let s = splice(d, at, b);
    assert(d.take(at).len() == at);
    if i < at {
        assert(s[i] == d.take(at)[i]);
    } else if i < at + b.len() {
        assert(s[i] == (d.take(at) + b)[i]);
    } else {
        assert(s[i] == d.skip(at + b.len())[i - at - b.len()]);
    }
}

proof fn lemma_splice_len(d: Seq<u8>, at: int, b: Seq<u8>)
    requires
        0 <= at,
        at + b.len() <= d.len(),
    ensures
        splice(d, at, b).len() == d.len(),
{
}

proof fn lemma_splice_subrange(d: Seq<u8>, at: int, b: Seq<u8>, lo: int, hi: int)
    requires
        0 <= at,
        at + b.len() <= d.len(),
        0 <= lo <= hi <= d.len(),
        hi <= at || at + b.len() <= lo,
    ensures
        splice(d, at, b).subrange(lo, hi) =~= d.subrange(lo, hi),
{
    assert forall|i: int| 0 <= i < hi - lo implies splice(d, at, b).subrange(lo, hi)[i] == d.subrange(
        lo,
        hi,
    )[i] by {
        lemma_splice_index(d, at, b, lo + i);
    }
    lemma_splice_len(d, at, b);
}

proof fn lemma_splice_inner(d: Seq<u8>, at: int, b: Seq<u8>, lo: int, hi: int)
    requires
        0 <= at,
        at + b.len() <= d.len(),
        at <= lo <= hi <= at + b.len(),
    ensures
        splice(d, at, b).subrange(lo, hi) =~= b.subrange(lo - at, hi - at),
{
    assert forall|i: int| 0 <= i < hi - lo implies splice(d, at, b).subrange(lo, hi)[i] == b.subrange(
        lo - at,
        hi - at,
    )[i] by {
        lemma_splice_index(d, at, b, lo + i);
    }
    lemma_splice_len(d, at, b);
}

proof fn lemma_header_bytes(offset: int, sectors: u8)
    requires
        0 <= offset <= 0xFFFFFF,
    ensures
        be24(header_bytes(offset, sectors), 0) == offset,
        header_bytes(offset, sectors)[3] == sectors,
{
    let h = header_bytes(offset, sectors);
    assert(h[0] == offset / 65536);
    assert(h[1] == offset / 256 % 256);
    assert(h[2] == offset % 256);
    assert(offset / 65536 * 65536 + offset / 256 % 256 * 256 + offset % 256 == offset)
        by (nonlinear_arith)
        requires
            0 <= offset <= 0xFFFFFF,
    ;
}

/// The chunk record that a successful placement leaves behind: the header
/// entry of `idx` points at a record that starts with `record`, inside the
/// bytes, in sectors past the two tables.
proof fn lemma_place_record_layout(
    data: Seq<u8>,
    m: Map<usize, usize>,
    idx: int,
    sectors: usize,
    header_sectors: u8,
    record: Seq<u8>,
    ok: usize,
) -> (offset: int)
    requires
        data.len() >= 8192,
        data.len() % 4096 == 0,
        keys_at_least(m, 2),
        0 <= idx < 1024,
        spec_place_record(data, m, idx, sectors, header_sectors, record, ok).0 is Ok,
    ensures
        ({
            let d2 = spec_place_record(data, m, idx, sectors, header_sectors, record, ok).1;
            &&& 2 <= offset <= 0xFFFFFF
            &&& d2.len() >= offset * 4096 + record.len()
            &&& d2.len() == sector_ceil(offset * 4096 + record.len()) || d2.len() == data.len()
            &&& d2.len() >= sector_ceil(offset * 4096 + record.len())
            &&& spec_header_offset(d2, idx) == offset
            &&& spec_header_sectors(d2, idx) == header_sectors
            &&& d2.subrange(offset * 4096, offset * 4096 + record.len()) =~= record
            &&& d2.subrange(4096, 8192) =~= data.subrange(4096, 8192)
            &&& offset == match spec_allocate(m, sectors).0 {
                Some(o) => o as int,
                None => (data.len() / 4096) as int,
            }
            &&& d2.len() >= data.len()
            &&& d2.len() % 4096 == 0
        }),
{
    lemma_allocate_result(m, sectors);
    let (a, m2) = spec_allocate(m, sectors);
    let off: int = match a {
        Some(o) => o as int,
        None => (data.len() / 4096) as int,
    };
    let base = off * 4096;
    let need = sector_ceil(base + record.len());
    lemma_sector_ceil(base + record.len());
    let g = grown(data, need);
    let d1 = splice(g, base, record);
    let hb = header_bytes(off, header_sectors);
    let d2 = splice(d1, 4 * idx, hb);
    assert(off >= 2);
    assert(g.len() >= need);
    assert(g.subrange(4096, 8192) =~= data.subrange(4096, 8192)) by {
        assert forall|i: int| 0 <= i < 4096 implies g.subrange(4096, 8192)[i] == data.subrange(
            4096,
            8192,
        )[i] by {
            assert(g[4096 + i] == data[4096 + i]);
        }
    }
    lemma_splice_index(g, base, record, 0);
    lemma_splice_index(d1, 4 * idx, hb, 0);
    lemma_splice_subrange(g, base, record, 4096, 8192);
    lemma_splice_subrange(d1, 4 * idx, hb, 4096, 8192);
    lemma_splice_inner(g, base, record, base, base + record.len());
    lemma_splice_subrange(d1, 4 * idx, hb, base, base + record.len());
    lemma_splice_inner(d1, 4 * idx, hb, 4 * idx, 4 * idx + 4);
    lemma_header_bytes(off, header_sectors);
    assert(d2.subrange(4 * idx, 4 * idx + 4) =~= hb);
    assert(d2[4 * idx] == hb[0]);
    assert(d2[4 * idx + 1] == hb[1]);
    assert(d2[4 * idx + 2] == hb[2]);
    assert(d2[4 * idx + 3] == hb[3]);
    off
}

/// A compressed write that gets past its checks is a placement of its record.
proof fn lemma_write_compressed_unfold(
    data: Seq<u8>,
    options: Options,
    m: Map<usize, usize>,
    idx: int,
    payload: Seq<u8>,
    comp: ChunkCompression,
) -> (m1: Map<usize, usize>)
    requires
        data.len() >= 8192,
        keys_at_least(m, 2),
        runs_in_range(m),
        0 <= idx < 1024,
        spec_write_compressed(data, options, m, idx, payload, comp).0 is Ok,
    ensures
        keys_at_least(m1, 2),
        spec_free_old(
            data,
            options,
            m,
            spec_header_offset(data, idx),
            spec_header_sectors(data, idx),
        ) == Ok::<Map<usize, usize>, RegionReadError>(m1),
        payload.len() + 1 <= u32::MAX,
        spec_record_sectors(payload.len() as int + 1) <= 255 || options.allow_oversized_chunks,
        spec_write_compressed(data, options, m, idx, payload, comp) == spec_place_record(
            data,
            m1,
            idx,
            spec_record_sectors(payload.len() as int + 1) as usize,
            if spec_record_sectors(payload.len() as int + 1) > 255 {
                255u8
            } else {
                spec_record_sectors(payload.len() as int + 1) as u8
            },
            be32_bytes(payload.len() as int + 1) + seq![spec_compression_byte(comp)] + payload,
            payload.len() as usize,
        ),
{
    let hoff = spec_header_offset(data, idx);
    let hsec = spec_header_sectors(data, idx);
    lemma_actual_sector_count_small(data, options, hoff, hsec);
    if let Ok(Some((o, c))) = spec_actual_sector_count(data, options, hoff, hsec) {
        lemma_keys_at_least_preserved(m, 2, o, c);
    }
    spec_free_old(data, options, m, hoff, hsec)->Ok_0
}

/// The fields of a record laid out at `bo`.
proof fn lemma_record_fields(d: Seq<u8>, bo: int, field_len: int, cb: u8, payload: Seq<u8>)
    requires
        0 <= bo,
        bo + payload.len() + 5 <= d.len(),
        0 <= field_len <= u32::MAX,
        d.subrange(bo, bo + payload.len() + 5) =~= be32_bytes(field_len) + seq![cb] + payload,
    ensures
        be32(d, bo) == field_len,
        d[bo + 4] == cb,
        d.subrange(bo + 5, bo + 5 + payload.len()) =~= payload,
{
    let record = be32_bytes(field_len) + seq![cb] + payload;
    let sub = d.subrange(bo, bo + payload.len() + 5);
    lemma_be32_roundtrip(field_len);
    assert(d[bo] == sub[0]);
    assert(d[bo + 1] == sub[1]);
    assert(d[bo + 2] == sub[2]);
    assert(d[bo + 3] == sub[3]);
    assert(record[0] == be32_bytes(field_len)[0]);
    assert(record[1] == be32_bytes(field_len)[1]);
    assert(record[2] == be32_bytes(field_len)[2]);
    assert(record[3] == be32_bytes(field_len)[3]);
    assert(d[bo + 4] == sub[4]);
    assert forall|i: int| 0 <= i < payload.len() implies d.subrange(bo + 5, bo + 5 + payload.len())[i]
        == payload[i] by {
        assert(d[bo + 5 + i] == sub[5 + i]);
    }
}

/// Two regions with the same timestamp table agree on every timestamp.
proof fn lemma_same_timestamps(d: Seq<u8>, e: Seq<u8>, idx: int, order: ByteOrder)
    requires
        d.len() >= 8192,
        e.len() >= 8192,
        0 <= idx < 1024,
        d.subrange(4096, 8192) =~= e.subrange(4096, 8192),
    ensures
        spec_timestamp(d, idx, order) == spec_timestamp(e, idx, order),
{
    reveal(word);
    assert(d[4096 + 4 * idx] == d.subrange(4096, 8192)[4 * idx]);
    assert(d[4096 + 4 * idx + 1] == d.subrange(4096, 8192)[4 * idx + 1]);
    assert(d[4096 + 4 * idx + 2] == d.subrange(4096, 8192)[4 * idx + 2]);
    assert(d[4096 + 4 * idx + 3] == d.subrange(4096, 8192)[4 * idx + 3]);
    assert(e[4096 + 4 * idx] == e.subrange(4096, 8192)[4 * idx]);
    assert(e[4096 + 4 * idx + 1] == e.subrange(4096, 8192)[4 * idx + 1]);
    assert(e[4096 + 4 * idx + 2] == e.subrange(4096, 8192)[4 * idx + 2]);
    assert(e[4096 + 4 * idx + 3] == e.subrange(4096, 8192)[4 * idx + 3]);
}

/// Where a successful compressed write puts things: the header entry of
/// `idx`, the length field, the compression byte and the payload, with the
/// timestamp table untouched.
#[verifier::rlimit(50)]
#[verifier::spinoff_prover]
proof fn lemma_write_compressed_layout(
    data: Seq<u8>,
    options: Options,
    order: ByteOrder,
    m: Map<usize, usize>,
    idx: int,
    payload: Seq<u8>,
    comp: ChunkCompression,
) -> (off: int)
    requires
        data.len() >= 8192,
        data.len() % 4096 == 0,
        keys_at_least(m, 2),
        runs_in_range(m),
        0 <= idx < 1024,
        spec_write_compressed(data, options, m, idx, payload, comp).0 is Ok,
    ensures
        ({
            let (r, d2, m2) = spec_write_compressed(data, options, m, idx, payload, comp);
            let sc = spec_record_sectors(payload.len() as int + 1);
            let bo = off * 4096;
            &&& r == Ok::<usize, RegionWriteError>(payload.len() as usize)
            &&& sc <= 255 || options.allow_oversized_chunks
            &&& 2 <= off <= 0xFFFFFF
            &&& spec_header_offset(d2, idx) == off
            &&& spec_header_sectors(d2, idx) == if sc > 255 {
                255u8
            } else {
                sc as u8
            }
            &&& be32(d2, bo) == payload.len() + 1
            &&& d2[bo + 4] == spec_compression_byte(comp)
            &&& d2.subrange(bo + 5, bo + 5 + payload.len()) =~= payload
            &&& spec_timestamp(d2, idx, order) == spec_timestamp(data, idx, order)
            &&& d2.len() >= sector_ceil(bo + payload.len() + 5)
            &&& sector_ceil(bo + payload.len() + 5) == bo + sector_ceil(payload.len() as int + 5)
        }),
{
    let m1 = lemma_write_compressed_unfold(data, options, m, idx, payload, comp);
    let field_len: int = payload.len() as int + 1;
    let sc = spec_record_sectors(field_len);
    let hs: u8 = if sc > 255 {
        255u8
    } else {
        sc as u8
    };
    let cb = spec_compression_byte(comp);
    let record = be32_bytes(field_len) + seq![cb] + payload;
    let d2 = spec_write_compressed(data, options, m, idx, payload, comp).1;
    let off = lemma_place_record_layout(data, m1, idx, sc as usize, hs, record, payload.len() as usize);
    let bo = off * 4096;
    assert(record.len() == payload.len() + 5);
    lemma_record_fields(d2, bo, field_len, cb, payload);
    lemma_same_timestamps(d2, data, idx, order);
    assert(sector_ceil(bo + payload.len() + 5) == bo + sector_ceil(payload.len() as int + 5))
        by (nonlinear_arith)
        requires
            bo == off * 4096,
    ;
    off
}

/// Reading a chunk back after `write_chunk_data_compressed` succeeded on a
/// well-formed writer gives the bytes and codec that were written, with the
/// timestamp the region already had. It does not hold when `payload.len() + 5`
/// is a whole number of sectors: the header then claims one sector more than
/// the bytes were grown by.
#[verifier::rlimit(100)]
#[verifier::spinoff_prover]
pub proof fn lemma_read_back_compressed(
    data: Seq<u8>,
    options: Options,
    order: ByteOrder,
    m: Map<usize, usize>,
    x: u8,
    z: u8,
    payload: Seq<u8>,
    comp: ChunkCompression,
    read: Result<RawChunkData, RegionReadError>,
)
    requires
        data.len() >= 8192,
        data.len() % 4096 == 0,
        keys_at_least(m, 2),
        runs_in_range(m),
        (payload.len() + 5) % 4096 != 0,
        spec_write_compressed(data, options, m, spec_chunk_idx(x, z), payload, comp).0 is Ok,
        spec_chunk_data_raw(
            spec_write_compressed(data, options, m, spec_chunk_idx(x, z), payload, comp).1,
            options,
            order,
            x,
            z,
            read,
        ),
    ensures
        spec_write_compressed(data, options, m, spec_chunk_idx(x, z), payload, comp).0 == Ok::<
            usize,
            RegionWriteError,
        >(payload.len() as usize),
        read matches Ok(RawChunkData::Chunk { bytes, compression, timestamp, .. }) && bytes@
            == payload && compression == comp && timestamp == spec_timestamp(
            data,
            spec_chunk_idx(x, z),
            order,
        ),
{
    let idx = spec_chunk_idx(x, z);
    let off = lemma_write_compressed_layout(data, options, order, m, idx, payload, comp);
    let d2 = spec_write_compressed(data, options, m, idx, payload, comp).1;
    let sc = spec_record_sectors(payload.len() as int + 1);
    let hs: u8 = if sc > 255 {
        255u8
    } else {
        sc as u8
    };
    let bo = off * 4096;
    let len = payload.len() as int;
    lemma_sector_ceil(len + 5);
    assert(hs * 4096 <= sector_ceil(len + 5)) by (nonlinear_arith)
        requires
            hs <= sc,
            sc == (len + 1 + 5 + 4095) / 4096,
            (len + 5) % 4096 != 0,
            len >= 0,
    ;
    assert(spec_sectors_for_length(len + 1) > 255 ==> sc > 255);
    assert(spec_sectors_for_length(len + 1) <= 255 ==> len + 5 <= hs * 4096) by (nonlinear_arith)
        requires
            hs <= sc,
            sc == (len + 1 + 5 + 4095) / 4096,
            hs == 255 || hs == sc,
            len >= 0,
            spec_sectors_for_length(len + 1) == (len + 1 + 4 + 4095) / 4096,
    ;
    assert(spec_compression_of(spec_compression_byte(comp)) == Some(comp));
}

/// Number of sectors that reading chunk `idx` looks at: the header's count,
/// or for an oversized chunk the count that its length field needs.
pub open spec fn spec_span_sectors(data: Seq<u8>, options: Options, idx: int) -> int {
    let off = spec_header_offset(data, idx);
    let sc = spec_header_sectors(data, idx);
    if sc == 255 && options.allow_oversized_chunks && off * 4096 + 4 <= data.len()
        && spec_sectors_for_length(be32(data, off * 4096)) > 255 {
        spec_sectors_for_length(be32(data, off * 4096))
    } else {
        sc as int
    }
}

/// Sectors that reading chunk `idx` looks at; none for an absent chunk or a
/// header that points into the tables.
pub open spec fn spec_record_span(data: Seq<u8>, options: Options, idx: int) -> Set<int> {
    let off = spec_header_offset(data, idx);
    if off < 2 {
        Set::empty()
    } else {
        sector_range(off, spec_span_sectors(data, options, idx))
    }
}

/// Sectors that a write to chunk `idx` gives back before placing its record.
pub open spec fn spec_freed_span(data: Seq<u8>, options: Options, idx: int) -> Set<int> {
    match spec_actual_sector_count(
        data,
        options,
        spec_header_offset(data, idx),
        spec_header_sectors(data, idx),
    ) {
        Ok(Some((o, c))) => sector_range(o as int, c as int),
        _ => Set::empty(),
    }
}

/// Placing a record changes no byte of the old region outside the sectors it
/// was given and the header entry of `idx`; sectors it is given were free.
proof fn lemma_place_record_untouched(
    data: Seq<u8>,
    m: Map<usize, usize>,
    idx: int,
    sectors: usize,
    header_sectors: u8,
    record: Seq<u8>,
    ok: usize,
    p: int,
)
    requires
        data.len() >= 8192,
        data.len() % 4096 == 0,
        keys_at_least(m, 2),
        0 <= idx < 1024,
        spec_place_record(data, m, idx, sectors, header_sectors, record, ok).0 is Ok,
        record.len() <= sectors * 4096,
        0 <= p < data.len(),
        !(4 * idx <= p < 4 * idx + 4),
        !free_sectors(m).contains(p / 4096),
    ensures
        spec_place_record(data, m, idx, sectors, header_sectors, record, ok).1.len() >= data.len(),
        spec_place_record(data, m, idx, sectors, header_sectors, record, ok).1[p] == data[p],
{
    lemma_allocate_result(m, sectors);
    let (a, m2) = spec_allocate(m, sectors);
    let off: int = match a {
        Some(o) => o as int,
        None => (data.len() / 4096) as int,
    };
    let base = off * 4096;
    let need = sector_ceil(base + record.len());
    lemma_sector_ceil(base + record.len());
    let g = grown(data, need);
    let d1 = splice(g, base, record);
    let hb = header_bytes(off, header_sectors);
    let y = p / 4096;
    match a {
        Some(s) => {
            if s <= y < s + sectors {
                assert(free_sectors(m).contains(y)) by {
                    assert(m.dom().contains(s) && s <= y < s + m[s]);
                }
            }
            assert(p < base || p >= base + record.len()) by (nonlinear_arith)
                requires
                    y == p / 4096,
                    y < off || y >= off + sectors,
                    base == off * 4096,
                    record.len() <= sectors * 4096,
                    p >= 0,
                    off >= 0,
            ;
        },
        None => {
            assert(base == data.len()) by (nonlinear_arith)
                requires
                    off == data.len() / 4096,
                    data.len() % 4096 == 0,
                    base == off * 4096,
            ;
        },
    }
    assert(g[p] == data[p]);
    lemma_splice_index(g, base, record, p);
    lemma_splice_index(d1, 4 * idx, hb, p);
}

/// The sectors of a region's two tables are never free.
proof fn lemma_tables_not_free(m: Map<usize, usize>, y: int)
    requires
        keys_at_least(m, 2),
        y < 2,
    ensures
        !free_sectors(m).contains(y),
{
    if free_sectors(m).contains(y) {
        let k = choose|k: usize| m.dom().contains(k) && k <= y < k + m[k];
    }
}

/// A write to one chunk leaves every other chunk reading as it did, with the
/// same header entry and timestamp, as long as the other chunk's record lies
/// inside the region, overlaps no free run and does not overlap the record
/// that the write replaces.
#[verifier::rlimit(60)]
pub proof fn lemma_write_keeps_other_chunks(
    data: Seq<u8>,
    options: Options,
    order: ByteOrder,
    m: Map<usize, usize>,
    x: u8,
    z: u8,
    payload: Seq<u8>,
    comp: ChunkCompression,
    ox: u8,
    oz: u8,
    read: Result<RawChunkData, RegionReadError>,
)
    requires
        data.len() >= 8192,
        data.len() % 4096 == 0,
        keys_at_least(m, 2),
        runs_in_range(m),
        spec_chunk_idx(ox, oz) != spec_chunk_idx(x, z),
        spec_record_span(data, options, spec_chunk_idx(ox, oz)).subset_of(
            sector_range(2, data.len() / 4096 - 2),
        ),
        spec_record_span(data, options, spec_chunk_idx(ox, oz)).disjoint(free_sectors(m)),
        spec_record_span(data, options, spec_chunk_idx(ox, oz)).disjoint(
            spec_freed_span(data, options, spec_chunk_idx(x, z)),
        ),
        spec_write_compressed(data, options, m, spec_chunk_idx(x, z), payload, comp).0 is Ok,
    ensures
        ({
            let d2 = spec_write_compressed(data, options, m, spec_chunk_idx(x, z), payload, comp).1;
            let o = spec_chunk_idx(ox, oz);
            &&& spec_header_offset(d2, o) == spec_header_offset(data, o)
            &&& spec_header_sectors(d2, o) == spec_header_sectors(data, o)
            &&& spec_timestamp(d2, o, order) == spec_timestamp(data, o, order)
            &&& spec_record_span(d2, options, o) == spec_record_span(data, options, o)
            &&& spec_freed_span(d2, options, o) == spec_freed_span(data, options, o)
            &&& spec_chunk_data_raw(d2, options, order, ox, oz, read) == spec_chunk_data_raw(
                data,
                options,
                order,
                ox,
                oz,
                read,
            )
        }),
{
    let idx = spec_chunk_idx(x, z);
    let oidx = spec_chunk_idx(ox, oz);
    let m1 = lemma_write_compressed_unfold(data, options, m, idx, payload, comp);
    let hoff = spec_header_offset(data, idx);
    let hsec = spec_header_sectors(data, idx);
    if let Ok(Some((o, c))) = spec_actual_sector_count(data, options, hoff, hsec) {
        lemma_free_within(m, o, c);
    }
    assert(free_sectors(m1).subset_of(
        free_sectors(m).union(spec_freed_span(data, options, idx)),
    ));
    let field_len: int = payload.len() as int + 1;
    let sc = spec_record_sectors(field_len);
    let hs: u8 = if sc > 255 {
        255u8
    } else {
        sc as u8
    };
    let record = be32_bytes(field_len) + seq![spec_compression_byte(comp)] + payload;
    assert(record.len() <= sc * 4096) by (nonlinear_arith)
        requires
            record.len() == field_len + 4,
            sc == (field_len + 5 + 4095) / 4096,
            field_len >= 1,
    ;
    let d2 = spec_write_compressed(data, options, m, idx, payload, comp).1;
    let off = spec_header_offset(data, oidx);
    let n = spec_span_sectors(data, options, oidx);
    let span = spec_record_span(data, options, oidx);
    lemma_tables_not_free(m1, 1);
    lemma_place_record_untouched(data, m1, idx, sc as usize, hs, record, payload.len() as usize, 4096);
    assert forall|p: int|
        (4 * oidx <= p < 4 * oidx + 4 || 4096 + 4 * oidx <= p < 4096 + 4 * oidx + 4) implies d2[p]
        == data[p] by {
        lemma_tables_not_free(m1, p / 4096);
        lemma_place_record_untouched(data, m1, idx, sc as usize, hs, record, payload.len() as usize, p);
    }
    if off >= 2 && n >= 1 {
        assert(span.contains(off + n - 1));
        assert((off + n) * 4096 <= data.len()) by (nonlinear_arith)
            requires
                off + n <= data.len() / 4096,
                data.len() >= 0,
        ;
        assert forall|p: int| off * 4096 <= p < (off + n) * 4096 implies d2[p] == data[p] by {
            let y = p / 4096;
            assert(off <= y < off + n) by (nonlinear_arith)
                requires
                    y == p / 4096,
                    off * 4096 <= p < (off + n) * 4096,
            ;
            assert(span.contains(y));
            assert(!free_sectors(m1).contains(y));
            lemma_place_record_untouched(data, m1, idx, sc as usize, hs, record, payload.len() as usize, p);
        }
    }
    lemma_read_agrees(data, d2, options, order, ox, oz, read);
}

/// Two regions that agree on the header entry, the timestamp and the record
/// sectors of chunk `(x, z)` read that chunk alike.
#[verifier::rlimit(40)]
proof fn lemma_read_agrees(
    data: Seq<u8>,
    d2: Seq<u8>,
    options: Options,
    order: ByteOrder,
    x: u8,
    z: u8,
    read: Result<RawChunkData, RegionReadError>,
)
    requires
        data.len() >= 8192,
        d2.len() >= data.len(),
        forall|p: int|
            4 * spec_chunk_idx(x, z) <= p < 4 * spec_chunk_idx(x, z) + 4 || 4096 + 4 * spec_chunk_idx(x, z)
                <= p < 4096 + 4 * spec_chunk_idx(x, z) + 4 ==> #[trigger] d2[p] == data[p],
        ({
            let off = spec_header_offset(data, spec_chunk_idx(x, z));
            let n = spec_span_sectors(data, options, spec_chunk_idx(x, z));
            off >= 2 && n >= 1 ==> (off + n) * 4096 <= data.len() && forall|p: int|
                off * 4096 <= p < (off + n) * 4096 ==> #[trigger] d2[p] == data[p]
        }),
    ensures
        ({
            let o = spec_chunk_idx(x, z);
            &&& spec_header_offset(d2, o) == spec_header_offset(data, o)
            &&& spec_header_sectors(d2, o) == spec_header_sectors(data, o)
            &&& spec_timestamp(d2, o, order) == spec_timestamp(data, o, order)
            &&& spec_record_span(d2, options, o) == spec_record_span(data, options, o)
            &&& spec_freed_span(d2, options, o) == spec_freed_span(data, options, o)
            &&& spec_chunk_data_raw(d2, options, order, x, z, read) == spec_chunk_data_raw(
                data,
                options,
                order,
                x,
                z,
                read,
            )
        }),
{
    reveal(word);
    let oidx = spec_chunk_idx(x, z);
    assert(d2[4 * oidx] == data[4 * oidx] && d2[4 * oidx + 1] == data[4 * oidx + 1] && d2[4 * oidx
        + 2] == data[4 * oidx + 2] && d2[4 * oidx + 3] == data[4 * oidx + 3]);
    let t = 4096 + 4 * oidx;
    assert(d2[t] == data[t] && d2[t + 1] == data[t + 1] && d2[t + 2] == data[t + 2] && d2[t + 3]
        == data[t + 3]);
    let off = spec_header_offset(data, oidx);
    let osc = spec_header_sectors(data, oidx);
    let n = spec_span_sectors(data, options, oidx);
    if off >= 2 && osc != 0 {
        assert(n >= 1);
        let bo = off * 4096;
        assert(bo + 4 < (off + n) * 4096) by (nonlinear_arith)
            requires
                n >= 1,
                bo == off * 4096,
        ;
        assert(d2[bo] == data[bo] && d2[bo + 1] == data[bo + 1] && d2[bo + 2] == data[bo + 2]
            && d2[bo + 3] == data[bo + 3] && d2[bo + 4] == data[bo + 4]);
        assert forall|lo: int, hi: int| bo <= lo <= hi <= (off + n) * 4096 implies d2.subrange(lo, hi)
            =~= data.subrange(lo, hi) by {
            assert forall|i: int| 0 <= i < hi - lo implies d2.subrange(lo, hi)[i] == data.subrange(
                lo,
                hi,
            )[i] by {
                assert(d2[lo + i] == data[lo + i]);
            }
        }
        let length = be32(data, bo);
        assert(be32(d2, bo) == length);
        if osc == 255 && options.allow_oversized_chunks && spec_sectors_for_length(length) > 255 {
            assert(n == spec_sectors_for_length(length));
            assert(bo + 4 + length <= (off + n) * 4096) by (nonlinear_arith)
                requires
                    n == (length + 4 + 4095) / 4096,
                    bo == off * 4096,
                    length >= 0,
            ;
        } else {
            assert(n == osc);
        }
        assert(bo + osc * 4096 <= (off + n) * 4096) by (nonlinear_arith)
            requires
                osc <= n,
                bo == off * 4096,
        ;
        assert(bo + 4 <= data.len());
        assert(spec_span_sectors(d2, options, oidx) == n);
    }
    assert(spec_record_span(d2, options, oidx) == spec_record_span(data, options, oidx));
    assert(spec_freed_span(d2, options, oidx) == spec_freed_span(data, options, oidx));
}

/// The records of chunks `0..n` (the sectors their headers give, as a write
/// would give them back) lie past the tables and inside the bytes, do not
/// overlap one another, and none of their headers is refused.
pub open spec fn records_laid_out(data: Seq<u8>, options: Options, n: int) -> bool {
    &&& forall|i: int|
        0 <= i < n ==> spec_actual_sector_count(
            data,
            options,
            spec_header_offset(data, i),
            spec_header_sectors(data, i),
        ) is Ok
    &&& forall|i: int|
        0 <= i < n ==> #[trigger] spec_freed_span(data, options, i).subset_of(
            sector_range(2, data.len() / 4096 - 2),
        )
    &&& forall|i: int, j: int|
        0 <= i < j < n ==> #[trigger] spec_freed_span(data, options, i).disjoint(
            #[trigger] spec_freed_span(data, options, j),
        )
}

/// The sectors past the tables and inside the bytes that no record of the
/// chunks `0..n` uses.
pub open spec fn unclaimed_sectors(data: Seq<u8>, options: Options, n: int) -> Set<int> {
    Set::new(
        |y: int|
            2 <= y < data.len() / 4096 && forall|i: int|
                0 <= i < n ==> !#[trigger] spec_freed_span(data, options, i).contains(y),
    )
}

/// In a canonical map whose free sectors lie below `bound`, no run reaches
/// past `bound`.
proof fn lemma_runs_below(m: Map<usize, usize>, bound: int)
    requires
        canonical(m),
        bound <= usize::MAX,
        forall|y: int| free_sectors(m).contains(y) ==> y < bound,
    ensures
        runs_in_range(m),
{
    assert forall|k: usize| m.dom().contains(k) implies k + m[k] <= usize::MAX by {
        assert(free_sectors(m).contains(k + m[k] - 1)) by {
            assert(m.dom().contains(k) && k <= k + m[k] - 1 < k + m[k]);
        }
    }
}

/// A writer built from a region's bytes, when the records of the region are
/// laid out, starts with exactly the sectors past the tables that no record
/// uses as its free sectors.
pub proof fn lemma_region_allocator_frees_unclaimed(data: Seq<u8>, options: Options, n: nat)
    requires
        data.len() >= 8192,
        data.len() % 4096 == 0,
        data.len() <= usize::MAX,
        n <= 1024,
        records_laid_out(data, options, n as int),
    ensures
        spec_region_allocator(data, options, n) matches Ok(m) && canonical(m) && free_sectors(m)
            =~= unclaimed_sectors(data, options, n as int),
    decreases n,
{
    let big_n = data.len() / 4096;
    if n == 0 {
        let m0 = map![0usize => big_n as usize];
        lemma_new_allocator(big_n as usize);
        lemma_mark_allocated_takes_free_sectors(m0, 0, 2);
        assert(sector_range(0, 2).subset_of(free_sectors(m0))) by {
            assert forall|y: int| sector_range(0, 2).contains(y) implies free_sectors(m0).contains(
                y,
            ) by {
                assert(sector_range(0, big_n as int).contains(y));
            }
        }
        let m = spec_mark_allocated(m0, 0, 2).1;
        assert forall|y: int| free_sectors(m).contains(y) <==> unclaimed_sectors(
            data,
            options,
            0,
        ).contains(y) by {
            assert(free_sectors(m).contains(y) <==> (sector_range(0, big_n as int).contains(y)
                && !sector_range(0, 2).contains(y)));
        }
    } else {
        let k = (n - 1) as int;
        assert(records_laid_out(data, options, k)) by {
            assert forall|i: int, j: int|
                0 <= i < j < k implies #[trigger] spec_freed_span(data, options, i).disjoint(
                #[trigger] spec_freed_span(data, options, j),
            ) by {
                assert(0 <= i < j < n);
            }
        }
        lemma_region_allocator_frees_unclaimed(data, options, (n - 1) as nat);
        let m = spec_region_allocator(data, options, (n - 1) as nat)->Ok_0;
        lemma_runs_below(m, big_n as int);
        let off = spec_header_offset(data, k);
        let sc = spec_header_sectors(data, k);
        assert(0 <= off <= 0xFFFFFF);
        lemma_actual_sector_count_small(data, options, off, sc);
        let a = spec_actual_sector_count(data, options, off, sc);
        assert(a is Ok);
        let span = spec_freed_span(data, options, k);
        assert(span.subset_of(sector_range(2, big_n - 2)));
        match a {
            Ok(None) => {
                assert(span =~= Set::<int>::empty());
                assert forall|y: int| free_sectors(m).contains(y) <==> unclaimed_sectors(
                    data,
                    options,
                    n as int,
                ).contains(y) by {
                    if unclaimed_sectors(data, options, k).contains(y) {
                        assert forall|i: int| 0 <= i < n implies !#[trigger] spec_freed_span(
                            data,
                            options,
                            i,
                        ).contains(y) by {
                            if i < k {
                            }
                        }
                    }
                }
            },
            Ok(Some((o, c))) => {
                assert(span == sector_range(o as int, c as int));
                assert(span.subset_of(free_sectors(m))) by {
                    assert forall|y: int| span.contains(y) implies free_sectors(m).contains(y) by {
                        assert forall|i: int| 0 <= i < k implies !#[trigger] spec_freed_span(
                            data,
                            options,
                            i,
                        ).contains(y) by {
                            assert(spec_freed_span(data, options, i).disjoint(span));
                        }
                        assert(unclaimed_sectors(data, options, k).contains(y));
                    }
                }
                lemma_mark_allocated_takes_free_sectors(m, o, c);
                let m2 = spec_mark_allocated(m, o, c).1;
                assert forall|y: int| free_sectors(m2).contains(y) <==> unclaimed_sectors(
                    data,
                    options,
                    n as int,
                ).contains(y) by {
                    if c > 0 {
                        assert(free_sectors(m2).contains(y) <==> (free_sectors(m).contains(y)
                            && !span.contains(y)));
                    } else {
                        assert(span =~= Set::<int>::empty());
                    }
                    if unclaimed_sectors(data, options, k).contains(y) && !span.contains(y) {
                        assert forall|i: int| 0 <= i < n implies !#[trigger] spec_freed_span(
                            data,
                            options,
                            i,
                        ).contains(y) by {
                            if i < k {
                            }
                        }
                    }
                }
            },
            Err(_) => {},
        }
    }
}

/// On a writer built from a region whose records are laid out, a write to
/// one chunk leaves every other chunk reading as it did, with the same
/// header entry and timestamp, as long as that chunk reads no sector outside
/// its own record.
pub proof fn lemma_built_writer_keeps_other_chunks(
    data: Seq<u8>,
    options: Options,
    order: ByteOrder,
    x: u8,
    z: u8,
    payload: Seq<u8>,
    comp: ChunkCompression,
    ox: u8,
    oz: u8,
    read: Result<RawChunkData, RegionReadError>,
)
    requires
        data.len() >= 8192,
        data.len() % 4096 == 0,
        data.len() <= usize::MAX,
        records_laid_out(data, options, 1024),
        spec_chunk_idx(ox, oz) != spec_chunk_idx(x, z),
        spec_record_span(data, options, spec_chunk_idx(ox, oz)).subset_of(
            spec_freed_span(data, options, spec_chunk_idx(ox, oz)),
        ),
        spec_region_allocator(data, options, 1024) matches Ok(m) && spec_write_compressed(
            data,
            options,
            m,
            spec_chunk_idx(x, z),
            payload,
            comp,
        ).0 is Ok,
    ensures
        ({
            let m = spec_region_allocator(data, options, 1024)->Ok_0;
            let d2 = spec_write_compressed(data, options, m, spec_chunk_idx(x, z), payload, comp).1;
            let o = spec_chunk_idx(ox, oz);
            &&& spec_header_offset(d2, o) == spec_header_offset(data, o)
            &&& spec_header_sectors(d2, o) == spec_header_sectors(data, o)
            &&& spec_timestamp(d2, o, order) == spec_timestamp(data, o, order)
            &&& spec_chunk_data_raw(d2, options, order, ox, oz, read) == spec_chunk_data_raw(
                data,
                options,
                order,
                ox,
                oz,
                read,
            )
        }),
{
    let idx = spec_chunk_idx(x, z);
    let oidx = spec_chunk_idx(ox, oz);
    lemma_region_allocator_frees_unclaimed(data, options, 1024);
    let m = spec_region_allocator(data, options, 1024)->Ok_0;
    let big_n = data.len() / 4096;
    lemma_runs_below(m, big_n as int);
    assert(keys_at_least(m, 2)) by {
        assert forall|k: usize| m.dom().contains(k) implies k >= 2 by {
            assert(free_sectors(m).contains(k as int)) by {
                assert(m.dom().contains(k) && k <= k < k + m[k]);
            }
        }
    }
    let span = spec_record_span(data, options, oidx);
    let own = spec_freed_span(data, options, oidx);
    assert(own.subset_of(sector_range(2, big_n - 2)));
    assert(span.disjoint(free_sectors(m))) by {
        assert forall|y: int| span.contains(y) implies !free_sectors(m).contains(y) by {
            assert(own.contains(y));
            assert(!unclaimed_sectors(data, options, 1024).contains(y));
        }
    }
    assert(span.disjoint(spec_freed_span(data, options, idx))) by {
        if oidx < idx {
            assert(own.disjoint(spec_freed_span(data, options, idx)));
        } else {
            assert(spec_freed_span(data, options, idx).disjoint(own));
        }
    }
    lemma_write_keeps_other_chunks(data, options, order, m, x, z, payload, comp, ox, oz, read);
}

/// Freeing a chunk makes exactly its record's sectors free, when that record
/// overlaps no free run. Its header entry still names the record, so a later
/// write elsewhere may reuse those sectors while the freed chunk still reads
/// from them.
pub proof fn lemma_free_chunk_frees_its_record(
    data: Seq<u8>,
    options: Options,
    m: Map<usize, usize>,
    x: u8,
    z: u8,
)
    requires
        data.len() >= 8192,
        canonical(m),
        runs_in_range(m),
        spec_freed_span(data, options, spec_chunk_idx(x, z)).disjoint(free_sectors(m)),
        spec_free_old(
            data,
            options,
            m,
            spec_header_offset(data, spec_chunk_idx(x, z)),
            spec_header_sectors(data, spec_chunk_idx(x, z)),
        ) is Ok,
    ensures
        ({
            let m2 = spec_free_old(
                data,
                options,
                m,
                spec_header_offset(data, spec_chunk_idx(x, z)),
                spec_header_sectors(data, spec_chunk_idx(x, z)),
            )->Ok_0;
            &&& canonical(m2)
            &&& free_sectors(m2) =~= free_sectors(m).union(
                spec_freed_span(data, options, spec_chunk_idx(x, z)),
            )
        }),
{
    let idx = spec_chunk_idx(x, z);
    let off = spec_header_offset(data, idx);
    let sc = spec_header_sectors(data, idx);
    lemma_actual_sector_count_small(data, options, off, sc);
    if let Ok(Some((o, c))) = spec_actual_sector_count(data, options, off, sc) {
        if c > 0 {
            lemma_free_returns_sectors(m, o, c);
        } else {
            assert(sector_range(o as int, c as int) =~= Set::<int>::empty());
        }
    }
}

/// The sectors chunk `idx` uses: those that reading it looks at and those
/// that a write to it gives back.
pub open spec fn spec_used_sectors(data: Seq<u8>, options: Options, idx: int) -> Set<int> {
    spec_record_span(data, options, idx).union(spec_freed_span(data, options, idx))
}

/// A region being written is soundly laid out: its free runs are coalesced
/// and lie past the tables inside the bytes; so does every chunk's record,
/// which overlaps no free run and no other chunk's record.
pub open spec fn sound_layout(data: Seq<u8>, options: Options, m: Map<usize, usize>) -> bool {
    &&& canonical(m)
    &&& keys_at_least(m, 2)
    &&& runs_in_range(m)
    &&& free_sectors(m).subset_of(sector_range(2, data.len() / 4096 - 2))
    &&& forall|i: int|
        0 <= i < 1024 ==> #[trigger] spec_used_sectors(data, options, i).subset_of(
            sector_range(2, data.len() / 4096 - 2),
        )
    &&& forall|i: int|
        0 <= i < 1024 ==> #[trigger] spec_used_sectors(data, options, i).disjoint(free_sectors(m))
    &&& forall|i: int, j: int|
        0 <= i < 1024 && 0 <= j < 1024 && i != j ==> #[trigger] spec_used_sectors(
            data,
            options,
            i,
        ).disjoint(#[trigger] spec_used_sectors(data, options, j))
}

/// A freshly made writer (two zeroed table sectors, no free run) is soundly
/// laid out.
pub proof fn lemma_new_writer_sound(options: Options)
    ensures
        sound_layout(Seq::new(8192, |i: int| 0u8), options, Map::<usize, usize>::empty()),
{
    let d = Seq::new(8192, |i: int| 0u8);
    let m = Map::<usize, usize>::empty();
    assert(free_sectors(m) =~= Set::<int>::empty());
    assert forall|i: int| 0 <= i < 1024 implies #[trigger] spec_used_sectors(d, options, i)
        =~= Set::<int>::empty() by {
        assert(d[4 * i] == 0 && d[4 * i + 1] == 0 && d[4 * i + 2] == 0);
    }
}

/// In a soundly laid out region, a write to chunk `idx` leaves what every
/// other chunk uses as it was.
#[verifier::rlimit(60)]
#[verifier::spinoff_prover]
proof fn lemma_sound_write_keeps_used(
    data: Seq<u8>,
    options: Options,
    m: Map<usize, usize>,
    x: u8,
    z: u8,
    payload: Seq<u8>,
    comp: ChunkCompression,
    j: int,
)
    requires
        data.len() >= 8192,
        data.len() % 4096 == 0,
        keys_at_least(m, 2),
        runs_in_range(m),
        0 <= j < 1024,
        j != spec_chunk_idx(x, z),
        spec_used_sectors(data, options, j).disjoint(
            spec_used_sectors(data, options, spec_chunk_idx(x, z)),
        ),
        spec_used_sectors(data, options, j).subset_of(sector_range(2, data.len() / 4096 - 2)),
        spec_used_sectors(data, options, j).disjoint(free_sectors(m)),
        spec_write_compressed(data, options, m, spec_chunk_idx(x, z), payload, comp).0 is Ok,
    ensures
        spec_used_sectors(
            spec_write_compressed(data, options, m, spec_chunk_idx(x, z), payload, comp).1,
            options,
            j,
        ) == spec_used_sectors(data, options, j),
{
    let idx = spec_chunk_idx(x, z);
    let ox = (j % 32) as u8;
    let oz = (j / 32) as u8;
    assert(spec_chunk_idx(ox, oz) == j);
    let span = spec_record_span(data, options, j);
    let used_j = spec_used_sectors(data, options, j);
    assert(span.subset_of(used_j));
    assert(spec_freed_span(data, options, spec_chunk_idx(x, z)).subset_of(
        spec_used_sectors(data, options, spec_chunk_idx(x, z)),
    ));
    assert(span.subset_of(sector_range(2, data.len() / 4096 - 2)));
    assert(span.disjoint(free_sectors(m)));
    assert(span.disjoint(spec_freed_span(data, options, spec_chunk_idx(x, z))));
    lemma_write_keeps_other_chunks(
        data,
        options,
        ByteOrder::Big,
        m,
        x,
        z,
        payload,
        comp,
        ox,
        oz,
        Ok(RawChunkData::Empty),
    );
}

/// Writing a chunk keeps a region soundly laid out, unless the record fills a
/// whole number of sectors (then its header claims a sector beyond the bytes).
/// With the read-back law and the law that other chunks are left alone, this
/// carries both over any series of writes.
#[verifier::rlimit(100)]
#[verifier::spinoff_prover]
pub proof fn lemma_write_keeps_sound_layout(
    data: Seq<u8>,
    options: Options,
    m: Map<usize, usize>,
    x: u8,
    z: u8,
    payload: Seq<u8>,
    comp: ChunkCompression,
)
    requires
        data.len() >= 8192,
        data.len() % 4096 == 0,
        data.len() <= usize::MAX,
        sound_layout(data, options, m),
        (payload.len() + 5) % 4096 != 0,
        spec_write_compressed(data, options, m, spec_chunk_idx(x, z), payload, comp).0 is Ok,
    ensures
        ({
            let (r, d2, m2) = spec_write_compressed(
                data,
                options,
                m,
                spec_chunk_idx(x, z),
                payload,
                comp,
            );
            &&& sound_layout(d2, options, m2)
            &&& d2.len() >= data.len()
            &&& d2.len() % 4096 == 0
        }),
{
    let idx = spec_chunk_idx(x, z);
    let big_n = data.len() / 4096;
    let m1 = lemma_write_compressed_unfold(data, options, m, idx, payload, comp);
    assert(spec_freed_span(data, options, idx).subset_of(spec_used_sectors(data, options, idx)));
    assert(spec_used_sectors(data, options, idx).disjoint(free_sectors(m)));
    lemma_free_chunk_frees_its_record(data, options, m, x, z);
    assert(spec_used_sectors(data, options, idx).subset_of(sector_range(2, big_n - 2)));
    assert(free_sectors(m).subset_of(sector_range(2, big_n - 2)));
    assert(free_sectors(m1).subset_of(sector_range(2, big_n - 2)));
    lemma_runs_below(m1, big_n as int);
    let field_len: int = payload.len() as int + 1;
    let sc = spec_record_sectors(field_len);
    let hs: u8 = if sc > 255 {
        255u8
    } else {
        sc as u8
    };
    let record = be32_bytes(field_len) + seq![spec_compression_byte(comp)] + payload;
    lemma_allocate_takes_free_sectors(m1, sc as usize);
    lemma_allocate_result(m1, sc as usize);
    let (a, m2) = spec_allocate(m1, sc as usize);
    let off_p = lemma_place_record_layout(
        data,
        m1,
        idx,
        sc as usize,
        hs,
        record,
        payload.len() as usize,
    );
    let off = lemma_write_compressed_layout(data, options, ByteOrder::Big, m, idx, payload, comp);
    let d2 = spec_write_compressed(data, options, m, idx, payload, comp).1;
    assert(off == off_p);
    lemma_keys_at_least_preserved(m1, 2, 0, sc as usize);
    assert(spec_sectors_for_length(field_len) == sc) by (nonlinear_arith)
        requires
            sc == (field_len + 5 + 4095) / 4096,
            (field_len + 4) % 4096 != 0,
            field_len >= 1,
    ;
    let big_n2 = d2.len() / 4096;
    let new_used = sector_range(off, sc);
    // Where the new record lies.
    assert(new_used.subset_of(sector_range(2, big_n2 - 2))) by {
        match a {
            Some(st) => {
                assert(new_used.subset_of(free_sectors(m1)));
            },
            None => {
                assert((off + sc) * 4096 <= d2.len()) by (nonlinear_arith)
                    requires
                        d2.len() >= off * 4096 + sector_ceil(payload.len() as int + 5),
                        sector_ceil(payload.len() as int + 5) == (payload.len() + 5 + 4095) / 4096
                            * 4096,
                        sc == (payload.len() + 1 + 5 + 4095) / 4096,
                        (payload.len() + 5) % 4096 != 0,
                ;
            },
        }
    }
    // What the written chunk uses afterwards is its new record.
    assert(spec_used_sectors(d2, options, idx) =~= new_used) by {
        let bo = off * 4096;
        assert(bo + 4 <= d2.len()) by (nonlinear_arith)
            requires
                d2.len() >= bo + sector_ceil(payload.len() as int + 5),
                sector_ceil(payload.len() as int + 5) >= payload.len() + 5,
        ;
        assert(spec_span_sectors(d2, options, idx) == sc);
    }
    assert(new_used.disjoint(free_sectors(m2))) by {
        if a is None {
            assert(free_sectors(m1).subset_of(sector_range(2, big_n - 2)));
        }
    }
    assert forall|j: int| 0 <= j < 1024 && j != idx implies #[trigger] new_used.disjoint(
        spec_used_sectors(data, options, j),
    ) by {
        assert(spec_used_sectors(data, options, j).disjoint(spec_used_sectors(data, options, idx)));
        assert(spec_used_sectors(data, options, j).disjoint(free_sectors(m)));
        assert(spec_used_sectors(data, options, j).subset_of(sector_range(2, big_n - 2)));
        if a is Some {
            assert(new_used.subset_of(free_sectors(m1)));
        }
    }
    assert forall|j: int| 0 <= j < 1024 && j != idx implies #[trigger] spec_used_sectors(
        d2,
        options,
        j,
    ) == spec_used_sectors(data, options, j) by {
        assert(spec_used_sectors(data, options, j).disjoint(spec_used_sectors(data, options, idx)));
        assert(spec_used_sectors(data, options, j).subset_of(sector_range(2, big_n - 2)));
        assert(spec_used_sectors(data, options, j).disjoint(free_sectors(m)));
        lemma_sound_write_keeps_used(data, options, m, x, z, payload, comp, j);
    }
    assert(free_sectors(m2).subset_of(free_sectors(m1)));
    assert(sound_layout(d2, options, m2)) by {
        assert(free_sectors(m2).subset_of(sector_range(2, big_n2 - 2)));
        lemma_runs_below(m2, big_n as int);
        assert forall|i: int| 0 <= i < 1024 implies #[trigger] spec_used_sectors(
            d2,
            options,
            i,
        ).subset_of(sector_range(2, big_n2 - 2)) by {
            if i != idx {
                assert(spec_used_sectors(data, options, i).subset_of(sector_range(2, big_n - 2)));
            }
        }
        assert forall|i: int| 0 <= i < 1024 implies #[trigger] spec_used_sectors(
            d2,
            options,
            i,
        ).disjoint(free_sectors(m2)) by {
            if i != idx {
                assert(spec_used_sectors(data, options, i).disjoint(free_sectors(m)));
                assert(spec_used_sectors(data, options, i).disjoint(spec_used_sectors(data, options, idx)));
            }
        }
        assert forall|i: int, j: int|
            0 <= i < 1024 && 0 <= j < 1024 && i != j implies #[trigger] spec_used_sectors(
            d2,
            options,
            i,
        ).disjoint(#[trigger] spec_used_sectors(d2, options, j)) by {
            if i != idx && j != idx {
                assert(spec_used_sectors(data, options, i).disjoint(spec_used_sectors(data, options, j)));
            } else if i == idx {
                assert(new_used.disjoint(spec_used_sectors(data, options, j)));
            } else {
                assert(new_used.disjoint(spec_used_sectors(data, options, i)));
            }
        }
    }
}

/// One write of a series, on a soundly laid out region: the written chunk
/// reads back with the bytes and codec written, every other chunk reads as
/// it did, and the region stays soundly laid out for the next write. It does
/// not hold when the record fills a whole number of sectors, e.g. a payload
/// of 4091 bytes.
pub proof fn lemma_series_write(
    data: Seq<u8>,
    options: Options,
    order: ByteOrder,
    m: Map<usize, usize>,
    x: u8,
    z: u8,
    payload: Seq<u8>,
    comp: ChunkCompression,
    read: Result<RawChunkData, RegionReadError>,
    ox: u8,
    oz: u8,
    other_read: Result<RawChunkData, RegionReadError>,
)
    requires
        data.len() >= 8192,
        data.len() % 4096 == 0,
        data.len() <= usize::MAX,
        sound_layout(data, options, m),
        (payload.len() + 5) % 4096 != 0,
        spec_write_compressed(data, options, m, spec_chunk_idx(x, z), payload, comp).0 is Ok,
        spec_chunk_data_raw(
            spec_write_compressed(data, options, m, spec_chunk_idx(x, z), payload, comp).1,
            options,
            order,
            x,
            z,
            read,
        ),
        spec_chunk_idx(ox, oz) != spec_chunk_idx(x, z),
    ensures
        ({
            let (r, d2, m2) = spec_write_compressed(
                data,
                options,
                m,
                spec_chunk_idx(x, z),
                payload,
                comp,
            );
            &&& r == Ok::<usize, RegionWriteError>(payload.len() as usize)
            &&& read matches Ok(RawChunkData::Chunk { bytes, compression, timestamp, .. })
                && bytes@ == payload && compression == comp && timestamp == spec_timestamp(
                data,
                spec_chunk_idx(x, z),
                order,
            )
            &&& spec_chunk_data_raw(d2, options, order, ox, oz, other_read) == spec_chunk_data_raw(
                data,
                options,
                order,
                ox,
                oz,
                other_read,
            )
            &&& sound_layout(d2, options, m2)
            &&& d2.len() >= data.len()
            &&& d2.len() % 4096 == 0
        }),
{
    let idx = spec_chunk_idx(x, z);
    let j = spec_chunk_idx(ox, oz);
    lemma_read_back_compressed(data, options, order, m, x, z, payload, comp, read);
    lemma_write_keeps_sound_layout(data, options, m, x, z, payload, comp);
    let span = spec_record_span(data, options, j);
    assert(span.subset_of(spec_used_sectors(data, options, j)));
    assert(spec_used_sectors(data, options, j).subset_of(sector_range(2, data.len() / 4096 - 2)));
    assert(spec_used_sectors(data, options, j).disjoint(free_sectors(m)));
    assert(spec_used_sectors(data, options, j).disjoint(spec_used_sectors(data, options, idx)));
    assert(spec_freed_span(data, options, idx).subset_of(spec_used_sectors(data, options, idx)));
    lemma_write_keeps_other_chunks(
        data,
        options,
        order,
        m,
        x,
        z,
        payload,
        comp,
        ox,
        oz,
        other_read,
    );
}

/// A chunk that reads as a stored record is read from the sector its header
/// entry names, and the record (length field, compression byte and the
/// bytes returned) lies in the sectors that a write to that chunk gives
/// back: freeing or rewriting a chunk releases every sector its record uses.
#[verifier::rlimit(40)]
pub proof fn lemma_read_record_is_freed(
    data: Seq<u8>,
    options: Options,
    order: ByteOrder,
    x: u8,
    z: u8,
    read: Result<RawChunkData, RegionReadError>,
)
    requires
        spec_chunk_data_raw(data, options, order, x, z, read),
    ensures
        read matches Ok(RawChunkData::Chunk { bytes, offset_sector, .. }) ==> {
            &&& offset_sector == spec_header_offset(data, spec_chunk_idx(x, z))
            &&& offset_sector >= 2
            &&& bytes@ == data.subrange(
                offset_sector * 4096 + 5,
                offset_sector * 4096 + 5 + bytes@.len(),
            )
            &&& forall|y: int|
                offset_sector <= y && y * 4096 < offset_sector * 4096 + 5 + bytes@.len()
                    ==> #[trigger] spec_freed_span(data, options, spec_chunk_idx(x, z)).contains(y)
        },
        read matches Ok(RawChunkData::External { offset_sector, .. }) ==> offset_sector
            == spec_header_offset(data, spec_chunk_idx(x, z)),
{
    let idx = spec_chunk_idx(x, z);
    let off = spec_header_offset(data, idx);
    let sc = spec_header_sectors(data, idx);
    if let Ok(RawChunkData::Chunk { bytes, offset_sector, .. }) = read {
        let bo = off * 4096;
        let length = be32(data, bo);
        assert(bytes@.len() == length - 1);
        assert(bo + sc * 4096 <= data.len());
        let n: int = if sc == 255 && options.allow_oversized_chunks {
            spec_sectors_for_length(length)
        } else {
            sc as int
        };
        assert(spec_freed_span(data, options, idx) == sector_range(off, n));
        assert forall|y: int|
            off <= y && y * 4096 < off * 4096 + 5 + bytes@.len() implies #[trigger] spec_freed_span(
            data,
            options,
            idx,
        ).contains(y) by {
            if sc == 255 && options.allow_oversized_chunks {
                assert(y < off + n) by (nonlinear_arith)
                    requires
                        y * 4096 < off * 4096 + 4 + length,
                        n == (length + 4 + 4095) / 4096,
                        length >= 1,
                ;
            } else {
                assert(4 + length <= sc * 4096);
                assert(y < off + n) by (nonlinear_arith)
                    requires
                        y * 4096 < off * 4096 + 4 + length,
                        4 + length <= n * 4096,
                ;
            }
        }
    }
}

/// A writer built from a region whose records are laid out leaves free no
/// sector of any record that a chunk reads: the record of every readable
/// chunk is taken out of the free sectors.
pub proof fn lemma_built_writer_keeps_records(
    data: Seq<u8>,
    options: Options,
    order: ByteOrder,
    x: u8,
    z: u8,
    read: Result<RawChunkData, RegionReadError>,
)
    requires
        data.len() >= 8192,
        data.len() % 4096 == 0,
        data.len() <= usize::MAX,
        records_laid_out(data, options, 1024),
        spec_chunk_data_raw(data, options, order, x, z, read),
    ensures
        spec_region_allocator(data, options, 1024) is Ok,
        read matches Ok(RawChunkData::Chunk { bytes, offset_sector, .. }) ==> forall|y: int|
            offset_sector <= y && y * 4096 < offset_sector * 4096 + 5 + bytes@.len()
                ==> !#[trigger] free_sectors(spec_region_allocator(data, options, 1024)->Ok_0).contains(y),
{
    let idx = spec_chunk_idx(x, z);
    lemma_region_allocator_frees_unclaimed(data, options, 1024);
    lemma_read_record_is_freed(data, options, order, x, z, read);
    let m = spec_region_allocator(data, options, 1024)->Ok_0;
    if let Ok(RawChunkData::Chunk { bytes, offset_sector, .. }) = read {
        assert forall|y: int|
            offset_sector <= y && y * 4096 < offset_sector * 4096 + 5 + bytes@.len() implies !#[trigger] free_sectors(
            m,
        ).contains(y) by {
            assert(spec_freed_span(data, options, idx).contains(y));
            assert(!unclaimed_sectors(data, options, 1024).contains(y));
        }
    }
}

/// A freshly made region reads every chunk as empty, with no timestamp.
pub proof fn lemma_new_region_reads_empty(
    options: Options,
    order: ByteOrder,
    x: u8,
    z: u8,
    read: Result<RawChunkData, RegionReadError>,
)
    requires
        spec_chunk_data_raw(Seq::new(8192, |i: int| 0u8), options, order, x, z, read),
    ensures
        read == Ok::<RawChunkData, RegionReadError>(RawChunkData::Empty),
        spec_timestamp(Seq::new(8192, |i: int| 0u8), spec_chunk_idx(x, z), order) == 0,
{
    reveal(word);
    let d = Seq::new(8192, |i: int| 0u8);
    let idx = spec_chunk_idx(x, z);
    assert(d[4 * idx] == 0 && d[4 * idx + 1] == 0 && d[4 * idx + 2] == 0 && d[4 * idx + 3] == 0);
    assert(d[4096 + 4 * idx] == 0 && d[4096 + 4 * idx + 1] == 0 && d[4096 + 4 * idx + 2] == 0
        && d[4096 + 4 * idx + 3] == 0);
}

/// Writing a timestamp is what reading it back gives; no header entry and no
/// other chunk's timestamp changes, and every other chunk reads as it did.
pub proof fn lemma_timestamp_read_back(
    data: Seq<u8>,
    options: Options,
    order: ByteOrder,
    x: u8,
    z: u8,
    timestamp: u32,
    ox: u8,
    oz: u8,
    read: Result<RawChunkData, RegionReadError>,
)
    requires
        data.len() >= 8192,
    ensures
        ({
            let idx = spec_chunk_idx(x, z);
            let other = spec_chunk_idx(ox, oz);
            let d2 = splice(data, 4096 + 4 * idx, word_bytes(timestamp as int, order));
            &&& d2.len() == data.len()
            &&& spec_timestamp(d2, idx, order) == timestamp
            &&& other != idx ==> spec_timestamp(d2, other, order) == spec_timestamp(data, other, order)
            &&& spec_header_offset(d2, other) == spec_header_offset(data, other)
            &&& spec_header_sectors(d2, other) == spec_header_sectors(data, other)
            &&& other != idx ==> spec_chunk_data_raw(d2, options, order, ox, oz, read)
                == spec_chunk_data_raw(data, options, order, ox, oz, read)
        }),
{
    let idx = spec_chunk_idx(x, z);
    let other = spec_chunk_idx(ox, oz);
    let at = 4096 + 4 * idx;
    let b = word_bytes(timestamp as int, order);
    let d2 = splice(data, at, b);
    reveal(word);
    lemma_word_roundtrip(timestamp as int, order);
    lemma_splice_index(data, at, b, at);
    lemma_splice_index(data, at, b, at + 1);
    lemma_splice_index(data, at, b, at + 2);
    lemma_splice_index(data, at, b, at + 3);
    assert forall|p: int| 0 <= p < data.len() && !(at <= p < at + 4) implies #[trigger] d2[p]
        == data[p] by {
        lemma_splice_index(data, at, b, p);
    }
    if other != idx {
        lemma_read_agrees_same_len(data, d2, options, order, ox, oz, read);
    }
}

/// Two regions of the same length that agree past the tables and on the
/// header entry and timestamp of chunk `(x, z)` read that chunk alike.
#[verifier::rlimit(40)]
proof fn lemma_read_agrees_same_len(
    data: Seq<u8>,
    d2: Seq<u8>,
    options: Options,
    order: ByteOrder,
    x: u8,
    z: u8,
    read: Result<RawChunkData, RegionReadError>,
)
    requires
        data.len() >= 8192,
        d2.len() == data.len(),
        forall|p: int|
            4 * spec_chunk_idx(x, z) <= p < 4 * spec_chunk_idx(x, z) + 4 || 4096 + 4 * spec_chunk_idx(x, z)
                <= p < 4096 + 4 * spec_chunk_idx(x, z) + 4 || 8192 <= p < data.len() ==> #[trigger] d2[p]
                == data[p],
    ensures
        spec_chunk_data_raw(d2, options, order, x, z, read) == spec_chunk_data_raw(
            data,
            options,
            order,
            x,
            z,
            read,
        ),
{
    reveal(word);
    let oidx = spec_chunk_idx(x, z);
    assert(d2[4 * oidx] == data[4 * oidx] && d2[4 * oidx + 1] == data[4 * oidx + 1] && d2[4 * oidx
        + 2] == data[4 * oidx + 2] && d2[4 * oidx + 3] == data[4 * oidx + 3]);
    let t = 4096 + 4 * oidx;
    assert(d2[t] == data[t] && d2[t + 1] == data[t + 1] && d2[t + 2] == data[t + 2] && d2[t + 3]
        == data[t + 3]);
    let off = spec_header_offset(data, oidx);
    let osc = spec_header_sectors(data, oidx);
    if off >= 2 && osc != 0 {
        let bo = off * 4096;
        if bo + osc * 4096 <= data.len() {
            assert(bo >= 8192);
            assert(bo + 4 < bo + osc * 4096) by (nonlinear_arith)
                requires
                    osc >= 1,
            ;
            assert(d2[bo] == data[bo] && d2[bo + 1] == data[bo + 1] && d2[bo + 2] == data[bo + 2]
                && d2[bo + 3] == data[bo + 3] && d2[bo + 4] == data[bo + 4]);
            assert forall|lo: int, hi: int| bo <= lo <= hi <= data.len() implies d2.subrange(lo, hi)
                =~= data.subrange(lo, hi) by {
                assert forall|i: int| 0 <= i < hi - lo implies d2.subrange(lo, hi)[i]
                    == data.subrange(lo, hi)[i] by {
                    assert(d2[lo + i] == data[lo + i]);
                }
            }
            let length = be32(data, bo);
            assert(be32(d2, bo) == length);
        }
    }
}

/// Reading a chunk back after `write_chunk_data_uncompressed` succeeded with
/// a timestamp gives the stream the codec made of the input, the codec and
/// that timestamp; `CompressedChunk::decompress_to` then gives the input
/// back. As for compressed writes, it does not hold when the stream's length
/// plus five is a whole number of sectors.
pub proof fn lemma_read_back_uncompressed(
    data: Seq<u8>,
    options: Options,
    order: ByteOrder,
    m: Map<usize, usize>,
    x: u8,
    z: u8,
    input: Seq<u8>,
    comp: ChunkCompression,
    level: u32,
    timestamp: u32,
    read: Result<RawChunkData, RegionReadError>,
)
    requires
        data.len() >= 8192,
        data.len() % 4096 == 0,
        keys_at_least(m, 2),
        runs_in_range(m),
        spec_encoded(input, comp, level).0,
        (spec_encoded(input, comp, level).1.len() + 5) % 4096 != 0,
        ({
            let d1 = splice(data, 4096 + 4 * spec_chunk_idx(x, z), word_bytes(timestamp as int, order));
            let w = spec_write_compressed(
                d1,
                options,
                m,
                spec_chunk_idx(x, z),
                spec_encoded(input, comp, level).1,
                comp,
            );
            &&& w.0 is Ok
            &&& spec_chunk_data_raw(w.1, options, order, x, z, read)
        }),
    ensures
        read matches Ok(RawChunkData::Chunk { bytes, compression, timestamp: ts, .. }) && bytes@
            == spec_encoded(input, comp, level).1 && compression == comp && ts == timestamp,
{
    let idx = spec_chunk_idx(x, z);
    let d1 = splice(data, 4096 + 4 * idx, word_bytes(timestamp as int, order));
    lemma_timestamp_read_back(data, options, order, x, z, timestamp, x, z, read);
    assert(d1.len() == data.len());
    lemma_read_back_compressed(
        d1,
        options,
        order,
        m,
        x,
        z,
        spec_encoded(input, comp, level).1,
        comp,
        read,
    );
}

/// The four bytes of `v`, big-endian.
fn be_bytes(v: u32) -> (r: [u8; 4])
    ensures
        r@ == be32_bytes(v as int),
{
    let r = [(v / 16777216 % 256) as u8, (v / 65536 % 256) as u8, (v / 256 % 256) as u8, (v % 256) as u8];
    assert(r@ =~= be32_bytes(v as int));
    r
}

} // verus!
