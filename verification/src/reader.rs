//! Reading chunk records out of the bytes of a region file.
use vstd::prelude::*;

use crate::mcregion::{
    be24, be32, chunk_idx_fast, coords_accepted, native_byte_order, read_be_u32, read_u32,
    spec_chunk_idx, spec_compression_of, word, ByteOrder, ChunkCompression, CompressedChunk,
    MCRegionHeader, MCRegionHeaders, MCRegionTimestamps, Options, RawChunkData, RegionReadError,
    REGION_SIZE, SECTOR_SIZE,
};
use crate::private::Sealed;

verus! {

/// Sector offset stored in header `idx`.
pub open spec fn spec_header_offset(data: Seq<u8>, idx: int) -> int {
    be24(data, 4 * idx)
}

/// Sector count stored in header `idx`.
pub open spec fn spec_header_sectors(data: Seq<u8>, idx: int) -> u8 {
    data[4 * idx + 3]
}

/// Timestamp stored for chunk `idx`: the `idx`-th `u32` of the second
/// sector, in byte order `o`.
pub open spec fn spec_timestamp(data: Seq<u8>, idx: int, o: ByteOrder) -> int {
    word(data, 4096 + 4 * idx, o)
}

/// Number of sectors that a length field of `length` bytes spans, counting
/// the four bytes of the field itself.
pub open spec fn spec_sectors_for_length(length: int) -> int {
    (length + 4 + 4095) / 4096
}

/// What `actual_sector_count` gives for a header with this offset and count.
pub open spec fn spec_actual_sector_count(data: Seq<u8>, options: Options, offset: int, sectors: u8) -> Result<
    Option<(usize, usize)>,
    RegionReadError,
> {
    if offset == 0 {
        Ok(None)
    } else if offset == 1 {
        Err(RegionReadError::InvalidChunkOffset)
    } else if sectors == 255 && options.allow_oversized_chunks {
        let byte_offset = offset * 4096;
        if byte_offset + 4 > data.len() {
            Err(RegionReadError::MissingChunkData)
        } else {
            Ok(Some((offset as usize, spec_sectors_for_length(be32(data, byte_offset)) as usize)))
        }
    } else {
        Ok(Some((offset as usize, sectors as usize)))
    }
}

/// What `chunk_data_raw_unchecked` gives for chunk `(x, z)`: `r` is the
/// only result that meets it, up to which slice holds the bytes.
pub open spec fn spec_chunk_data_raw(
    data: Seq<u8>,
    options: Options,
    o: ByteOrder,
    x: u8,
    z: u8,
    r: Result<RawChunkData, RegionReadError>,
) -> bool {
    let idx = spec_chunk_idx(x, z);
    let off = spec_header_offset(data, idx);
    let sc = spec_header_sectors(data, idx);
    if off == 1 {
        r == Err::<RawChunkData, RegionReadError>(RegionReadError::InvalidChunkOffset)
    } else if off == 0 || sc == 0 {
        r == Ok::<RawChunkData, RegionReadError>(RawChunkData::Empty)
    } else {
        let bo = off * 4096;
        let bc = sc * 4096;
        if bo + bc > data.len() {
            r == Err::<RawChunkData, RegionReadError>(RegionReadError::MissingChunkData)
        } else {
            let length = be32(data, bo);
            let cb = data[bo + 4];
            let ts = spec_timestamp(data, idx, o);
            match spec_compression_of(cb) {
                None => r == Err::<RawChunkData, RegionReadError>(
                    RegionReadError::InvalidCompression(cb),
                ),
                Some(comp) => if cb >= 128 {
                    r == Ok::<RawChunkData, RegionReadError>(
                        RawChunkData::External {
                            offset_sector: off as u32,
                            timestamp: ts as u32,
                            compression: comp,
                        },
                    )
                } else if sc == 255 && spec_sectors_for_length(length) > 255 {
                    if options.allow_oversized_chunks {
                        if 1 <= length && bo + 4 + length <= data.len() {
                            chunk_record(r, data.subrange(bo + 5, bo + 4 + length), off, ts, comp)
                        } else {
                            r == Err::<RawChunkData, RegionReadError>(
                                RegionReadError::MissingChunkData,
                            )
                        }
                    } else {
                        r == Err::<RawChunkData, RegionReadError>(
                            RegionReadError::OversizedChunk(length as usize),
                        )
                    }
                } else if 1 <= length && 4 + length <= bc {
                    chunk_record(r, data.subrange(bo + 5, bo + 4 + length), off, ts, comp)
                } else {
                    r == Err::<RawChunkData, RegionReadError>(
                        RegionReadError::InvalidChunkLengthField,
                    )
                },
            }
        }
    }
}

/// `r` is a stored chunk with these bytes, sector offset, timestamp and codec.
pub open spec fn chunk_record(
    r: Result<RawChunkData, RegionReadError>,
    bytes: Seq<u8>,
    off: int,
    ts: int,
    comp: ChunkCompression,
) -> bool {
    &&& r matches Ok(RawChunkData::Chunk { bytes: b, offset_sector, timestamp, compression })
    &&& b@ == bytes
    &&& offset_sector == off
    &&& timestamp == ts
    &&& compression == comp
}

proof fn lemma_header_fields(h: MCRegionHeader, d: Seq<u8>, idx: int)
    requires
        0 <= idx < 1024,
        d.len() >= 8192,
        h.0@ == d.subrange(4 * idx, 4 * idx + 4),
    ensures
        h.spec_offset() == spec_header_offset(d, idx),
        h.spec_sector_count() == spec_header_sectors(d, idx),
        h.0@[0] == d[4 * idx],
        h.0@[1] == d[4 * idx + 1],
        h.0@[2] == d[4 * idx + 2],
        h.0@[3] == d[4 * idx + 3],
{
    assert(h.0@[0] == d[4 * idx]);
    assert(h.0@[1] == d[4 * idx + 1]);
    assert(h.0@[2] == d[4 * idx + 2]);
    assert(h.0@[3] == d[4 * idx + 3]);
}

/// Address of the first byte of `data`; nothing is promised of its value.
#[verifier::external_body]
fn slice_address(data: &[u8]) -> usize {
    data.as_ptr() as usize
}

/// Read access to the bytes of a region file.
pub trait RegionReaderImpl<'a>: Sized + Sealed {
    /// The bytes of the region file.
    spec fn spec_data(&self) -> Seq<u8>;

    spec fn spec_options(&self) -> Options;

    /// The byte order in which the timestamps are read.
    spec fn spec_order(&self) -> ByteOrder;

    /// The reader is consistent with its bytes.
    spec fn reader_wf(&self) -> bool;

    proof fn lemma_reader_wf(&self)
        requires
            self.reader_wf(),
        ensures
            self.spec_data().len() >= 8192,
    ;

    fn data(&self) -> (r: &'a [u8])
        requires
            self.reader_wf(),
        ensures
            r@ == self.spec_data(),
    ;

    fn get_header_unchecked(&self, x: u8, z: u8) -> (r: MCRegionHeader)
        requires
            self.reader_wf(),
        ensures
            r.0@ == self.spec_data().subrange(
                4 * spec_chunk_idx(x, z),
                4 * spec_chunk_idx(x, z) + 4,
            ),
    ;

    fn get_timestamp_unchecked(&self, x: u8, z: u8) -> (r: u32)
        requires
            self.reader_wf(),
        ensures
            r == spec_timestamp(self.spec_data(), spec_chunk_idx(x, z), self.spec_order()),
    ;

    fn options(&self) -> (r: &Options)
        ensures
            *r == self.spec_options(),
    ;

    /// Offset and number of sectors that the chunk of `header` occupies; for
    /// a full count of 255 with oversized chunks allowed, the count comes from
    /// the chunk's length field.
    fn actual_sector_count(&self, header: &MCRegionHeader) -> (r: Result<Option<(usize, usize)>, RegionReadError>)
        requires
            self.reader_wf(),
        ensures
            r == spec_actual_sector_count(
                self.spec_data(),
                self.spec_options(),
                header.spec_offset(),
                header.spec_sector_count(),
            ),
            header.spec_offset() >= 2 && !(header.spec_sector_count() == 255
                && self.spec_options().allow_oversized_chunks) ==> r == Ok::<
                Option<(usize, usize)>,
                RegionReadError,
            >(Some((header.spec_offset() as usize, header.spec_sector_count() as usize))),
    {
        let (offset, sectors) = header.unpack();
        if offset == 0 {
            return Ok(None);
        }
        if offset == 1 {
            return Err(RegionReadError::InvalidChunkOffset);
        }
        let actual_sectors = if sectors == 255 && self.options().allow_oversized_chunks {
            let data = self.data();
            let byte_offset = offset as u64 * 4096;
            if byte_offset + 4 > data.len() as u64 {
                return Err(RegionReadError::MissingChunkData);
            }
            let length = read_be_u32(data, byte_offset as usize);
            ((length as u64 + 4 + 4095) / 4096) as usize
        } else {
            sectors as usize
        };
        Ok(Some((offset as usize, actual_sectors)))
    }

    fn chunk_offset_in_sectors_raw_unchecked(&self, x: u8, z: u8) -> (r: Result<Option<u32>, RegionReadError>)
        requires
            self.reader_wf(),
        ensures
            ({
                let off = spec_header_offset(self.spec_data(), spec_chunk_idx(x, z));
                if off == 1 {
                    r == Err::<Option<u32>, RegionReadError>(RegionReadError::InvalidChunkOffset)
                } else if off == 0 {
                    r == Ok::<Option<u32>, RegionReadError>(None)
                } else {
                    r == Ok::<Option<u32>, RegionReadError>(Some(off as u32))
                }
            }),
    {
        let header = self.get_header_unchecked(x, z);
        proof {
            self.lemma_reader_wf();
            lemma_header_fields(header, self.spec_data(), spec_chunk_idx(x, z));
        }
        let offset = header.offset();
        if offset == 1 {
            Err(RegionReadError::InvalidChunkOffset)
        } else if offset == 0 {
            Ok(None)
        } else {
            Ok(Some(offset))
        }
    }

    fn chunk_offset_in_sectors_raw(&self, x: u8, z: u8) -> (r: Result<Option<u32>, RegionReadError>)
        requires
            self.reader_wf(),
        ensures
            !coords_accepted(x, z) ==> r == Err::<Option<u32>, RegionReadError>(
                RegionReadError::InvalidChunkCoords(x, z),
            ),
            coords_accepted(x, z) ==> ({
                let off = spec_header_offset(self.spec_data(), spec_chunk_idx(x, z));
                if off == 1 {
                    r == Err::<Option<u32>, RegionReadError>(RegionReadError::InvalidChunkOffset)
                } else if off == 0 {
                    r == Ok::<Option<u32>, RegionReadError>(None)
                } else {
                    r == Ok::<Option<u32>, RegionReadError>(Some(off as u32))
                }
            }),
    {
        if x <= REGION_SIZE && z <= REGION_SIZE {
            self.chunk_offset_in_sectors_raw_unchecked(x, z)
        } else {
            Err(RegionReadError::InvalidChunkCoords(x, z))
        }
    }

    fn chunk_sector_count_raw_unchecked(&self, x: u8, z: u8) -> (r: Option<u8>)
        requires
            self.reader_wf(),
        ensures
            ({
                let sc = spec_header_sectors(self.spec_data(), spec_chunk_idx(x, z));
                if sc == 0 {
                    r == None::<u8>
                } else {
                    r == Some(sc)
                }
            }),
    {
        let header = self.get_header_unchecked(x, z);
        proof {
            self.lemma_reader_wf();
            lemma_header_fields(header, self.spec_data(), spec_chunk_idx(x, z));
        }
        let sc = header.sector_count();
        if sc == 0 {
            None
        } else {
            Some(sc)
        }
    }

    fn chunk_sector_count_raw(&self, x: u8, z: u8) -> (r: Result<Option<u8>, RegionReadError>)
        requires
            self.reader_wf(),
        ensures
            !coords_accepted(x, z) ==> r == Err::<Option<u8>, RegionReadError>(
                RegionReadError::InvalidChunkCoords(x, z),
            ),
            coords_accepted(x, z) ==> ({
                let sc = spec_header_sectors(self.spec_data(), spec_chunk_idx(x, z));
                if sc == 0 {
                    r == Ok::<Option<u8>, RegionReadError>(None)
                } else {
                    r == Ok::<Option<u8>, RegionReadError>(Some(sc))
                }
            }),
    {
        if x <= REGION_SIZE && z <= REGION_SIZE {
            Ok(self.chunk_sector_count_raw_unchecked(x, z))
        } else {
            Err(RegionReadError::InvalidChunkCoords(x, z))
        }
    }

    fn chunk_header_unchecked(&self, x: u8, z: u8) -> (r: Result<Option<(u32, u8)>, RegionReadError>)
        requires
            self.reader_wf(),
        ensures
            ({
                let off = spec_header_offset(self.spec_data(), spec_chunk_idx(x, z));
                let sc = spec_header_sectors(self.spec_data(), spec_chunk_idx(x, z));
                if off == 1 {
                    r == Err::<Option<(u32, u8)>, RegionReadError>(
                        RegionReadError::InvalidChunkOffset,
                    )
                } else if off == 0 || sc == 0 {
                    r == Ok::<Option<(u32, u8)>, RegionReadError>(None)
                } else {
                    r == Ok::<Option<(u32, u8)>, RegionReadError>(Some((off as u32, sc)))
                }
            }),
    {
        let header = self.get_header_unchecked(x, z);
        proof {
            self.lemma_reader_wf();
            lemma_header_fields(header, self.spec_data(), spec_chunk_idx(x, z));
        }
        let (offset, sector_count) = header.unpack();
        if offset == 1 {
            Err(RegionReadError::InvalidChunkOffset)
        } else if offset != 0 && sector_count != 0 {
            Ok(Some((offset, sector_count)))
        } else {
            Ok(None)
        }
    }

    fn chunk_header(&self, x: u8, z: u8) -> (r: Result<Option<(u32, u8)>, RegionReadError>)
        requires
            self.reader_wf(),
        ensures
            !coords_accepted(x, z) ==> r == Err::<Option<(u32, u8)>, RegionReadError>(
                RegionReadError::InvalidChunkCoords(x, z),
            ),
            coords_accepted(x, z) ==> ({
                let off = spec_header_offset(self.spec_data(), spec_chunk_idx(x, z));
                let sc = spec_header_sectors(self.spec_data(), spec_chunk_idx(x, z));
                if off == 1 {
                    r == Err::<Option<(u32, u8)>, RegionReadError>(
                        RegionReadError::InvalidChunkOffset,
                    )
                } else if off == 0 || sc == 0 {
                    r == Ok::<Option<(u32, u8)>, RegionReadError>(None)
                } else {
                    r == Ok::<Option<(u32, u8)>, RegionReadError>(Some((off as u32, sc)))
                }
            }),
    {
        if x <= REGION_SIZE && z <= REGION_SIZE {
            self.chunk_header_unchecked(x, z)
        } else {
            Err(RegionReadError::InvalidChunkCoords(x, z))
        }
    }

    fn chunk_timestamp_unchecked(&self, x: u8, z: u8) -> (r: Option<u32>)
        requires
            self.reader_wf(),
        ensures
            ({
                let ts = spec_timestamp(self.spec_data(), spec_chunk_idx(x, z), self.spec_order());
                if ts == 0 {
                    r == None::<u32>
                } else {
                    r == Some(ts as u32)
                }
            }),
    {
        let timestamp = self.get_timestamp_unchecked(x, z);
        if timestamp == 0 {
            None
        } else {
            Some(timestamp)
        }
    }

    fn chunk_timestamp(&self, x: u8, z: u8) -> (r: Result<Option<u32>, RegionReadError>)
        requires
            self.reader_wf(),
        ensures
            !coords_accepted(x, z) ==> r == Err::<Option<u32>, RegionReadError>(
                RegionReadError::InvalidChunkCoords(x, z),
            ),
            coords_accepted(x, z) ==> ({
                let ts = spec_timestamp(self.spec_data(), spec_chunk_idx(x, z), self.spec_order());
                if ts == 0 {
                    r == Ok::<Option<u32>, RegionReadError>(None)
                } else {
                    r == Ok::<Option<u32>, RegionReadError>(Some(ts as u32))
                }
            }),
    {
        if x <= REGION_SIZE && z <= REGION_SIZE {
            Ok(self.chunk_timestamp_unchecked(x, z))
        } else {
            Err(RegionReadError::InvalidChunkCoords(x, z))
        }
    }

    /// The record of chunk `(x, z)`: its compressed bytes, codec and timestamp,
    /// or the marker of an external chunk, or nothing.
    fn chunk_data_raw_unchecked(&self, x: u8, z: u8) -> (r: Result<RawChunkData<'a>, RegionReadError>)
        requires
            self.reader_wf(),
        ensures
            spec_chunk_data_raw(self.spec_data(), self.spec_options(), self.spec_order(), x, z, r),
            r matches Ok(RawChunkData::Chunk { offset_sector, bytes, .. }) ==> offset_sector
                == spec_header_offset(self.spec_data(), spec_chunk_idx(x, z)) && bytes@
                == self.spec_data().subrange(
                offset_sector * 4096 + 5,
                offset_sector * 4096 + 5 + bytes@.len(),
            ),
            r matches Ok(RawChunkData::External { offset_sector, .. }) ==> offset_sector
                == spec_header_offset(self.spec_data(), spec_chunk_idx(x, z)),
    {
        proof {
            self.lemma_reader_wf();
        }
        let data = self.data();
        let ghost d = data@;
        let ghost idx = spec_chunk_idx(x, z);
        let header = self.get_header_unchecked(x, z);
        let (sector_offset, sector_count) = header.unpack();
        proof {
            lemma_header_fields(header, d, idx);
        }
        if sector_offset == 1 {
            return Err(RegionReadError::InvalidChunkOffset);
        }
        if sector_offset == 0 || sector_count == 0 {
            return Ok(RawChunkData::Empty);
        }
        let byte_offset_wide = sector_offset as u64 * 4096;
        let byte_count_wide = sector_count as u64 * 4096;
        if byte_offset_wide + byte_count_wide > data.len() as u64 {
            return Err(RegionReadError::MissingChunkData);
        }
        let byte_offset = byte_offset_wide as usize;
        let byte_count = byte_count_wide as usize;
        let length = read_be_u32(data, byte_offset);
        let compression_byte = data[byte_offset + 4];
        let low = compression_byte & 0x7F;
        assert(low == compression_byte % 128) by (bit_vector)
            requires
                low == compression_byte & 0x7F,
        ;
        let compression = if low == 1 {
            ChunkCompression::Gzip
        } else if low == 2 {
            ChunkCompression::Zlib
        } else if low == 3 {
            ChunkCompression::Uncompressed
        } else if low == 4 {
            ChunkCompression::Lz4
        } else {
            return Err(RegionReadError::InvalidCompression(compression_byte));
        };
        let timestamp = self.get_timestamp_unchecked(x, z);
        let external = compression_byte & 0x80 != 0;
        assert(external == (compression_byte >= 128)) by (bit_vector)
            requires
                external == (compression_byte & 0x80 != 0),
        ;
        if external {
            return Ok(
                RawChunkData::External { offset_sector: sector_offset, timestamp, compression },
            );
        }
        let length_wide = length as u64;
        if sector_count == 255 {
            let recalculated_sector_count = (length_wide + 4 + 4095) / 4096;
            if recalculated_sector_count > 255 {
                return if self.options().allow_oversized_chunks {
                    if 1 <= length_wide && byte_offset_wide + 4 + length_wide <= data.len() as u64 {
                        let end = byte_offset + 4 + length as usize;
                        let bytes = vstd::slice::slice_subrange(data, byte_offset + 5, end);
                        Ok(
                            RawChunkData::Chunk {
                                offset_sector: sector_offset,
                                bytes: CompressedChunk::new(bytes),
                                compression,
                                timestamp,
                            },
                        )
                    } else {
                        Err(RegionReadError::MissingChunkData)
                    }
                } else {
                    Err(RegionReadError::OversizedChunk(length as usize))
                };
            }
        }
        if 1 <= length_wide && 4 + length_wide <= byte_count_wide {
            let end = byte_offset + 4 + length as usize;
            let bytes = vstd::slice::slice_subrange(data, byte_offset + 5, end);
            Ok(
                RawChunkData::Chunk {
                    offset_sector: sector_offset,
                    bytes: CompressedChunk::new(bytes),
                    compression,
                    timestamp,
                },
            )
        } else {
            Err(RegionReadError::InvalidChunkLengthField)
        }
    }

    /// As `chunk_data_raw_unchecked`, with no chunk outside the accepted coordinates.
    fn chunk_data_raw(&self, x: u8, z: u8) -> (r: Result<RawChunkData<'a>, RegionReadError>)
        requires
            self.reader_wf(),
        ensures
            !coords_accepted(x, z) ==> r == Ok::<RawChunkData, RegionReadError>(
                RawChunkData::Empty,
            ),
            coords_accepted(x, z) ==> spec_chunk_data_raw(
                self.spec_data(),
                self.spec_options(),
                self.spec_order(),
                x,
                z,
                r,
            ),
            coords_accepted(x, z) ==> (r matches Ok(RawChunkData::Chunk { offset_sector, bytes, .. }) ==> offset_sector
                == spec_header_offset(self.spec_data(), spec_chunk_idx(x, z)) && bytes@
                == self.spec_data().subrange(
                offset_sector * 4096 + 5,
                offset_sector * 4096 + 5 + bytes@.len(),
            )),
            coords_accepted(x, z) ==> (r matches Ok(RawChunkData::External { offset_sector, .. }) ==> offset_sector
                == spec_header_offset(self.spec_data(), spec_chunk_idx(x, z))),
    {
        if x <= REGION_SIZE && z <= REGION_SIZE {
            self.chunk_data_raw_unchecked(x, z)
        } else {
            Ok(RawChunkData::Empty)
        }
    }

    /// Whether the header of `(x, z)` holds anything at all.
    fn is_generated(&self, x: u8, z: u8) -> (r: bool)
        requires
            self.reader_wf(),
        ensures
            r == (coords_accepted(x, z) && self.spec_data().subrange(
                4 * spec_chunk_idx(x, z),
                4 * spec_chunk_idx(x, z) + 4,
            ) != seq![0u8, 0u8, 0u8, 0u8]),
    {
        if x <= REGION_SIZE && z <= REGION_SIZE {
            !self.get_header_unchecked(x, z).is_none()
        } else {
            false
        }
    }
}

/// Reader over the bytes of a region file, with the header and timestamp
/// tables decoded up front.
pub struct MCRegionReader<'a> {
    options: Options,
    order: ByteOrder,
    data: &'a [u8],
    headers: MCRegionHeaders,
    timestamps: MCRegionTimestamps,
}

impl<'a> MCRegionReader<'a> {
    /// Fails with `MissingHeaders` below two sectors of data, with
    /// `UnalignedData` when the data does not start on a sector boundary in
    /// memory, and with `InvalidBackingBufferSize` when its length is not a
    /// whole number of sectors. Where the data lies in memory, and the
    /// machine's byte order, decide as `new_at` says for the address and the
    /// order found.
    pub fn new(options: Options, data: &'a [u8]) -> (r: Result<Self, RegionReadError>)
        ensures
            data@.len() < 8192 ==> r == Err::<Self, RegionReadError>(
                RegionReadError::MissingHeaders,
            ),
            r matches Err(e) ==> data@.len() < 8192 || e == RegionReadError::UnalignedData || (
            data@.len() % 4096 != 0 && e == RegionReadError::InvalidBackingBufferSize(
                data@.len() as usize,
            )),
            r is Ok ==> data@.len() >= 8192 && data@.len() % 4096 == 0,
            r matches Ok(reader) ==> reader.reader_wf() && reader.spec_data() == data@
                && reader.spec_options() == options,
    {
        let address = slice_address(data);
        let order = native_byte_order();
        Self::new_at(options, data, address, order)
    }

    /// The reader over `data` when it starts at memory address `address`,
    /// reading timestamps in byte order `order`: `MissingHeaders` below two
    /// sectors, then `UnalignedData` off a sector boundary, then
    /// `InvalidBackingBufferSize` for a partial last sector, and otherwise a
    /// reader with both tables decoded.
    pub fn new_at(options: Options, data: &'a [u8], address: usize, order: ByteOrder) -> (r: Result<
        Self,
        RegionReadError,
    >)
        ensures
            data@.len() < 8192 ==> r == Err::<Self, RegionReadError>(
                RegionReadError::MissingHeaders,
            ),
            data@.len() >= 8192 && address % 4096 != 0 ==> r == Err::<Self, RegionReadError>(
                RegionReadError::UnalignedData,
            ),
            data@.len() >= 8192 && address % 4096 == 0 && data@.len() % 4096 != 0 ==> r == Err::<
                Self,
                RegionReadError,
            >(RegionReadError::InvalidBackingBufferSize(data@.len() as usize)),
            data@.len() >= 8192 && address % 4096 == 0 && data@.len() % 4096 == 0 ==> (r matches Ok(
                reader,
            ) && reader.reader_wf() && reader.spec_data() == data@ && reader.spec_options()
                == options && reader.spec_order() == order),
    {
        if data.len() < 2 * SECTOR_SIZE {
            Err(RegionReadError::MissingHeaders)
        } else if address % SECTOR_SIZE != 0 {
            Err(RegionReadError::UnalignedData)
        } else if data.len() % SECTOR_SIZE != 0 {
            Err(RegionReadError::InvalidBackingBufferSize(data.len()))
        } else {
            let (headers, timestamps) = decode_tables(data, order);
            Ok(MCRegionReader { options, order, data, headers, timestamps })
        }
    }

    /// The decoded header table.
    pub fn headers(&self) -> (r: &MCRegionHeaders)
        requires
            self.reader_wf(),
        ensures
            forall|i: int|
                0 <= i < 1024 ==> (#[trigger] r.0@[i]).0@ == self.spec_data().subrange(
                    4 * i,
                    4 * i + 4,
                ),
    {
        &self.headers
    }

    /// The decoded timestamp table.
    pub fn timestamps(&self) -> (r: &MCRegionTimestamps)
        requires
            self.reader_wf(),
        ensures
            forall|i: int|
                0 <= i < 1024 ==> #[trigger] r.0@[i] == spec_timestamp(
                    self.spec_data(),
                    i,
                    self.spec_order(),
                ),
    {
        &self.timestamps
    }
}

/// Decodes the header table and the timestamp table at the start of `data`.
fn decode_tables(data: &[u8], order: ByteOrder) -> (r: (MCRegionHeaders, MCRegionTimestamps))
    requires
        data@.len() >= 8192,
    ensures
        forall|i: int|
            0 <= i < 1024 ==> (#[trigger] r.0.0@[i]).0@ == data@.subrange(4 * i, 4 * i + 4),
        forall|i: int| 0 <= i < 1024 ==> #[trigger] r.1.0@[i] == spec_timestamp(data@, i, order),
{
    let mut headers = [MCRegionHeader([0u8, 0u8, 0u8, 0u8]); 1024];
    let mut timestamps = [0u32; 1024];
    let mut i: usize = 0;
    while i < 1024
        invariant
            i <= 1024,
            data@.len() >= 8192,
            forall|j: int| 0 <= j < i ==> (#[trigger] headers@[j]).0@ == data@.subrange(4 * j, 4 * j + 4),
            forall|j: int| 0 <= j < i ==> #[trigger] timestamps@[j] == spec_timestamp(data@, j, order),
        decreases 1024 - i,
    {
        let h = MCRegionHeader([data[4 * i], data[4 * i + 1], data[4 * i + 2], data[4 * i + 3]]);
        assert(h.0@ =~= data@.subrange(4 * i as int, 4 * i + 4));
        headers[i] = h;
        timestamps[i] = read_u32(data, 4096 + 4 * i, order);
        i = i + 1;
    }
    (MCRegionHeaders(headers), MCRegionTimestamps(timestamps))
}

impl<'a> Sealed for MCRegionReader<'a> {

}

impl<'a> RegionReaderImpl<'a> for MCRegionReader<'a> {
    closed spec fn spec_data(&self) -> Seq<u8> {
        self.data@
    }

    closed spec fn spec_options(&self) -> Options {
        self.options
    }

    closed spec fn spec_order(&self) -> ByteOrder {
        self.order
    }

    closed spec fn reader_wf(&self) -> bool {
        &&& self.data@.len() >= 8192
        &&& forall|i: int|
            0 <= i < 1024 ==> (#[trigger] self.headers.0@[i]).0@ == self.data@.subrange(
                4 * i,
                4 * i + 4,
            )
        &&& forall|i: int|
            0 <= i < 1024 ==> #[trigger] self.timestamps.0@[i] == spec_timestamp(
                self.data@,
                i,
                self.order,
            )
    }

    proof fn lemma_reader_wf(&self) {
    }

    fn data(&self) -> (r: &'a [u8]) {
        self.data
    }

    fn get_header_unchecked(&self, x: u8, z: u8) -> (r: MCRegionHeader) {
        let idx = chunk_idx_fast(x, z);
        self.headers.0[idx]
    }

    fn get_timestamp_unchecked(&self, x: u8, z: u8) -> (r: u32) {
        let idx = chunk_idx_fast(x, z);
        self.timestamps.0[idx]
    }

    fn options(&self) -> (r: &Options) {
        &self.options
    }
}

/// Reader that works on the bytes of a region file directly, as handed out
/// by a writer.
pub struct WrappedMCRegionReader<'a>(&'a [u8], &'a Options, ByteOrder);

impl<'a> WrappedMCRegionReader<'a> {
    /// A reader over `data`, which must hold at least the two table sectors,
    /// reading timestamps in byte order `order`.
    pub fn new(data: &'a [u8], options: &'a Options, order: ByteOrder) -> (r: Self)
        requires
            data@.len() >= 8192,
        ensures
            r.reader_wf(),
            r.spec_data() == data@,
            r.spec_options() == *options,
            r.spec_order() == order,
    {
        WrappedMCRegionReader(data, options, order)
    }
}

impl<'a> Sealed for WrappedMCRegionReader<'a> {

}

impl<'a> RegionReaderImpl<'a> for WrappedMCRegionReader<'a> {
    closed spec fn spec_data(&self) -> Seq<u8> {
        self.0@
    }

    closed spec fn spec_options(&self) -> Options {
        *self.1
    }

    closed spec fn spec_order(&self) -> ByteOrder {
        self.2
    }

    closed spec fn reader_wf(&self) -> bool {
        self.0@.len() >= 8192
    }

    proof fn lemma_reader_wf(&self) {
    }

    fn data(&self) -> (r: &'a [u8]) {
        self.0
    }

    fn get_header_unchecked(&self, x: u8, z: u8) -> (r: MCRegionHeader) {
        let idx = chunk_idx_fast(x, z);
        let h = MCRegionHeader([self.0[4 * idx], self.0[4 * idx + 1], self.0[4 * idx + 2], self.0[4 * idx + 3]]);
        assert(h.0@ =~= self.0@.subrange(4 * idx as int, 4 * idx + 4));
        h
    }

    fn get_timestamp_unchecked(&self, x: u8, z: u8) -> (r: u32) {
        let idx = chunk_idx_fast(x, z);
        read_u32(self.0, 4096 + 4 * idx, self.2)
    }

    fn options(&self) -> (r: &Options) {
        self.1
    }
}

} // verus!
