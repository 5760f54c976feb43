use nbt_editor::allocator::BTreeFreeSectorAllocator;
use nbt_editor::codec::encode_into;
use nbt_editor::coords::{ChunkCoordsIterator, ChunkIteratorDirection};
use nbt_editor::mcregion::{
    chunk_idx_fast, ChunkCompression, MCRegionHeader, Options, RawChunkData, RegionReadError,
    RegionWriteError, SECTOR_SIZE,
};
use nbt_editor::reader::{MCRegionReader, RegionReaderImpl};
use nbt_editor::sector_buffer::SectorBuffer;
use nbt_editor::writer::MCRegionWriter;

fn chunk_bytes(r: &Result<RawChunkData<'_>, RegionReadError>) -> Option<(Vec<u8>, ChunkCompression, u32)> {
    match r {
        Ok(RawChunkData::Chunk { bytes, compression, timestamp, .. }) => {
            Some((bytes.bytes().to_vec(), *compression, *timestamp))
        }
        _ => None,
    }
}

#[test]
fn chunk_index_wraps_coordinates() {
    assert_eq!(chunk_idx_fast(0, 0), 0);
    assert_eq!(chunk_idx_fast(31, 0), 31);
    assert_eq!(chunk_idx_fast(0, 1), 32);
    assert_eq!(chunk_idx_fast(31, 31), 1023);
    assert_eq!(chunk_idx_fast(32, 32), 0);
    assert_eq!(chunk_idx_fast(33, 2), 65);
}

#[test]
fn header_packs_offset_and_count() {
    let h = MCRegionHeader::new(0x123456, 7).unwrap();
    assert_eq!(h.0, [0x12, 0x34, 0x56, 7]);
    assert_eq!(h.offset(), 0x123456);
    assert_eq!(h.sector_count(), 7);
    assert_eq!(h.unpack(), (0x123456, 7));
    assert!(!h.is_none());
    assert!(MCRegionHeader::new(0x1000000, 1).is_none());
    assert!(MCRegionHeader::new(0, 0).unwrap().is_none());
    assert!(!MCRegionHeader::new(0, 1).unwrap().is_none());
}

#[test]
fn allocator_takes_first_fit_and_merges_on_free() {
    assert!(BTreeFreeSectorAllocator::new(usize::MAX).is_none());
    let mut a = BTreeFreeSectorAllocator::new(10).unwrap();
    assert!(a.mark_allocated(0, 2));
    assert!(!a.mark_allocated(0, 1));
    assert!(!a.mark_allocated(5, 0));
    assert_eq!(a.allocate(3), Some(2));
    assert_eq!(a.allocate(3), Some(5));
    assert_eq!(a.allocate(3), None);
    assert_eq!(a.allocate(2), Some(8));
    assert_eq!(a.allocate(1), None);
    assert_eq!(a.allocate(0), None);
    a.free(5, 3);
    a.free(2, 3);
    assert_eq!(a.allocate(6), Some(2));
}

#[test]
fn allocator_mark_allocated_splits_a_run() {
    let mut a = BTreeFreeSectorAllocator::new(10).unwrap();
    assert!(a.mark_allocated(4, 2));
    assert!(!a.mark_allocated(3, 2));
    assert_eq!(a.allocate(5), None);
    assert_eq!(a.allocate(4), Some(0));
    assert_eq!(a.allocate(4), Some(6));
    a.free(4, 2);
    assert_eq!(a.allocate(2), Some(4));
}

#[test]
fn allocate_then_free_restores_free_space() {
    let mut a = BTreeFreeSectorAllocator::new(16).unwrap();
    assert!(a.mark_allocated(3, 4));
    let s = a.allocate(2).unwrap();
    assert_eq!(s, 0);
    a.free(s, 2);
    assert_eq!(a.allocate(3), Some(0));
    a.free(0, 3);
    assert_eq!(a.allocate(9), Some(7));
}

#[test]
fn new_writer_has_no_chunks() {
    let w = MCRegionWriter::new(Options::default());
    let r = w.reader();
    assert_eq!(r.data().len(), 2 * SECTOR_SIZE);
    for x in 0..32u8 {
        for z in 0..32u8 {
            assert!(matches!(r.chunk_data_raw(x, z), Ok(RawChunkData::Empty)));
            assert!(!r.is_generated(x, z));
        }
    }
    assert!(matches!(r.chunk_header(33, 0), Err(RegionReadError::InvalidChunkCoords(33, 0))));
    assert!(matches!(r.chunk_data_raw(40, 1), Ok(RawChunkData::Empty)));
}

#[test]
fn compressed_chunk_reads_back() {
    let mut w = MCRegionWriter::new(Options::default());
    let payload: Vec<u8> = (0..5000u32).map(|i| (i % 251) as u8).collect();
    assert_eq!(w.write_chunk_data_compressed(3, 4, &payload, ChunkCompression::Zlib).unwrap(), 5000);
    let r = w.reader();
    let (bytes, comp, ts) = chunk_bytes(&r.chunk_data_raw(3, 4)).unwrap();
    assert_eq!(bytes, payload);
    assert_eq!(comp, ChunkCompression::Zlib);
    assert_eq!(ts, 0);
    assert_eq!(r.chunk_header(3, 4).unwrap(), Some((2, 2)));
    assert_eq!(r.chunk_offset_in_sectors_raw(3, 4).unwrap(), Some(2));
    assert_eq!(r.chunk_sector_count_raw(3, 4).unwrap(), Some(2));
    assert!(r.is_generated(3, 4));
    assert_eq!(r.data().len(), 4 * SECTOR_SIZE);
}

#[test]
fn rewriting_a_chunk_reuses_its_sectors() {
    let mut w = MCRegionWriter::new(Options::default());
    w.write_chunk_data_compressed(0, 0, &[1, 2, 3], ChunkCompression::Gzip).unwrap();
    w.write_chunk_data_compressed(1, 0, &[4, 5], ChunkCompression::Lz4).unwrap();
    w.write_chunk_data_compressed(0, 0, &[9; 10], ChunkCompression::Uncompressed).unwrap();
    let r = w.reader();
    assert_eq!(r.chunk_header(0, 0).unwrap(), Some((2, 1)));
    assert_eq!(r.chunk_header(1, 0).unwrap(), Some((3, 1)));
    assert_eq!(chunk_bytes(&r.chunk_data_raw(0, 0)).unwrap().0, vec![9; 10]);
    assert_eq!(chunk_bytes(&r.chunk_data_raw(1, 0)).unwrap(), (vec![4, 5], ChunkCompression::Lz4, 0));
}

#[test]
fn whole_sector_record_claims_a_sector_too_many() {
    // 4091 payload bytes fill the record (4 + 1 + 4091) exactly to a sector,
    // while the header claims two sectors: the chunk cannot be read back.
    let mut w = MCRegionWriter::new(Options::default());
    w.write_chunk_data_compressed(0, 0, &vec![7u8; 4091], ChunkCompression::Uncompressed).unwrap();
    let r = w.reader();
    assert_eq!(r.chunk_header(0, 0).unwrap(), Some((2, 2)));
    assert!(matches!(r.chunk_data_raw(0, 0), Err(RegionReadError::MissingChunkData)));
}

#[test]
fn oversized_chunks_need_the_option() {
    let big = vec![1u8; 255 * SECTOR_SIZE];
    let mut w = MCRegionWriter::new(Options::default());
    assert!(matches!(
        w.write_chunk_data_compressed(0, 0, &big, ChunkCompression::Uncompressed),
        Err(RegionWriteError::OversizedChunk(256))
    ));
    let mut w = MCRegionWriter::new(Options { allow_oversized_chunks: true });
    w.write_chunk_data_compressed(0, 0, &big, ChunkCompression::Uncompressed).unwrap();
    let r = w.reader();
    assert_eq!(r.chunk_header(0, 0).unwrap(), Some((2, 255)));
    assert_eq!(r.actual_sector_count(&r.get_header_unchecked(0, 0)).unwrap(), Some((2, 256)));
    let (bytes, _, _) = chunk_bytes(&r.chunk_data_raw(0, 0)).unwrap();
    assert_eq!(bytes.len(), big.len());
    let strict = MCRegionWriter::new_from_slice(Options::default(), r.data()).unwrap();
    let sr = strict.reader();
    assert!(matches!(sr.chunk_data_raw(0, 0), Err(RegionReadError::OversizedChunk(1044481))));
}

#[test]
fn invalid_coordinates_are_refused_by_writes() {
    let mut w = MCRegionWriter::new(Options::default());
    assert!(matches!(
        w.write_chunk_data_compressed(33, 0, &[1], ChunkCompression::Gzip),
        Err(RegionWriteError::InvalidChunkCoords(33, 0))
    ));
    assert!(matches!(w.write_chunk_free(0, 40), Err(RegionWriteError::InvalidChunkCoords(0, 40))));
    assert!(matches!(
        w.write_chunk_external(50, 50, ChunkCompression::Gzip, None),
        Err(RegionWriteError::InvalidChunkCoords(50, 50))
    ));
}

#[test]
fn timestamps_are_written_in_native_order() {
    let mut w = MCRegionWriter::new(Options::default());
    w.write_chunk_data_uncompressed(5, 6, b"hello", ChunkCompression::Uncompressed, 6, Some(0x01020304))
        .unwrap();
    let r = w.reader();
    assert_eq!(r.chunk_timestamp(5, 6).unwrap(), Some(0x01020304));
    let idx = chunk_idx_fast(5, 6);
    assert_eq!(&r.data()[4096 + 4 * idx..4096 + 4 * idx + 4], &0x01020304u32.to_ne_bytes());
    // A reader made over the same bytes reads the same timestamp.
    let buf = SectorBuffer::copy_from(r.data());
    let plain = MCRegionReader::new(Options::default(), buf.bytes()).unwrap();
    assert_eq!(plain.chunk_timestamp(5, 6).unwrap(), Some(0x01020304));
    assert_eq!(plain.timestamps().0[idx], 0x01020304);
    assert_eq!(chunk_bytes(&r.chunk_data_raw(5, 6)).unwrap().2, 0x01020304);
}

#[test]
fn freeing_a_chunk_clears_its_timestamp_only() {
    let mut w = MCRegionWriter::new(Options::default());
    w.write_chunk_data_uncompressed(1, 1, b"abc", ChunkCompression::Uncompressed, 6, Some(77)).unwrap();
    w.write_chunk_free(1, 1).unwrap();
    let r = w.reader();
    assert_eq!(r.chunk_timestamp(1, 1).unwrap(), None);
    assert_eq!(r.chunk_header(1, 1).unwrap(), Some((2, 1)));
}

#[test]
fn external_chunks_keep_the_compression_byte_plain() {
    let mut w = MCRegionWriter::new(Options::default());
    w.write_chunk_external(2, 2, ChunkCompression::Zlib, Some(5)).unwrap();
    let r = w.reader();
    assert_eq!(chunk_bytes(&r.chunk_data_raw(2, 2)).unwrap(), (vec![], ChunkCompression::Zlib, 5));
}

#[test]
fn gzip_chunk_round_trips_through_the_codec() {
    let mut w = MCRegionWriter::new(Options::default());
    let data: Vec<u8> = (0..20000u32).map(|i| (i * 7 % 256) as u8).collect();
    for comp in [ChunkCompression::Gzip, ChunkCompression::Zlib, ChunkCompression::Lz4] {
        let n = w.write_chunk_data_uncompressed(8, 9, &data, comp, 6, None).unwrap();
        let r = w.reader();
        let raw = r.chunk_data_raw(8, 9).unwrap();
        let RawChunkData::Chunk { bytes, compression, .. } = raw else { panic!("no chunk") };
        assert_eq!(compression, comp);
        assert_eq!(bytes.bytes().len(), n);
        assert_ne!(bytes.bytes(), &data[..]);
        let mut out = vec![42u8];
        let m = bytes.decompress_to(&mut out, comp).unwrap();
        assert_eq!(m, data.len());
        assert_eq!(&out[1..], &data[..]);
    }
}

#[test]
fn decompress_uncompressed_appends_bytes() {
    let data = [5u8, 6, 7];
    let chunk = nbt_editor::mcregion::CompressedChunk::new(&data);
    let mut out = vec![1u8];
    assert_eq!(chunk.decompress_to(&mut out, ChunkCompression::Uncompressed).unwrap(), 3);
    assert_eq!(out, vec![1, 5, 6, 7]);
    let mut out2 = Vec::new();
    assert!(matches!(
        chunk.decompress_to(&mut out2, ChunkCompression::Gzip),
        Err(nbt_editor::mcregion::CompressionError::Gzip(_))
    ));
}

#[test]
fn encoding_with_each_codec_changes_the_bytes() {
    let data = vec![3u8; 1000];
    for comp in [ChunkCompression::Gzip, ChunkCompression::Zlib, ChunkCompression::Lz4] {
        let mut out = Vec::new();
        encode_into(&data, comp, 6, &mut out).unwrap();
        assert!(!out.is_empty());
        assert_ne!(out, data);
    }
}

#[test]
fn writer_from_bytes_checks_layout() {
    assert!(matches!(
        MCRegionWriter::new_from_slice(Options::default(), &[0u8; 100]),
        Err(RegionReadError::MissingHeaders)
    ));
    assert!(matches!(
        MCRegionWriter::new_from_slice(Options::default(), &vec![0u8; 8193]),
        Err(RegionReadError::InvalidBackingBufferSize(8193))
    ));
    assert!(matches!(
        MCRegionWriter::new_from_owned_bytes(Options::default(), vec![0u8; 100].into_boxed_slice()),
        Err(RegionReadError::MissingHeaders)
    ));
    // a header at offset 1 points into the tables
    let mut bytes = vec![0u8; 3 * 4096];
    bytes[2] = 1;
    bytes[3] = 1;
    assert!(matches!(
        MCRegionWriter::new_from_slice(Options::default(), &bytes),
        Err(RegionReadError::InvalidChunkOffset)
    ));
}

#[test]
fn writer_from_bytes_keeps_existing_chunks() {
    let mut w = MCRegionWriter::new(Options::default());
    w.write_chunk_data_compressed(0, 0, &[1; 10], ChunkCompression::Gzip).unwrap();
    w.write_chunk_data_compressed(1, 0, &[2; 10], ChunkCompression::Gzip).unwrap();
    let bytes = w.reader().data().to_vec();
    let mut w2 = MCRegionWriter::from_aligned_vec(Options::default(), SectorBuffer::copy_from(&bytes)).unwrap();
    w2.write_chunk_data_compressed(2, 0, &[3; 10], ChunkCompression::Gzip).unwrap();
    let r = w2.reader();
    assert_eq!(r.chunk_header(2, 0).unwrap(), Some((4, 1)));
    assert_eq!(chunk_bytes(&r.chunk_data_raw(0, 0)).unwrap().0, vec![1; 10]);
    assert_eq!(chunk_bytes(&r.chunk_data_raw(1, 0)).unwrap().0, vec![2; 10]);
}

#[test]
fn reader_over_short_data_is_refused() {
    assert!(matches!(MCRegionReader::new(Options::default(), &[0u8; 10]), Err(RegionReadError::MissingHeaders)));
    let buf = SectorBuffer::copy_from(&vec![0u8; 8192 + 100]);
    assert!(matches!(
        MCRegionReader::new(Options::default(), buf.bytes()),
        Err(RegionReadError::InvalidBackingBufferSize(8292))
    ));
    let good = SectorBuffer::copy_from(&vec![0u8; 8192]);
    let reader = MCRegionReader::new(Options::default(), good.bytes()).unwrap();
    assert!(matches!(reader.chunk_data_raw(0, 0), Ok(RawChunkData::Empty)));
    assert_eq!(reader.headers().0.len(), 1024);
    assert_eq!(reader.timestamps().0[5], 0);
}

#[test]
fn reader_reports_bad_records() {
    let mut bytes = vec![0u8; 3 * 4096];
    // chunk 0: offset 2, one sector, length 0
    bytes[0..4].copy_from_slice(&[0, 0, 2, 1]);
    // chunk 1: offset 2, one sector, compression byte 9
    bytes[4..8].copy_from_slice(&[0, 0, 2, 1]);
    // chunk 2: offset 5, one sector: past the end
    bytes[8..12].copy_from_slice(&[0, 0, 5, 1]);
    let buf = SectorBuffer::copy_from(&bytes);
    let r = MCRegionReader::new(Options::default(), buf.bytes()).unwrap();
    bytes[8192 + 4] = 9;
    let buf2 = SectorBuffer::copy_from(&bytes);
    let r2 = MCRegionReader::new(Options::default(), buf2.bytes()).unwrap();
    assert!(matches!(r.chunk_data_raw(0, 0), Err(RegionReadError::InvalidCompression(0))));
    assert!(matches!(r2.chunk_data_raw(1, 0), Err(RegionReadError::InvalidCompression(9))));
    assert!(matches!(r.chunk_data_raw(2, 0), Err(RegionReadError::MissingChunkData)));
    let mut b3 = bytes.clone();
    b3[8192 + 4] = 0x82;
    let buf3 = SectorBuffer::copy_from(&b3);
    let r3 = MCRegionReader::new(Options::default(), buf3.bytes()).unwrap();
    assert!(matches!(
        r3.chunk_data_raw(0, 0),
        Ok(RawChunkData::External { offset_sector: 2, compression: ChunkCompression::Zlib, .. })
    ));
    let mut b4 = bytes.clone();
    b4[8192 + 4] = 2;
    let buf4 = SectorBuffer::copy_from(&b4);
    let r4 = MCRegionReader::new(Options::default(), buf4.bytes()).unwrap();
    assert!(matches!(r4.chunk_data_raw(0, 0), Err(RegionReadError::InvalidChunkLengthField)));
}

#[test]
fn coordinates_follow_the_header_order() {
    let mut it = ChunkIteratorDirection::Natural.into_iter();
    assert_eq!(it.count(), 1024);
    assert_eq!(it.next(), Some((0, 0)));
    assert_eq!(it.next(), Some((1, 0)));
    let mut n = 2;
    let mut last = None;
    while let Some(c) = it.next() {
        assert_eq!(chunk_idx_fast(c.0, c.1), n);
        n += 1;
        last = Some(c);
    }
    assert_eq!(n, 1024);
    assert_eq!(last, Some((31, 31)));
    assert_eq!(it.next(), None);
    assert_eq!(it.count(), 0);
}

#[test]
fn transposed_coordinates_and_their_count() {
    let mut it = ChunkCoordsIterator::new(ChunkIteratorDirection::Transpose);
    assert_eq!(it.count(), 1024);
    assert_eq!(it.next(), Some((0, 0)));
    assert_eq!(it.next(), Some((0, 1)));
    assert_eq!(it.count(), 1022);
    let mut n = 2;
    while let Some((x, z)) = it.next() {
        assert_eq!(32 * x as usize + z as usize, n);
        n += 1;
    }
    assert_eq!(n, 1024);
}

#[test]
fn writes_leave_other_chunks_alone() {
    let mut w = MCRegionWriter::new(Options::default());
    let a: Vec<u8> = (0..6000u32).map(|i| (i % 13) as u8).collect();
    let b: Vec<u8> = (0..100u32).map(|i| (i % 7) as u8).collect();
    w.write_chunk_data_compressed(0, 0, &a, ChunkCompression::Zlib).unwrap();
    w.write_chunk_data_uncompressed(1, 0, &b, ChunkCompression::Uncompressed, 6, Some(42)).unwrap();
    w.write_chunk_data_compressed(2, 0, &b, ChunkCompression::Lz4).unwrap();
    // Grow the first chunk past its two sectors, then shrink the third one.
    let big = vec![3u8; 10000];
    w.write_chunk_data_compressed(0, 0, &big, ChunkCompression::Gzip).unwrap();
    w.write_chunk_data_compressed(2, 0, &[1], ChunkCompression::Lz4).unwrap();
    let r = w.reader();
    assert_eq!(chunk_bytes(&r.chunk_data_raw(0, 0)).unwrap(), (big, ChunkCompression::Gzip, 0));
    assert_eq!(chunk_bytes(&r.chunk_data_raw(1, 0)).unwrap(), (b, ChunkCompression::Uncompressed, 42));
    assert_eq!(chunk_bytes(&r.chunk_data_raw(2, 0)).unwrap(), (vec![1], ChunkCompression::Lz4, 0));
    assert!(matches!(r.chunk_data_raw(3, 0), Ok(RawChunkData::Empty)));
}

#[test]
fn setting_a_timestamp_reads_back_and_touches_nothing_else() {
    let mut w = MCRegionWriter::new(Options::default());
    w.write_chunk_data_compressed(4, 4, &[5, 6, 7], ChunkCompression::Zlib).unwrap();
    let before: Vec<u8> = w.reader().data().to_vec();
    w.set_timestamp_unchecked(4, 5, 0xdeadbeef);
    let r = w.reader();
    assert_eq!(r.chunk_timestamp(4, 5).unwrap(), Some(0xdeadbeef));
    assert_eq!(r.chunk_timestamp(4, 4).unwrap(), None);
    assert_eq!(chunk_bytes(&r.chunk_data_raw(4, 4)).unwrap(), (vec![5, 6, 7], ChunkCompression::Zlib, 0));
    let after = r.data();
    let idx = chunk_idx_fast(4, 5);
    for (i, (x, y)) in before.iter().zip(after.iter()).enumerate() {
        if i < 4096 + 4 * idx || i >= 4096 + 4 * idx + 4 {
            assert_eq!(x, y);
        }
    }
}

#[test]
fn writer_from_bytes_reuses_only_free_sectors() {
    let mut w = MCRegionWriter::new(Options::default());
    w.write_chunk_data_compressed(0, 0, &[1; 100], ChunkCompression::Zlib).unwrap();
    w.write_chunk_data_compressed(1, 0, &[2; 5000], ChunkCompression::Gzip).unwrap();
    w.write_chunk_data_compressed(2, 0, &[3; 100], ChunkCompression::Lz4).unwrap();
    w.write_chunk_free(1, 0).unwrap();
    w.write_chunk_data_compressed(1, 0, &[4; 10], ChunkCompression::Lz4).unwrap();
    // Sector 4 was left free by the move of chunk (1, 0) from sectors 3..5 to 3.
    let bytes = w.reader().data().to_vec();
    let mut w2 = MCRegionWriter::new_from_slice(Options::default(), &bytes).unwrap();
    w2.write_chunk_data_compressed(5, 5, &[9; 20], ChunkCompression::Zlib).unwrap();
    let r = w2.reader();
    assert_eq!(r.chunk_header(5, 5).unwrap(), Some((4, 1)));
    assert_eq!(chunk_bytes(&r.chunk_data_raw(0, 0)).unwrap(), (vec![1; 100], ChunkCompression::Zlib, 0));
    assert_eq!(chunk_bytes(&r.chunk_data_raw(1, 0)).unwrap(), (vec![4; 10], ChunkCompression::Lz4, 0));
    assert_eq!(chunk_bytes(&r.chunk_data_raw(2, 0)).unwrap(), (vec![3; 100], ChunkCompression::Lz4, 0));
    assert_eq!(chunk_bytes(&r.chunk_data_raw(5, 5)).unwrap(), (vec![9; 20], ChunkCompression::Zlib, 0));
    assert_eq!(r.data().len(), bytes.len());
}

#[test]
fn compressed_chunk_reads_as_a_byte_slice() {
    let data = [1u8, 2, 3];
    let c = nbt_editor::mcregion::CompressedChunk::new(&data);
    assert_eq!(&*c, &[1, 2, 3]);
    assert_eq!(c.len(), 3);
    assert_eq!(AsRef::<[u8]>::as_ref(&c), &[1, 2, 3]);
    let b: &[u8] = std::borrow::Borrow::borrow(&c);
    assert_eq!(b, &[1, 2, 3]);
}

#[test]
fn a_series_of_writes_keeps_every_chunk_readable() {
    let mut w = MCRegionWriter::new(Options::default());
    let mut expected: Vec<Option<Vec<u8>>> = vec![None; 8];
    for round in 0..6u32 {
        for x in 0..8u8 {
            let len = ((round * 977 + x as u32 * 1313) % 9000) as usize;
            if (len + 5) % 4096 == 0 {
                continue;
            }
            let payload: Vec<u8> = (0..len).map(|i| (i as u32 * 31 + round + x as u32) as u8).collect();
            assert_eq!(w.write_chunk_data_compressed(x, 1, &payload, ChunkCompression::Zlib).unwrap(), len);
            expected[x as usize] = Some(payload);
            let r = w.reader();
            for (y, e) in expected.iter().enumerate() {
                if let Some(e) = e {
                    assert_eq!(chunk_bytes(&r.chunk_data_raw(y as u8, 1)).unwrap().0, *e);
                }
            }
        }
    }
}

#[test]
fn reader_at_an_address_checks_in_order() {
    let order = nbt_editor::mcregion::native_byte_order();
    let short = [0u8; 100];
    assert!(matches!(
        MCRegionReader::new_at(Options::default(), &short, 4096, order),
        Err(RegionReadError::MissingHeaders)
    ));
    let bytes = vec![0u8; 3 * SECTOR_SIZE];
    assert!(matches!(
        MCRegionReader::new_at(Options::default(), &bytes, 4097, order),
        Err(RegionReadError::UnalignedData)
    ));
    assert!(matches!(
        MCRegionReader::new_at(Options::default(), &bytes[..2 * SECTOR_SIZE + 1], 8192, order),
        Err(RegionReadError::InvalidBackingBufferSize(8193))
    ));
    let mut with_ts = bytes.clone();
    with_ts[4096..4100].copy_from_slice(&7u32.to_ne_bytes());
    let r = MCRegionReader::new_at(Options::default(), &with_ts, 0, order).unwrap();
    assert_eq!(r.chunk_timestamp(0, 0).unwrap(), Some(7));
    assert_eq!(r.data().len(), 3 * SECTOR_SIZE);
}
