use light_maps::archive::ArchiveInfo;
use light_maps::directory::{build_directory, decode_directory, try_decode_directory, DirEntry};
use light_maps::fixture::build_fixture;
use light_maps::header::{Compression, Header};
use light_maps::inspect::inspect;
use light_maps::le::{
    read_u32_le, read_u64_le, read_u8, to_signed32, write_i32_le, write_u32_le, write_u64_le,
};
use light_maps::packing::hash_bytes;
use light_maps::pmtiles::{PmtError, PmtReader};
use light_maps::tile_id::tile_to_id;
use light_maps::tile_writer::StreamingTileWriter;
use light_maps::varint::{read_varint, read_varints, write_varint};
use light_maps::writer::{write_pmtiles, TileEntry};

fn info() -> ArchiveInfo {
    ArchiveInfo {
        tile_compression: Compression::Gzip,
        min_zoom: 0,
        max_zoom: 3,
        min_lon_e7: -1_800_000_000,
        min_lat_e7: -850_000_000,
        max_lon_e7: 1_800_000_000,
        max_lat_e7: 850_000_000,
        center_zoom: 1,
        center_lon_e7: 5,
        center_lat_e7: -7,
    }
}

fn make_test_archive() -> (Vec<u8>, Vec<(u8, u32, u32, Vec<u8>)>) {
    let tiles = vec![
        (0u8, 0u32, 0u32, b"tile-z0-x0-y0".to_vec()),
        (1, 0, 0, b"tile-z1-x0-y0".to_vec()),
        (1, 0, 1, b"tile-z1-x0-y1".to_vec()),
        (1, 1, 0, b"tile-z1-x1-y0".to_vec()),
        (1, 1, 1, b"tile-z1-x1-y1".to_vec()),
        (2, 0, 0, b"tile-z2-x0-y0".to_vec()),
        (2, 2, 2, b"tile-z2-x2-y2".to_vec()),
    ];
    (build_fixture(&tiles), tiles)
}

fn entry(id: u64, data: &[u8]) -> TileEntry {
    TileEntry { tile_id: id, data: data.to_vec() }
}

#[test]
fn z0_is_zero() {
    assert_eq!(tile_to_id(0, 0, 0), 0);
}

#[test]
fn z1_ordering() {
    assert_eq!(tile_to_id(1, 0, 0), 1);
    assert_eq!(tile_to_id(1, 0, 1), 2);
    assert_eq!(tile_to_id(1, 1, 1), 3);
    assert_eq!(tile_to_id(1, 1, 0), 4);
}

#[test]
fn tile_ids_of_a_level_are_consecutive_and_distinct() {
    let mut seen = vec![false; 64];
    for x in 0..8 {
        for y in 0..8 {
            let id = tile_to_id(3, x, y);
            assert!((21..85).contains(&id));
            assert!(!seen[(id - 21) as usize]);
            seen[(id - 21) as usize] = true;
        }
    }
    assert!(seen.iter().all(|s| *s));
}

#[test]
fn tile_id_at_the_deepest_level() {
    assert_eq!(tile_to_id(31, 0, 0), 1_537_228_672_809_129_301);
    assert_eq!(tile_to_id(2, 0, 0), 5);
}

#[test]
fn varint_single_byte() {
    let buf = [0x01u8];
    let mut pos = 0;
    assert_eq!(read_varint(&buf, &mut pos).unwrap(), 1);
    assert_eq!(pos, 1);
}

#[test]
fn varint_multi_byte() {
    let buf = [0xACu8, 0x02];
    let mut pos = 0;
    assert_eq!(read_varint(&buf, &mut pos).unwrap(), 300);
    assert_eq!(pos, 2);
}

#[test]
fn varints_read_back() {
    let values = [0u64, 1, 127, 128, 300, 16_383, 16_384, u64::MAX];
    let mut buf = Vec::new();
    for v in values {
        write_varint(&mut buf, v);
    }
    let mut pos = 0;
    assert_eq!(read_varints(&buf, &mut pos, 8).unwrap(), values.to_vec());
    assert_eq!(pos, buf.len());
}

#[test]
fn truncated_varint_is_corrupt() {
    let mut pos = 0;
    assert!(matches!(read_varint(&[0x80], &mut pos), Err(PmtError::CorruptDirectory)));
    let mut pos = 0;
    assert!(matches!(read_varint(&[], &mut pos), Err(PmtError::CorruptDirectory)));
    let mut pos = 7;
    assert!(matches!(read_varint(&[1, 2], &mut pos), Err(PmtError::CorruptDirectory)));
    assert_eq!(pos, 7);
    assert!(matches!(read_varints(&[1, 2], &mut pos, 1), Err(PmtError::CorruptDirectory)));
}

#[test]
fn overlong_varint_is_corrupt() {
    let mut pos = 0;
    let buf = [0x80u8; 11];
    assert!(matches!(read_varint(&buf, &mut pos), Err(PmtError::CorruptDirectory)));
}

#[test]
fn little_endian_numbers_read_back() {
    let mut buf = Vec::new();
    write_u64_le(&mut buf, 0x0102_0304_0506_0708);
    write_u32_le(&mut buf, 0xdead_beef);
    write_i32_le(&mut buf, -5);
    assert_eq!(buf[0], 8);
    assert_eq!(read_u8(&buf, 7), 1);
    assert_eq!(read_u64_le(&buf, 0), 0x0102_0304_0506_0708);
    assert_eq!(read_u32_le(&buf, 8), 0xdead_beef);
    assert_eq!(to_signed32(read_u32_le(&buf, 12)), -5);
}

#[test]
fn bad_magic_rejected() {
    let buf = [0u8; 128];
    assert!(matches!(Header::parse(&buf), Err(PmtError::BadMagic)));
}

#[test]
fn short_header_rejected() {
    assert!(matches!(Header::parse(b"PMTiles"), Err(PmtError::BadMagic)));
}

#[test]
fn other_version_rejected() {
    let (mut archive, _) = make_test_archive();
    archive[7] = 2;
    assert!(matches!(Header::parse(&archive), Err(PmtError::UnsupportedVersion(2))));
    assert_eq!(PmtError::UnsupportedVersion(2).message(), "unsupported PMTiles spec version 2 (only v3 supported)");
}

#[test]
fn header_reads_back() {
    let (archive, _) = make_test_archive();
    let header = Header::parse(&archive).unwrap();
    assert_eq!(header.root_dir_offset, 127);
    assert_eq!(header.encode(), archive[..127].to_vec());
}

#[test]
fn compression_codes() {
    for code in 0..5u8 {
        assert_eq!(Compression::from_u8(code).code(), code);
    }
    assert_eq!(Compression::from_u8(2), Compression::Gzip);
    assert_eq!(Compression::from_u8(9), Compression::Unknown);
}

#[test]
fn directory_reads_back() {
    let dir = [
        DirEntry { tile_id: 1, offset: 0, len: 4 },
        DirEntry { tile_id: 5, offset: 4, len: 6 },
        DirEntry { tile_id: 9, offset: 4, len: 6 },
        DirEntry { tile_id: 700, offset: 10, len: 1 },
    ];
    let bytes = build_directory(&dir);
    assert_eq!(bytes, vec![4, 1, 4, 4, 179, 5, 1, 1, 1, 1, 4, 6, 6, 1, 1, 0, 5, 0]);
    let back = decode_directory(&bytes).unwrap();
    for (a, b) in dir.iter().zip(&back) {
        assert_eq!((a.tile_id, a.offset, a.len), (b.tile_id, b.offset, b.length));
        assert_eq!(b.run_length, 1);
    }
}

#[test]
fn shared_offsets_read_back() {
    let dir = [
        DirEntry { tile_id: 0, offset: 0, len: 1 },
        DirEntry { tile_id: 1, offset: 0, len: 1 },
        DirEntry { tile_id: 2, offset: 1, len: 3 },
        DirEntry { tile_id: 3, offset: 0, len: 1 },
    ];
    let bytes = build_directory(&dir);
    assert_eq!(bytes, vec![4, 0, 1, 1, 1, 1, 1, 1, 1, 1, 1, 3, 1, 1, 1, 0, 1]);
    let back: Vec<u64> = decode_directory(&bytes).unwrap().iter().map(|e| e.offset).collect();
    assert_eq!(back, vec![0, 0, 1, 0]);
    let first = decode_directory(&[1, 9, 1, 5, 0]).unwrap();
    assert_eq!((first[0].tile_id, first[0].offset, first[0].length), (9, 0, 5));
}

#[test]
fn truncated_directory_is_corrupt() {
    assert!(matches!(decode_directory(&[3, 1]), Err(PmtError::CorruptDirectory)));
    assert!(matches!(try_decode_directory(&[]), Some(Err(PmtError::CorruptDirectory))));
}

#[test]
fn directory_beyond_64_bits_is_refused() {
    let mut bytes = vec![2];
    write_varint(&mut bytes, u64::MAX);
    write_varint(&mut bytes, 1);
    bytes.extend_from_slice(&[1, 1, 1, 1, 0, 0]);
    assert!(try_decode_directory(&bytes).is_none());
}

#[test]
fn open_and_basic_metadata() {
    let (archive, _) = make_test_archive();
    let r = PmtReader::open(&archive).unwrap();
    assert_eq!(r.min_zoom(), 0);
    assert_eq!(r.max_zoom(), 2);
    assert_eq!(r.tile_count(), 7);
}

#[test]
fn fetch_present_tiles() {
    let (archive, tiles) = make_test_archive();
    let r = PmtReader::open(&archive).unwrap();
    for (z, x, y, expected) in &tiles {
        let td = r.get_tile(*z, *x, *y).unwrap();
        assert_eq!(td.data.as_ref(), expected.as_slice(), "z{z}/{x}/{y} data mismatch");
    }
}

#[test]
fn missing_tile_returns_not_found() {
    let (archive, _) = make_test_archive();
    let r = PmtReader::open(&archive).unwrap();
    assert!(
        matches!(r.get_tile(2, 3, 3), Err(PmtError::TileNotFound { .. })),
        "expected TileNotFound for z2/3/3"
    );
}

#[test]
fn metadata_is_valid_json() {
    let (archive, _) = make_test_archive();
    let r = PmtReader::open(&archive).unwrap();
    let meta = r.metadata().unwrap();
    serde_json::from_str::<serde_json::Value>(&meta).unwrap();
}

#[test]
fn damaged_directory_fails_to_decompress() {
    let (mut archive, _) = make_test_archive();
    archive[127] = 0;
    match PmtReader::open(&archive) {
        Err(PmtError::Decompress(text)) => assert!(!text.is_empty()),
        _ => panic!("expected a decompression error"),
    }
}

#[test]
fn archive_that_points_outside_itself_is_refused() {
    let (mut archive, _) = make_test_archive();
    archive[8..16].copy_from_slice(&u64::MAX.to_le_bytes());
    assert!(PmtReader::try_open(&archive).is_none());
}

#[test]
fn metadata_that_is_not_text_is_an_error() {
    let (good, _) = make_test_archive();
    let mut header = Header::parse(&good).unwrap();
    header.internal_compression = Compression::Uncompressed;
    header.root_dir_len = 1;
    header.metadata_offset = 128;
    header.metadata_len = 2;
    let mut archive = header.encode();
    archive.extend_from_slice(&[0, 0xff, 0xfe]);
    let r = PmtReader::open(&archive).unwrap();
    match r.metadata() {
        Err(PmtError::Decompress(text)) => {
            assert_eq!(text, "invalid utf-8 sequence of 1 bytes from index 0");
        }
        _ => panic!("expected an error"),
    }
}

#[test]
fn written_tiles_read_back() {
    let mut tiles = vec![entry(9, b"nine"), entry(2, b"two"), entry(5, b""), entry(3, b"three")];
    let archive = write_pmtiles(&mut tiles, "{\"name\":\"é\"}", &info());
    let r = PmtReader::open(&archive).unwrap();
    assert_eq!(r.tile_count(), 3);
    assert_eq!(r.metadata().unwrap(), "{\"name\":\"é\"}");
    // Identifier 2 is z1/0/1, 3 is z1/1/1.
    assert_eq!(r.get_tile(1, 0, 1).unwrap().data.as_ref(), b"two");
    assert_eq!(r.get_tile(1, 1, 1).unwrap().data.as_ref(), b"three");
    assert!(r.get_tile(2, 0, 0).is_err());
    assert_eq!(r.get_tile(1, 1, 1).unwrap().compression, Compression::Gzip);
}

#[test]
fn identical_tiles_share_storage() {
    let blob = vec![7u8; 10_000];
    let mut once = vec![entry(1, b"first"), entry(2, &blob)];
    let mut thrice = vec![entry(1, b"first"), entry(2, &blob), entry(3, &blob), entry(4, &blob)];
    let a = write_pmtiles(&mut once, "{}", &info());
    let b = write_pmtiles(&mut thrice, "{}", &info());
    assert!(b.len() < a.len() + 100);
    let r = PmtReader::open(&b).unwrap();
    for (x, y) in [(0, 1), (1, 1), (1, 0)] {
        assert_eq!(r.get_tile(1, x, y).unwrap().data.as_ref(), blob.as_slice());
    }
}

#[test]
fn tiles_around_a_shared_first_blob_read_back() {
    let mut tiles = vec![entry(1, b"a"), entry(2, b"bb"), entry(3, b"a"), entry(4, b"ccc")];
    let archive = write_pmtiles(&mut tiles, "{}", &info());
    let r = PmtReader::open(&archive).unwrap();
    assert_eq!(r.get_tile(1, 0, 0).unwrap().data.as_ref(), b"a");
    assert_eq!(r.get_tile(1, 0, 1).unwrap().data.as_ref(), b"bb");
    assert_eq!(r.get_tile(1, 1, 1).unwrap().data.as_ref(), b"a");
    assert_eq!(r.get_tile(1, 1, 0).unwrap().data.as_ref(), b"ccc");
}

#[test]
fn tiles_that_share_the_only_blob_read_back() {
    let mut tiles = vec![entry(0, b"A"), entry(1, b"A")];
    let archive = write_pmtiles(&mut tiles, "{}", &info());
    let r = PmtReader::open(&archive).unwrap();
    assert_eq!(r.get_tile(0, 0, 0).unwrap().data.as_ref(), b"A");
    assert_eq!(r.get_tile(1, 0, 0).unwrap().data.as_ref(), b"A");
    assert_eq!(Header::parse(&archive).unwrap().tile_contents, 1);
}

#[test]
fn archive_forgets_order_and_empty_tiles() {
    let mut a = vec![entry(1, b"a"), entry(2, b"bb"), entry(3, b"a")];
    let mut b = vec![entry(3, b"a"), entry(7, b""), entry(2, b"bb"), entry(1, b"a")];
    assert_eq!(write_pmtiles(&mut a, "{}", &info()), write_pmtiles(&mut b, "{}", &info()));
    let tiles = vec![(1u8, 0u32, 0u32, b"x".to_vec()), (0, 0, 0, b"y".to_vec())];
    let turned: Vec<_> = tiles.iter().rev().cloned().collect();
    assert_eq!(build_fixture(&tiles), build_fixture(&turned));
}

#[test]
fn streamed_archive_equals_the_one_in_memory() {
    let tiles = [(1u64, b"one".as_slice()), (2, b"same"), (5, b""), (6, b"same"), (9, b"one")];
    let mut w = StreamingTileWriter::new();
    let mut spilled: Vec<u8> = Vec::new();
    for (id, data) in tiles {
        let (count, len) = (w.tile_count(), w.spilled_len());
        let new = w.needs_storage(data);
        if new {
            spilled.extend_from_slice(data);
        }
        w.push(id, data);
        assert_eq!(w.tile_count(), count + (!data.is_empty()) as usize);
        assert_eq!(w.spilled_len(), len + if new { data.len() as u64 } else { 0 });
    }
    assert_eq!(spilled, b"onesame".to_vec());
    let mut streamed = w.finish("{}", &info());
    streamed.extend_from_slice(&spilled);
    let mut held: Vec<TileEntry> = tiles.iter().map(|(id, data)| entry(*id, data)).collect();
    assert_eq!(streamed, write_pmtiles(&mut held, "{}", &info()));
}

#[test]
fn last_tile_given_wins() {
    let mut tiles = vec![entry(1, b"a"), entry(2, b"old"), entry(2, b"newer")];
    let archive = write_pmtiles(&mut tiles, "{}", &info());
    let r = PmtReader::open(&archive).unwrap();
    assert_eq!(r.get_tile(1, 0, 1).unwrap().data.as_ref(), b"newer");
}

#[test]
fn streamed_archive_reads_back() {
    let mut w = StreamingTileWriter::new();
    let mut spilled: Vec<u8> = Vec::new();
    for (id, data) in [(1u64, b"one".as_slice()), (4, b"four"), (2, b"same"), (3, b"same")] {
        if w.needs_storage(data) {
            spilled.extend_from_slice(data);
        }
        w.push(id, data);
    }
    assert_eq!(w.tile_count(), 4);
    assert_eq!(w.spilled_len(), 11);
    assert_eq!(spilled, b"onefoursame".to_vec());
    let mut archive = w.finish("{}", &info());
    archive.extend_from_slice(&spilled);
    let r = PmtReader::open(&archive).unwrap();
    assert_eq!(r.get_tile(1, 0, 0).unwrap().data.as_ref(), b"one");
    assert_eq!(r.get_tile(1, 0, 1).unwrap().data.as_ref(), b"same");
    assert_eq!(r.get_tile(1, 1, 1).unwrap().data.as_ref(), b"same");
    assert_eq!(r.get_tile(1, 1, 0).unwrap().data.as_ref(), b"four");
}

#[test]
fn fnv_hash_values() {
    assert_eq!(hash_bytes(b""), 0xcbf2_9ce4_8422_2325);
    assert_eq!(hash_bytes(b"a"), 0xaf63_dc4c_8601_ec8c);
    assert_eq!(hash_bytes(b"foobar"), 0x8594_4171_f739_67e8);
}

#[test]
fn inspection_sums_up() {
    let (archive, _) = make_test_archive();
    let report = inspect(&archive, 1536).unwrap().unwrap();
    assert_eq!(report.tile_count, 7);
    assert_eq!(report.metadata_json, "{}");
    let text = report.summary();
    assert!(text.contains("0-2"), "{text}");
    assert!(text.contains("1536 bytes (1.5 KB)"), "{text}");
    assert!(matches!(inspect(b"nothing", 7), Some(Err(PmtError::BadMagic))));
}

#[test]
fn error_messages() {
    assert_eq!(PmtError::BadMagic.message(), "invalid magic bytes — not a PMTiles file");
    assert_eq!(
        PmtError::TileNotFound { z: 1, x: 2, y: 3 }.message(),
        "tile not found: z=1 x=2 y=3"
    );
    assert_eq!(PmtError::CorruptDirectory.message(), "corrupt directory entry");
    assert_eq!(PmtError::Decompress("x".to_string()).message(), "decompression failed: x");
    assert_eq!(PmtError::Io("gone".to_string()).message(), "io: gone");
}
