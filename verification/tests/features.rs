use light_maps::archive::ArchiveInfo;
use light_maps::error::BakeError;
use light_maps::feature_store::{
    decode_geometry, encode_geometry, FeatureMeta, StoreReader, StoreWriter,
};
use light_maps::geometry::{Coord, Geometry, Polygon};
use light_maps::header::Compression;
use light_maps::json_text::{read_props, write_object};
use light_maps::order::stable_order;
use light_maps::pipeline::{
    archive_info, bake_multi, bake_tile, compress_tile, compression_name, decompress_tile,
    merge_tile_entries, to_lm_compression, write_archive, BakeConfig, TileCompression,
};
use light_maps::pmtiles::PmtReader;
use light_maps::props::PropValue;
use light_maps::spatial::{interleave_bits, morton_code, plan_spatial_sort};
use light_maps::tile_encode::{
    encode_geometry as encode_commands, encode_tile, json_value_to_mvt, EncodableFeature, MvtValue,
};
use light_maps::tile_id::tile_to_id;
use light_maps::tiling::{
    bin_features, chunk_end, grid_side, pad_span, plan_chunks, TileBucket, TileSpan,
    CHUNK_FEATURE_REFS, MAX_FEATURES_PER_TILE,
};
use light_maps::writer::TileEntry;

use geozero::mvt::Message;

fn at(x: f64, y: f64) -> Coord {
    Coord { x: x.to_bits(), y: y.to_bits() }
}

fn roundtrip(g: Geometry<Coord>) -> Geometry<Coord> {
    let mut buf = Vec::new();
    encode_geometry(&g, &mut buf);
    let mut cur = 0;
    let back = decode_geometry(&buf, &mut cur).unwrap();
    assert_eq!(cur, buf.len());
    back
}

#[test]
fn point_roundtrip() {
    match roundtrip(Geometry::Point(at(1.5, -2.5))) {
        Geometry::Point(p) => {
            assert_eq!((f64::from_bits(p.x), f64::from_bits(p.y)), (1.5, -2.5));
        }
        _ => panic!("type changed"),
    }
}

#[test]
fn polygon_with_hole_roundtrip() {
    let p = Polygon {
        exterior: vec![at(0., 0.), at(4., 0.), at(4., 4.), at(0., 4.), at(0., 0.)],
        interiors: vec![vec![at(1., 1.), at(2., 1.), at(2., 2.), at(1., 2.), at(1., 1.)]],
    };
    match roundtrip(Geometry::Polygon(p)) {
        Geometry::Polygon(q) => {
            assert_eq!(q.exterior.len(), 5);
            assert_eq!(q.interiors.len(), 1);
        }
        _ => panic!("type changed"),
    }
}

#[test]
fn linestring_roundtrip() {
    match roundtrip(Geometry::LineString(vec![at(0.0, 0.0), at(1.0, 1.0), at(2.0, 0.0)])) {
        Geometry::LineString(q) => assert_eq!(q.len(), 3),
        _ => panic!("type changed"),
    }
}

#[test]
fn multi_geometries_roundtrip() {
    match roundtrip(Geometry::MultiPoint(vec![at(1., 2.), at(3., 4.)])) {
        Geometry::MultiPoint(v) => assert_eq!(v, vec![at(1., 2.), at(3., 4.)]),
        _ => panic!("type changed"),
    }
    match roundtrip(Geometry::MultiLineString(vec![vec![at(1., 2.)], vec![], vec![at(5., 6.)]])) {
        Geometry::MultiLineString(v) => {
            assert_eq!(v, vec![vec![at(1., 2.)], vec![], vec![at(5., 6.)]]);
        }
        _ => panic!("type changed"),
    }
    let p = Polygon { exterior: vec![at(7., 8.)], interiors: vec![] };
    match roundtrip(Geometry::MultiPolygon(vec![p])) {
        Geometry::MultiPolygon(v) => assert_eq!(v[0].exterior, vec![at(7., 8.)]),
        _ => panic!("type changed"),
    }
}

#[test]
fn open_rings_are_closed_when_read() {
    let p = Polygon {
        exterior: vec![at(1., 2.), at(3., 4.)],
        interiors: vec![
            vec![],
            vec![at(0., 5.), at(6., 6.), at(-0., 5.)],
            vec![at(1., 1.), at(2., 2.), at(2., 1.)],
            vec![at(f64::NAN, 1.)],
        ],
    };
    match roundtrip(Geometry::Polygon(p)) {
        Geometry::Polygon(q) => {
            assert_eq!(q.exterior, vec![at(1., 2.), at(3., 4.), at(1., 2.)]);
            let lens: Vec<usize> = q.interiors.iter().map(|r| r.len()).collect();
            assert_eq!(lens, vec![0, 3, 4, 2]);
            assert_eq!(q.interiors[2][3], at(1., 1.));
        }
        _ => panic!("type changed"),
    }
}

#[test]
fn plain_properties_read_back() {
    let members: Vec<(String, String)> = [
        ("a", "null"),
        ("b", "true"),
        ("c", "-9223372036854775808"),
        ("d", "18446744073709551615"),
        ("d\"\\", "\"x\\n\u{e9}\""),
        ("é", "0"),
    ]
    .map(|(k, v)| (k.to_string(), v.to_string()))
    .to_vec();
    let json = write_object(&members);
    let mut w = StoreWriter::create();
    let (rec, meta) = w.append(&Geometry::Point(at(1., 2.)), [0; 4], json.as_bytes());
    let (_, props) = StoreReader::open(&rec).read(&meta).unwrap();
    let names: Vec<&str> = props.iter().map(|(k, _)| k.as_str()).collect();
    assert_eq!(names, members.iter().map(|(k, _)| k.as_str()).collect::<Vec<_>>());
    let wanted = read_props(&members);
    assert_eq!(format!("{props:?}"), format!("{wanted:?}"));
    assert!(matches!(&props[4].1, PropValue::Text(s) if s == "x\né"));
}

#[test]
fn lines_and_collections_are_stored_as_simpler_kinds() {
    match roundtrip(Geometry::Line(at(1., 1.), at(2., 2.))) {
        Geometry::LineString(v) => assert_eq!(v, vec![at(1., 1.), at(2., 2.)]),
        _ => panic!("expected a line string"),
    }
    match roundtrip(Geometry::GeometryCollection(vec![Geometry::Point(at(9., 9.))])) {
        Geometry::Point(p) => assert_eq!(p, at(9., 9.)),
        _ => panic!("expected the first member"),
    }
    match roundtrip(Geometry::Other) {
        Geometry::Point(p) => assert_eq!(p, at(0., 0.)),
        _ => panic!("expected the origin"),
    }
}

#[test]
fn truncated_record_is_an_error() {
    let mut buf = Vec::new();
    encode_geometry(&Geometry::Point(at(1., 2.)), &mut buf);
    buf.truncate(10);
    let mut cur = 0;
    match decode_geometry(&buf, &mut cur) {
        Err(BakeError::Encode(text)) => assert_eq!(text, "store underrun"),
        _ => panic!("expected an error"),
    }
}

#[test]
fn unknown_tag_is_an_error() {
    let mut cur = 0;
    match decode_geometry(&[99], &mut cur) {
        Err(BakeError::Encode(text)) => assert_eq!(text, "bad geometry tag 99"),
        _ => panic!("expected an error"),
    }
}

#[test]
fn store_write_read_roundtrip() {
    let mut w = StoreWriter::create();
    let bbox = [10.0f64, 20.0, 10.0, 20.0].map(f64::to_bits);
    let (first, _) = w.append(&Geometry::Point(at(1.0, 2.0)), bbox, b"{}");
    let (rec, meta) = w.append(&Geometry::Point(at(10.0, 20.0)), bbox, b"{\"k\":\"v\"}");
    let mut store = first.clone();
    store.extend_from_slice(&rec);
    assert_eq!(meta.offset, first.len() as u64);
    let reader = StoreReader::open(&store);
    let (rg, rp) = reader.read(&meta).unwrap();
    assert!(matches!(rg, Geometry::Point(_)));
    assert_eq!(rp[0].0, "k");
    assert!(matches!(&rp[0].1, PropValue::Text(s) if s == "v"));
    let mut broken = store.clone();
    *broken.last_mut().unwrap() = b'!';
    assert!(matches!(StoreReader::open(&broken).read(&meta), Err(BakeError::Encode(_))));
    assert_eq!(reader.read_raw(&meta), rec.as_slice());
    let outside = FeatureMeta { bbox, offset: store.len() as u64, len: 1 };
    assert!(reader.try_read(&outside).is_none());
}

#[test]
fn raw_records_move_unchanged() {
    let mut w = StoreWriter::create();
    let mut store: Vec<u8> = Vec::new();
    let mut index = Vec::new();
    for (x, name) in [(3.0, "c"), (1.0, "a"), (2.0, "b")] {
        let json = format!("{{\"n\":\"{name}\"}}");
        let (rec, meta) = w.append(&Geometry::Point(at(x, 0.0)), [0; 4], json.as_bytes());
        store.extend_from_slice(&rec);
        index.push(meta);
    }
    let (order, moved) = plan_spatial_sort(&index, &vec![30, 10, 20]);
    assert_eq!(order, vec![1, 2, 0]);
    let old = StoreReader::open(&store);
    let mut sorted: Vec<u8> = Vec::new();
    let mut w2 = StoreWriter::create();
    for (k, from) in order.iter().enumerate() {
        let raw = old.read_raw(&index[*from]);
        let meta = w2.append_raw(index[*from].bbox, raw);
        assert_eq!((meta.offset, meta.len), (moved[k].offset, moved[k].len));
        sorted.extend_from_slice(raw);
    }
    let new = StoreReader::open(&sorted);
    let (_, props) = new.read_record(&moved[0]).unwrap().unwrap();
    assert_eq!(props, b"{\"n\":\"a\"}".to_vec());
}

#[test]
fn morton_codes() {
    assert_eq!(interleave_bits(0b1011), 0b100_0101);
    assert_eq!(morton_code(0, 0), 0);
    assert_eq!(morton_code(1, 0), 1);
    assert_eq!(morton_code(0, 1), 2);
    assert_eq!(morton_code(3, 3), 15);
    assert_eq!(morton_code(0x1f_ffff, 0x1f_ffff), (1 << 42) - 1);
}

#[test]
fn stable_order_keeps_equal_keys_in_place() {
    assert_eq!(stable_order(&vec![5, 1, 5, 0, 1]), vec![3, 1, 4, 0, 2]);
}

fn encodable(geom: Geometry<(i64, i64)>, props: Vec<(String, PropValue)>) -> EncodableFeature {
    EncodableFeature { geom, props }
}

#[test]
fn encode_single_point_tile() {
    let feat = encodable(Geometry::Point((2048, 2048)), vec![]);
    let bytes = encode_tile("test", &vec![feat]);
    assert!(!bytes.is_empty());
    let tile = geozero::mvt::Tile::decode(bytes.as_slice()).unwrap();
    assert_eq!(tile.layers.len(), 1);
    assert_eq!(tile.layers[0].name, "test");
    assert_eq!(tile.layers[0].version, 2);
    assert_eq!(tile.layers[0].extent, Some(4096));
    assert_eq!(tile.layers[0].features[0].geometry, vec![9, 4096, 4096]);
}

#[test]
fn geometry_commands() {
    // A move to (3, 6), then lines to (8, 12) and (20, 34), and a close.
    let ring = vec![(3, 6), (8, 12), (20, 34), (3, 6)];
    let p = Polygon { exterior: ring, interiors: vec![] };
    assert_eq!(
        encode_commands(&Geometry::Polygon(p)).unwrap(),
        vec![9, 6, 12, 18, 10, 12, 24, 44, 15]
    );
    assert_eq!(
        encode_commands(&Geometry::LineString(vec![(2, 2), (2, 10), (10, 10)])).unwrap(),
        vec![9, 4, 4, 18, 0, 16, 16, 0]
    );
    assert_eq!(encode_commands(&Geometry::Point((25, 17))).unwrap(), vec![9, 50, 34]);
    assert!(encode_commands(&Geometry::Other).is_none());
}

#[test]
fn one_cursor_goes_through_all_parts() {
    let lines = Geometry::MultiLineString(vec![
        vec![(1, 1), (2, 2)],
        vec![(9, 9)],
        vec![(3, 3), (4, 4)],
    ]);
    assert_eq!(
        encode_commands(&lines).unwrap(),
        vec![9, 2, 2, 10, 2, 2, 9, 2, 2, 10, 2, 2]
    );
    let square = |a: i64, b: i64| vec![(a, a), (b, a), (b, b), (a, b), (a, a)];
    let hole: Vec<(i64, i64)> = square(11, 13).into_iter().rev().collect();
    let all = Geometry::MultiPolygon(vec![
        Polygon { exterior: square(0, 10), interiors: vec![] },
        Polygon { exterior: square(10, 20), interiors: vec![hole] },
    ]);
    assert_eq!(
        encode_commands(&all).unwrap(),
        vec![
            9, 0, 0, 26, 20, 0, 0, 20, 19, 0, 15, // to (0, 10)
            9, 20, 0, 26, 20, 0, 0, 20, 19, 0, 15, // to (10, 20)
            9, 2, 17, 26, 0, 4, 4, 0, 0, 3, 15,
        ]
    );
    let points = Geometry::MultiPoint(vec![(5, 7), (3, 2)]);
    assert_eq!(encode_commands(&points).unwrap(), vec![17, 10, 14, 3, 9]);
}

#[test]
fn properties_are_interned() {
    let text = |s: &str| PropValue::Text(s.to_string());
    let a = encodable(
        Geometry::Point((1, 1)),
        vec![("kind".to_string(), text("x")), ("n".to_string(), PropValue::Int(5))],
    );
    let b = encodable(
        Geometry::Point((2, 2)),
        vec![("kind".to_string(), text("y")), ("n".to_string(), PropValue::Int(5))],
    );
    let bytes = encode_tile("t", &vec![a, b]);
    let tile = geozero::mvt::Tile::decode(bytes.as_slice()).unwrap();
    let layer = &tile.layers[0];
    assert_eq!(layer.keys, vec!["kind".to_string(), "n".to_string()]);
    assert_eq!(layer.values.len(), 3);
    assert_eq!(layer.values[0].string_value, Some("x".to_string()));
    assert_eq!(layer.values[1].sint_value, Some(5));
    assert_eq!(layer.features[0].tags, vec![0, 0, 1, 1]);
    assert_eq!(layer.features[1].tags, vec![0, 2, 1, 1]);
}

#[test]
fn json_values_in_tiles() {
    assert!(matches!(json_value_to_mvt(&PropValue::Bool(true)), MvtValue::Bool(true)));
    assert!(matches!(json_value_to_mvt(&PropValue::Int(-3)), MvtValue::Sint(-3)));
    let half = 0.5f64.to_bits();
    match json_value_to_mvt(&PropValue::Float(half)) {
        MvtValue::Double(bits) => assert_eq!(bits, half),
        _ => panic!("expected a number"),
    }
}

fn span(x_min: u32, x_max: u32, y_min: u32, y_max: u32) -> TileSpan {
    TileSpan { x_min, x_max, y_min, y_max }
}

#[test]
fn spans_are_padded_within_the_grid() {
    assert_eq!(grid_side(3), 8);
    assert_eq!(pad_span(span(0, 2, 3, 7), 3), span(0, 3, 2, 7));
    assert_eq!(pad_span(span(0, 0, 0, 0), 0), span(0, 0, 0, 0));
}

#[test]
fn features_are_binned_by_tile() {
    let spans = vec![Some(span(0, 1, 0, 0)), None, Some(span(1, 1, 0, 1))];
    let buckets = bin_features(1, &spans, MAX_FEATURES_PER_TILE);
    let listed: Vec<(u32, u32, Vec<u32>)> =
        buckets.iter().map(|b| (b.x, b.y, b.features.clone())).collect();
    assert_eq!(listed, vec![(0, 0, vec![0]), (1, 1, vec![2]), (1, 0, vec![0, 2])]);
    let capped = bin_features(1, &spans, 1);
    assert_eq!(capped[2].features, vec![0]);
}

#[test]
fn tiles_are_encoded_in_portions() {
    let bucket = |n: usize| TileBucket { x: 0, y: 0, features: vec![0; n] };
    let buckets = vec![bucket(60_000), bucket(30_000), bucket(20_000), bucket(1), bucket(49_999)];
    assert_eq!(CHUNK_FEATURE_REFS, 50_000);
    assert_eq!(chunk_end(&buckets, 0), 1);
    assert_eq!(plan_chunks(&buckets), vec![(0, 1), (1, 3), (3, 5)]);
    assert_eq!(plan_chunks(&vec![]), vec![]);
}

fn entry(id: u64, data: Vec<u8>) -> TileEntry {
    TileEntry { tile_id: id, data }
}

#[test]
fn tiles_decompress_to_what_was_compressed() {
    let data = b"some tile data, some tile data, some tile data".to_vec();
    for comp in [TileCompression::Gzip, TileCompression::Brotli] {
        let packed = compress_tile(&data, comp).unwrap();
        assert_ne!(packed, data);
        assert_eq!(decompress_tile(&packed, comp).unwrap(), data);
    }
    assert_eq!(&compress_tile(&data, TileCompression::Gzip).unwrap()[..2], &[0x1f, 0x8b]);
}

#[test]
fn damaged_tiles_fail_to_decompress() {
    for comp in [TileCompression::Gzip, TileCompression::Brotli] {
        match decompress_tile(b"not compressed at all", comp) {
            Err(BakeError::Write(text)) => assert!(!text.is_empty()),
            _ => panic!("expected an error"),
        }
    }
}

#[test]
fn compression_names() {
    assert_eq!(compression_name(TileCompression::Gzip), "gzip");
    assert_eq!(compression_name(TileCompression::Brotli), "brotli");
    assert_eq!(to_lm_compression(TileCompression::Brotli), Compression::Brotli);
}

#[test]
fn baked_tile_decodes_to_its_features() {
    let comp = TileCompression::Gzip;
    assert!(bake_tile(2, 1, 3, "roads", &vec![], comp).is_none());
    let feats = vec![encodable(Geometry::LineString(vec![(0, 0), (10, 10)]), vec![])];
    let tile = bake_tile(2, 1, 3, "roads", &feats, comp).unwrap();
    assert_eq!(tile.tile_id, tile_to_id(2, 1, 3));
    let raw = decompress_tile(&tile.data, comp).unwrap();
    assert_eq!(raw, encode_tile("roads", &feats));
}

#[test]
fn tiles_of_several_layers_are_merged() {
    let comp = TileCompression::Gzip;
    let layer = |name: &str| {
        let raw = encode_tile(name, &vec![encodable(Geometry::Point((1, 1)), vec![])]);
        compress_tile(&raw, comp).unwrap()
    };
    let merged = merge_tile_entries(
        vec![entry(7, layer("a")), entry(3, layer("only")), entry(7, layer("b"))],
        comp,
    )
    .unwrap();
    assert_eq!(merged.len(), 2);
    assert_eq!(merged[0].data, layer("only"));
    let raw = decompress_tile(&merged[1].data, comp).unwrap();
    let tile = geozero::mvt::Tile::decode(raw.as_slice()).unwrap();
    let names: Vec<&str> = tile.layers.iter().map(|l| l.name.as_str()).collect();
    assert_eq!(names, vec!["a", "b"]);
}

#[test]
fn merging_damaged_tiles_is_an_error() {
    let bad = vec![entry(1, b"x".to_vec()), entry(1, b"y".to_vec())];
    assert!(matches!(
        merge_tile_entries(bad, TileCompression::Gzip),
        Err(BakeError::Write(_))
    ));
}

fn info() -> ArchiveInfo {
    archive_info(&BakeConfig::default(), &[-10, -20, 30, 40], &[10, 10])
}

#[test]
fn archive_describes_its_contents() {
    let i = info();
    assert_eq!((i.min_zoom, i.max_zoom, i.center_zoom), (0, 14, 7));
    assert_eq!((i.min_lon_e7, i.max_lat_e7), (-10, 40));
    let out = write_archive(vec![entry(0, b"z0".to_vec())], "{\"a\":1}", &i);
    assert_eq!(out.tile_count, 1);
    assert_eq!(out.archive_bytes, out.pmtiles_bytes.len() as u64);
    let r = PmtReader::open(&out.pmtiles_bytes).unwrap();
    assert_eq!(r.max_zoom(), 14);
    assert_eq!(r.metadata().unwrap(), "{\"a\":1}");
    assert_eq!(r.get_tile(0, 0, 0).unwrap().data.as_ref(), b"z0");
}

#[test]
fn layers_are_baked_into_one_archive() {
    let comp = TileCompression::Gzip;
    let layer = |name: &str| {
        let raw = encode_tile(name, &vec![encodable(Geometry::Point((1, 1)), vec![])]);
        vec![entry(0, compress_tile(&raw, comp).unwrap())]
    };
    let out = bake_multi(vec![layer("points"), layer("world")], comp, "{}", &info()).unwrap();
    assert_eq!(out.tile_count, 1);
    let r = PmtReader::open(&out.pmtiles_bytes).unwrap();
    let raw = decompress_tile(r.get_tile(0, 0, 0).unwrap().data.as_ref(), comp).unwrap();
    let tile = geozero::mvt::Tile::decode(raw.as_slice()).unwrap();
    assert_eq!(tile.layers.len(), 2);
    assert!(matches!(bake_multi(vec![], comp, "{}", &info()), Err(BakeError::Empty)));
}

#[test]
fn default_configuration() {
    let c = BakeConfig::default();
    assert_eq!(c.layer_name, "default");
    assert_eq!((c.min_zoom, c.max_zoom), (0, 14));
    assert_eq!(c.compression, TileCompression::Gzip);
    assert!(c.attribution.is_none() && c.keep_fields.is_none());
}

#[test]
fn bake_error_messages() {
    assert_eq!(BakeError::Empty.message(), "empty feature collection — nothing to bake");
    assert_eq!(BakeError::GeoJson("x".to_string()).message(), "invalid GeoJSON: x");
    assert_eq!(BakeError::Io("x".to_string()).message(), "io: x");
    assert_eq!(BakeError::Encode("x".to_string()).message(), "mvt encode: x");
    assert_eq!(BakeError::Write("x".to_string()).message(), "write: x");
}
