use light_maps::csv_layer::{coordinate_columns, ingest_csv, ingest_table, read_csv};
use light_maps::error::BakeError;
use light_maps::estimate::{count_points, heaviest_first, SampledFeature, Sampler, SAMPLE_LINES};
use light_maps::extent::{bounding_box, joined_bounds};
use light_maps::feature_store::StoreReader;
use light_maps::fields::{
    drop_fields, field_label, fill_layer_names, keeps_field, pick_fields, Choice,
};
use light_maps::geometry::{Coord, Geometry, Polygon};
use light_maps::header::Compression;
use light_maps::human::human_bytes;
use light_maps::ingest::{
    feature_line, ingest_features, ingest_geojson, ingest_geojsonseq, shapefile_source,
    store_step, IngestedLayer, RawItem, StoreBuilder, StoreStep,
};
use light_maps::manifest::{Manifest, SchemaBuilder};
use light_maps::mbtiles::{
    detect_compression, import_mbtiles, imported_info, metadata_value, parse_bounds, MbtilesRow,
};
use light_maps::pipeline::BakeConfig;
use light_maps::props::{json_kind, json_type_name, PropValue};
use light_maps::tile_id::tile_to_id;

fn at(x: f64, y: f64) -> Coord {
    Coord { x: x.to_bits(), y: y.to_bits() }
}

fn texts(v: &[&str]) -> Vec<String> {
    v.iter().map(|s| s.to_string()).collect()
}

#[test]
fn parses_ndjson() {
    let src = r#"{"type":"Feature","geometry":{"type":"Point","coordinates":[0,0]},"properties":{}}
{"type":"Feature","geometry":{"type":"Point","coordinates":[1,1]},"properties":{}}"#;
    let layer = ingest_geojsonseq("test", src, &None).unwrap();
    assert_eq!(layer.features.len(), 2);
}

#[test]
fn empty_input_errors() {
    assert!(ingest_geojsonseq("test", "", &None).is_err());
}

#[test]
fn strips_rs_delimiters() {
    let src = "\x1E{\"type\":\"Feature\",\"geometry\":{\"type\":\"Point\",\"coordinates\":[2,2]},\"properties\":{}}";
    let layer = ingest_geojsonseq("test", src, &None).unwrap();
    assert_eq!(layer.features.len(), 1);
}

#[test]
fn streaming_reader_matches_string_path() {
    let src = r#"{"type":"Feature","geometry":{"type":"Point","coordinates":[0,0]},"properties":{"a":1}}
{"type":"Feature","geometry":{"type":"Point","coordinates":[1,1]},"properties":{"a":2}}"#;
    let layer = ingest_geojsonseq("test", src, &None).unwrap();
    assert_eq!(layer.features.len(), 2);
    assert_eq!(layer.layer_info.fields.len(), 1);
}

#[test]
fn geojsonseq_parses_ndjson() {
    let src = "{\"type\":\"Feature\",\"geometry\":{\"type\":\"Point\",\"coordinates\":[0,0]},\"properties\":{\"id\":1}}\n{\"type\":\"Feature\",\"geometry\":{\"type\":\"Point\",\"coordinates\":[1,1]},\"properties\":{\"id\":2}}";
    let layer = ingest_geojsonseq("seq", src, &None).unwrap();
    assert_eq!(layer.features.len(), 2);
}

#[test]
fn geojsonseq_with_rs_delimiters() {
    let src = "\x1E{\"type\":\"Feature\",\"geometry\":{\"type\":\"Point\",\"coordinates\":[0,0]},\"properties\":{}}\n\
               \x1E{\"type\":\"Feature\",\"geometry\":{\"type\":\"Point\",\"coordinates\":[1,1]},\"properties\":{}}";
    let layer = ingest_geojsonseq("seq", src, &None).unwrap();
    assert_eq!(layer.features.len(), 2);
}

#[test]
fn blank_lines_hold_no_feature() {
    assert_eq!(feature_line("  \t"), None);
    assert_eq!(feature_line("\x1E\x1E \u{a0}"), None);
    assert_eq!(feature_line("\x1E x y \r"), Some("x y".to_string()));
    assert_eq!(feature_line(" \x1Ex"), Some("\x1Ex".to_string()));
}

#[test]
fn features_without_geometry_are_skipped() {
    let only = vec![RawItem::Feature { geometry: None, members: vec![] }];
    assert!(matches!(ingest_features("x", only, &None), Err(BakeError::Empty)));
}

#[test]
fn an_unreadable_feature_ends_the_reading() {
    let point = || RawItem::Feature {
        geometry: Some(Geometry::Point(at(0., 0.))),
        members: vec![],
    };
    let items = vec![point(), RawItem::Unreadable("first".to_string()), point(),
        RawItem::Unreadable("second".to_string())];
    match ingest_features("x", items, &None) {
        Err(BakeError::GeoJson(text)) => assert_eq!(text, "first"),
        _ => panic!("expected an error"),
    }
}

#[test]
fn ingested_layers_know_their_schema_and_bounds() {
    let feature = |x: f64, y: f64, n: &str| RawItem::Feature {
        geometry: Some(Geometry::Point(at(x, y))),
        members: vec![
            ("n".to_string(), n.to_string()),
            ("gone".to_string(), "null".to_string()),
        ],
    };
    let items = vec![
        feature(-200.0, 10.0, "1"),
        feature(20.0, -30.5, "\"x\""),
    ];
    let keep = Some(texts(&["n"]));
    let layer = ingest_features("l", items, &keep).unwrap();
    assert_eq!(layer.layer_info.name, "l");
    assert_eq!(layer.layer_info.fields.len(), 1);
    assert_eq!(layer.layer_info.fields[0].field_type, "mixed");
    assert_eq!(layer.layer_info.geometry_types, texts(&["Point"]));
    assert_eq!(layer.features[0].1.len(), 1);
    let bounds = layer.bounds.map(f64::from_bits);
    assert_eq!(bounds, [-180.0, -30.5, 20.0, 10.0]);
}

fn ingest(name: &str, src: &str) -> Result<IngestedLayer, BakeError> {
    ingest_csv(name, src, &None)
}

#[test]
fn parse_basic_csv() {
    let src = "lat,lon,name\n51.5,-0.1,London\n48.8,2.35,Paris";
    let layer = ingest("cities", src).unwrap();
    assert_eq!(layer.features.len(), 2);
    let (geom, props) = &layer.features[0];
    assert!(matches!(geom, Geometry::Point(_)));
    assert_eq!(props[0].0, "name");
    assert!(matches!(&props[0].1, PropValue::Text(s) if s == "London"));
    match geom {
        Geometry::Point(c) => assert_eq!(*c, at(-0.1, 51.5)),
        _ => unreachable!(),
    }
}

#[test]
fn missing_lat_errors() {
    let src = "x,y\n1,2";
    assert!(ingest("test", src).is_err());
}

#[test]
fn csv_ingest_produces_points() {
    let src = "lat,lon,name\n51.5,-0.1,London\n48.8,2.35,Paris\n52.5,13.4,Berlin";
    let layer = ingest("cities", src).unwrap();
    assert_eq!(layer.features.len(), 3);
    for (geom, _) in &layer.features {
        assert!(matches!(geom, Geometry::Point(_)));
    }
}

#[test]
fn csv_ingest_captures_properties() {
    let src = "lat,lon,pop\n51.5,-0.1,9000000";
    let layer = ingest("cities", src).unwrap();
    let (_, props) = &layer.features[0];
    assert!(props.iter().any(|(k, _)| k == "pop"));
}

fn error_text(r: Result<IngestedLayer, BakeError>) -> String {
    match r {
        Err(e) => e.message(),
        Ok(_) => panic!("expected an error"),
    }
}

#[test]
fn csv_errors() {
    assert_eq!(
        error_text(ingest("t", "x,lon\n1,2")),
        "invalid GeoJSON: CSV must have 'lat' or 'latitude' column"
    );
    assert_eq!(
        error_text(ingest("t", "latitude,x\n1,2")),
        "invalid GeoJSON: CSV must have 'lon'/'lng' or 'longitude' column"
    );
    assert_eq!(error_text(ingest("t", "lat,lon\nx,y")), "invalid GeoJSON: invalid lat value");
    assert_eq!(error_text(ingest("t", "lat,lon\n1,y")), "invalid GeoJSON: invalid lon value");
    assert!(error_text(ingest("t", "lat,lon\n1,2\n1")).contains("CSV error"));
    assert!(matches!(ingest("t", "lat,lon"), Err(BakeError::Empty)));
}

#[test]
fn csv_headers_are_trimmed_and_lowered() {
    let src = " LATITUDE , Lng , Höhe \n 1 , 2 , 3.5 \n";
    let layer = ingest("t", src).unwrap();
    let (_, props) = &layer.features[0];
    assert_eq!(props[0].0, "höhe");
    assert!(matches!(props[0].1, PropValue::Float(b) if f64::from_bits(b) == 3.5));
    assert_eq!(layer.layer_info.fields[0].field_type, "Number");
    assert_eq!(coordinate_columns(&texts(&["lon", "lat", "lat"])).unwrap(), (1, 0));
}

#[test]
fn csv_properties_are_in_the_order_of_their_names() {
    let layer = ingest("t", "zeta,lat,beta,lon,alpha,beta\n1,2,x,3,4,y").unwrap();
    let names: Vec<&str> = layer.features[0].1.iter().map(|(k, _)| k.as_str()).collect();
    assert_eq!(names, vec!["alpha", "beta", "zeta"]);
    assert!(matches!(&layer.features[0].1[1].1, PropValue::Text(s) if s == "y"));
}

#[test]
fn csv_numbers_that_json_cannot_hold_are_null() {
    let layer = ingest("t", "lat,lon,v,v\n1,2,3,inf\n3,4,x,5").unwrap();
    assert_eq!(layer.features[0].1.len(), 1);
    assert!(matches!(layer.features[0].1[0].1, PropValue::Null));
    assert!(matches!(layer.features[1].1[0].1, PropValue::Float(_)));
    assert_eq!(layer.layer_info.fields[0].field_type, "mixed");
    assert_eq!(layer.bounds.map(f64::from_bits), [2.0, 1.0, 4.0, 3.0]);
}

#[test]
fn tables_are_read_with_given_numbers() {
    let t = read_csv("lat,lon\na,b\n").unwrap();
    assert_eq!((t.lat_col, t.lon_col), (0, 1));
    let n = vec![vec![Some(1.5f64.to_bits()), Some(2.5f64.to_bits())]];
    let layer = ingest_table("t", &t, &n, &None).unwrap();
    assert!(matches!(layer.features[0].0, Geometry::Point(c) if c == at(2.5, 1.5)));
    let none = vec![vec![Some(0), None]];
    assert_eq!(
        error_text(ingest_table("t", &t, &none, &None)),
        "invalid GeoJSON: invalid lon value"
    );
}

#[test]
fn documents_become_layers() {
    let point = r#"{"type":"Point","coordinates":[1,2]}"#;
    let feature = format!(r#"{{"type":"Feature","geometry":{point},"properties":{{"a":1,"b":"x"}}}}"#);
    let nowhere = r#"{"type":"Feature","geometry":null,"properties":null}"#;
    let all = format!(r#"{{"type":"FeatureCollection","features":[{feature},{nowhere}]}}"#);
    for src in [&feature, &all] {
        let layer = ingest_geojson("l", src, &None).unwrap();
        assert_eq!(layer.features.len(), 1);
        assert_eq!(layer.features[0].1.len(), 2);
        assert!(matches!(layer.features[0].0, Geometry::Point(c) if c == at(1.0, 2.0)));
    }
    let kept = ingest_geojson("l", &all, &Some(texts(&["b"]))).unwrap();
    assert_eq!(kept.layer_info.fields.len(), 1);
    assert_eq!(kept.layer_info.fields[0].name, "b");
    let bare = ingest_geojson("l", point, &None).unwrap();
    assert_eq!(bare.features.len(), 1);
    assert!(bare.features[0].1.is_empty());
    assert!(matches!(ingest_geojson("l", nowhere, &None), Err(BakeError::Empty)));
    let empty = r#"{"type":"FeatureCollection","features":[]}"#;
    assert!(matches!(ingest_geojson("l", empty, &None), Err(BakeError::Empty)));
    assert!(matches!(ingest_geojson("l", "{", &None), Err(BakeError::GeoJson(_))));
    assert!(matches!(ingest_geojsonseq("l", "\n{\n", &None), Err(BakeError::GeoJson(_))));
}

#[test]
fn bounding_boxes() {
    let ring = vec![at(1., 1.), at(5., 2.), at(3., -4.)];
    let poly = || Polygon { exterior: vec![at(1., 1.), at(5., 2.), at(3., -4.)], interiors: vec![
        vec![at(100., 100.)],
    ] };
    let expected = [1.0, -4.0, 5.0, 2.0];
    for g in [
        Geometry::LineString(ring.clone()),
        Geometry::MultiPoint(ring.clone()),
        Geometry::Polygon(poly()),
        Geometry::MultiPolygon(vec![poly()]),
        Geometry::MultiLineString(vec![vec![], ring.clone()]),
        Geometry::GeometryCollection(vec![Geometry::Other, Geometry::Polygon(poly())]),
    ] {
        let b = bounding_box(&g).unwrap();
        let got = [b.min_x, b.min_y, b.max_x, b.max_y].map(f64::from_bits);
        assert_eq!(got, expected);
    }
    assert!(bounding_box(&Geometry::LineString(vec![])).is_none());
    assert!(bounding_box(&Geometry::GeometryCollection(vec![Geometry::Other])).is_none());
}

#[test]
fn stored_features_are_indexed() {
    let mut b = StoreBuilder::new();
    let wgs = Geometry::Point(at(10., 20.));
    let merc = Geometry::Point(at(1000., 2000.));
    let members = vec![
        ("k".to_string(), "true".to_string()),
        ("gone".to_string(), "1".to_string()),
        ("q\"".to_string(), "[1,2]".to_string()),
    ];
    let keep = Some(texts(&["k", "q\""]));
    assert!(b.is_open());
    let rec = b.add(&wgs, &merc, Some([1, 2, 3, 4]), members, &keep).unwrap();
    assert!(b.add(&Geometry::Other, &Geometry::Other, None, vec![], &None).is_none());
    let (index, bounds, info) = b.finish("l").unwrap();
    assert_eq!(index.len(), 1);
    assert_eq!(index[0].len as usize, rec.len());
    assert!(rec.ends_with(br#"{"k":true,"q\"":[1,2]}"#));
    assert_eq!(bounds.map(f64::from_bits), [10.0, 20.0, 10.0, 20.0]);
    assert_eq!(info.geometry_types, texts(&["Point", "Unknown"]));
    assert_eq!(info.fields[0].field_type, "Boolean");
    assert!(matches!(StoreBuilder::new().finish("l"), Err(BakeError::Empty)));
    let (g, props) = StoreReader::open(&rec).read(&index[0]).unwrap();
    assert!(matches!(g, Geometry::Point(c) if c == at(1000., 2000.)));
    assert_eq!(props.len(), 2);
    assert!(matches!(props[0].1, PropValue::Bool(true)));
    assert_eq!(props[1].0, "q\"");
}

#[test]
fn features_to_be_stored() {
    assert!(matches!(
        store_step(RawItem::Unreadable("t".to_string())),
        StoreStep::Fail(BakeError::GeoJson(t)) if t == "t"
    ));
    assert!(matches!(
        store_step(RawItem::Feature { geometry: None, members: vec![] }),
        StoreStep::Skip
    ));
    let item = RawItem::Feature { geometry: Some(Geometry::Point(at(1., 2.))), members: vec![] };
    assert!(matches!(store_step(item), StoreStep::Store { .. }));
}

#[test]
fn shapefile_text_becomes_a_collection() {
    assert_eq!(shapefile_source(1, " {\"a\":1}".to_string()).unwrap(), " {\"a\":1}");
    assert_eq!(
        shapefile_source(2, "x,y".to_string()).unwrap(),
        "{\"type\":\"FeatureCollection\",\"features\":[x,y]}"
    );
    assert!(matches!(shapefile_source(0, String::new()), Err(BakeError::Empty)));
}

fn row(z: i64, x: i64, y: i64) -> MbtilesRow {
    MbtilesRow { zoom_level: z, tile_column: x, tile_row: y, tile_data: vec![z as u8, 1] }
}

#[test]
fn mbtiles_rows_are_flipped() {
    let meta = vec![
        ("name".to_string(), "old".to_string()),
        ("name".to_string(), "new".to_string()),
        ("maxzoom".to_string(), "5".to_string()),
        ("minzoom".to_string(), "300".to_string()),
    ];
    let first = Some(vec![0x1f, 0x8b, 8]);
    let rows = vec![row(0, 0, 0), row(2, 1, 0), row(2, 3, 3)];
    let m = import_mbtiles(&meta, &first, rows).unwrap();
    let ids: Vec<u64> = m.entries.iter().map(|e| e.tile_id).collect();
    assert_eq!(ids, vec![0, tile_to_id(2, 1, 3), tile_to_id(2, 3, 0)]);
    assert_eq!((m.min_zoom, m.max_zoom), (0, 5));
    assert_eq!(m.name, "new");
    assert_eq!(m.description, None);
    assert_eq!(m.tile_compression, "gzip");
    let info = imported_info(&m, &[1, 2, 3, 4], &[5, 6]);
    assert!(matches!(info.tile_compression, Compression::Gzip));
    assert_eq!((info.min_zoom, info.max_zoom, info.center_zoom), (0, 5, 2));
    assert_eq!((info.min_lon_e7, info.max_lat_e7, info.center_lat_e7), (1, 4, 6));
}

#[test]
fn bounds_are_joined() {
    let join = |all: Vec<[f64; 4]>| {
        let bits = all.iter().map(|b| b.map(f64::to_bits)).collect();
        joined_bounds(&bits).map(f64::from_bits)
    };
    assert_eq!(join(vec![]), [180.0, 90.0, -180.0, -90.0]);
    let far = [f64::NAN, -9.0, 7.5, 200.0];
    assert_eq!(join(vec![[1.0, -2.0, 3.0, 4.0], far]), [1.0, -9.0, 7.5, 200.0]);
}

#[test]
fn mbtiles_defaults() {
    let m = import_mbtiles(&vec![], &None, vec![row(1, 0, 0)]).unwrap();
    assert_eq!((m.min_zoom, m.max_zoom), (0, 14));
    assert_eq!(m.bounds.map(f64::from_bits), [-180.0, -85.0, 180.0, 85.0]);
    assert_eq!(m.name, "imported");
    assert_eq!(m.tile_compression, "none");
    assert!(matches!(import_mbtiles(&vec![], &None, vec![]), Err(BakeError::Empty)));
    assert_eq!(detect_compression(&Some(vec![0x1f])), "none");
    assert_eq!(metadata_value(&vec![], "name"), None);
}

#[test]
fn mbtiles_bounds() {
    let read = |s: &str| parse_bounds(&Some(s.to_string())).map(f64::from_bits);
    assert_eq!(read("1, -2.5 ,x,3,4e1"), [1.0, -2.5, 3.0, 40.0]);
    assert_eq!(read("1,2,3"), [-180.0, -85.0, 180.0, 85.0]);
    assert_eq!(read("1,2,3,4,5"), [-180.0, -85.0, 180.0, 85.0]);
}

#[test]
fn mbtiles_rows_outside_their_level() {
    assert!(row(2, 0, 3).is_valid());
    assert!(!row(2, 0, 4).is_valid());
    assert!(!row(2, 0, -1).is_valid());
    assert!(!row(32, 0, 0).is_valid());
}

#[test]
fn schema_sums_up_types() {
    let mut s = SchemaBuilder::new();
    s.note_value("a", "Number");
    s.note_value("b", "String");
    s.note_value("a", "Number");
    s.note_value("b", "Null");
    s.note_kind("Point");
    s.note_kind("Point");
    s.note_stored();
    let info = s.finish("layer").unwrap();
    let fields: Vec<(&str, &str)> =
        info.fields.iter().map(|f| (f.name.as_str(), f.field_type.as_str())).collect();
    assert_eq!(fields, vec![("a", "Number"), ("b", "mixed")]);
    assert_eq!(info.geometry_types, texts(&["Point"]));
    assert!(matches!(SchemaBuilder::new().finish("x"), Err(BakeError::Empty)));
}

#[test]
fn manifest_of_a_bake() {
    let config = BakeConfig {
        layer_name: "roads".to_string(),
        min_zoom: 3,
        max_zoom: 10,
        attribution: Some("someone".to_string()),
        ..BakeConfig::default()
    };
    let m = Manifest::new(&config, vec![]);
    assert_eq!(m.name, "roads");
    assert_eq!(m.center_zoom, 6);
    assert_eq!(m.tile_compression, "gzip");
    assert_eq!(m.attribution, Some("someone".to_string()));
}

#[test]
fn value_labels() {
    assert_eq!(json_type_name(&PropValue::Null), "Null");
    assert_eq!(json_type_name(&PropValue::Object("{}".to_string())), "mixed");
    assert_eq!(json_kind(&PropValue::Array("[]".to_string())), "array");
    assert_eq!(json_kind(&PropValue::Float(0)), "number");
}

#[test]
fn human_bytes_formats() {
    assert_eq!(human_bytes(512), "512 B");
    assert_eq!(human_bytes(1536), "1.5 KB");
    assert_eq!(human_bytes(265 * 1024 * 1024), "265 MB");
}

fn reference_bytes(n: u64) -> String {
    let units = ["B", "KB", "MB", "GB", "TB"];
    let mut v = n as f64;
    let mut u = 0;
    while v >= 1024.0 && u < units.len() - 1 {
        v /= 1024.0;
        u += 1;
    }
    if u == 0 {
        format!("{n} B")
    } else if v >= 100.0 {
        format!("{v:.0} {}", units[u])
    } else {
        format!("{v:.1} {}", units[u])
    }
}

#[test]
fn human_bytes_agree_with_floating_point() {
    let mut n: u64 = 1;
    for step in 0..2000u64 {
        assert_eq!(human_bytes(n), reference_bytes(n), "{n}");
        n = n.wrapping_mul(6_364_136_223_846_793_005).wrapping_add(step) >> (step % 40);
    }
    for n in [0, 1023, 1024, 102_348, 104_857, 104_858, u64::MAX, (1 << 53) + 1] {
        assert_eq!(human_bytes(n), reference_bytes(n), "{n}");
    }
}

fn sampled(props: Vec<(&str, PropValue, u64)>, points: Option<u64>) -> SampledFeature {
    let total: u64 = props.iter().map(|p| p.2 + 10).sum();
    SampledFeature {
        points,
        props: props.into_iter().map(|(k, v, n)| (k.to_string(), v, n)).collect(),
        props_bytes: total,
    }
}

#[test]
fn samples_are_summed_up() {
    let mut s = Sampler::new();
    let text = || PropValue::Text("t".to_string());
    s.add_line(100, &Some(sampled(vec![("url", text(), 30), ("a", PropValue::Null, 4)], Some(1))));
    s.add_line(50, &None);
    s.add_line(80, &Some(sampled(vec![("url", PropValue::Int(1), 1)], Some(9))));
    assert!(!s.is_full());
    let (lines, bytes, record_bytes, fields) = s.finish();
    assert_eq!((lines, bytes), (2, 233));
    assert_eq!(record_bytes, (16 + 8 + 54) + (9 * 16 + 8 + 11));
    let got: Vec<(&str, u64, u64, &str)> =
        fields.iter().map(|f| (f.name.as_str(), f.value_bytes, f.present, f.kind)).collect();
    assert_eq!(got, vec![("a", 4, 1, "null"), ("url", 31, 2, "string")]);
}

#[test]
fn sampled_text_is_measured() {
    let mut s = Sampler::new();
    let line = r#"{"type":"Feature","geometry":{"type":"Polygon","coordinates":[[[0,0],[1,0],[1,1],[0,0]],[[2,2]]]},"properties":{"é":"x"}}"#;
    let nested = r#"{"type":"Feature","geometry":{"type":"GeometryCollection","geometries":[]},"properties":null}"#;
    s.add_text(line);
    s.add_text("no feature");
    s.add_text(nested);
    let (lines, bytes, record_bytes, fields) = s.finish();
    assert_eq!(lines, 2);
    assert_eq!(bytes as usize, line.len() + nested.len() + 10 + 3);
    assert_eq!(record_bytes, (5 * 16 + 8 + 10) + (16 + 8));
    assert_eq!(fields.len(), 1);
    assert_eq!((fields[0].name.as_str(), fields[0].value_bytes, fields[0].present), ("é", 3, 1));
}

#[test]
fn points_are_counted_as_they_stand_in_the_text() {
    let cases = [
        (r#"{"type":"Point","coordinates":[1,2,3]}"#, 1),
        (r#"{"type":"MultiPoint","coordinates":[[1,2],[3,4]]}"#, 2),
        (r#"{"type":"LineString","coordinates":[[1,2],[3,4],[5,6]]}"#, 3),
        (r#"{"type":"MultiLineString","coordinates":[[[1,2],[3,4]],[],[[5,6]]]}"#, 3),
        (r#"{"type":"Polygon","coordinates":[[[0,0],[4,0],[4,4]],[[1,1],[2,1],[2,2],[1,1]]]}"#, 7),
        (r#"{"type":"Polygon","coordinates":[]}"#, 0),
        (r#"{"type":"MultiPolygon","coordinates":[[[[0,0],[1,0]]],[[[5,5]],[[6,6]]]]}"#, 4),
    ];
    for (geometry, points) in cases {
        let mut s = Sampler::new();
        s.add_text(&format!(r#"{{"type":"Feature","geometry":{geometry},"properties":null}}"#));
        assert_eq!(s.finish().2, points * 16 + 8, "{geometry}");
    }
    let shape = Geometry::MultiPolygon(vec![Polygon {
        exterior: vec![at(0., 0.), at(1., 1.)],
        interiors: vec![vec![at(2., 2.)], vec![]],
    }]);
    assert_eq!(count_points(&shape), 3);
    assert_eq!(count_points(&Geometry::GeometryCollection(vec![shape])), 1);
}

#[test]
fn the_most_common_kind_is_told() {
    let kind = |values: &[&str]| {
        let mut s = Sampler::new();
        for v in values {
            let line =
                format!(r#"{{"type":"Feature","geometry":null,"properties":{{"a":{v}}}}}"#);
            assert!(s.take_line(&line));
        }
        let (lines, _, _, fields) = s.finish();
        assert_eq!((lines, fields.len()), (values.len(), 1));
        assert_eq!(fields[0].present as usize, values.len());
        fields[0].kind
    };
    assert_eq!(kind(&["1", "\"x\"", "\"y\""]), "string");
    assert_eq!(kind(&["true", "1", "2", "false"]), "bool");
    assert_eq!(kind(&["null", "[]", "{}", "{}"]), "object");
}

#[test]
fn estimates_field_costs_and_count() {
    let mut s = Sampler::new();
    for line in [
        r#"{"type":"Feature","properties":{"name":"a","url":"http://example.com/aaaaaaaaaa"},"geometry":{"type":"Point","coordinates":[0,0]}}"#,
        r#"{"type":"Feature","properties":{"name":"b","url":"http://example.com/bbbbbbbbbb"},"geometry":{"type":"Point","coordinates":[1,1]}}"#,
    ] {
        assert!(s.take_line(line), "small input should be read exactly");
    }
    let (lines, _, _, fields) = s.finish();
    assert_eq!(lines, 2);
    let avg_value_bytes = |i: usize| fields[i].value_bytes as f64 / fields[i].present as f64;
    let costs: Vec<u64> = (0..fields.len())
        .map(|i| {
            let per = avg_value_bytes(i) + fields[i].name.len() as f64 + 4.0;
            (per * fields[i].present as f64 / lines as f64 * lines as f64) as u64
        })
        .collect();
    let order = heaviest_first(&costs);
    assert_eq!(fields[order[0]].name, "url");
    assert!(avg_value_bytes(order[0]) > avg_value_bytes(order[1]));
}

#[test]
fn blank_lines_are_not_sampled() {
    let mut s = Sampler::new();
    let line = r#"{"type":"Feature","geometry":null,"properties":{"k":1}}"#;
    assert!(s.take_line("  \r\n"));
    assert!(s.take_line(&format!("\u{1e} {line}\n")));
    let (lines, bytes, _, fields) = s.finish();
    assert_eq!((lines, bytes as usize), (1, line.len() + 1));
    assert_eq!(fields.len(), 1);

    let mut s = Sampler::new();
    for i in 0..SAMPLE_LINES {
        assert_eq!(s.take_line(line), i + 1 < SAMPLE_LINES);
    }
    assert!(!s.take_line(line));
    assert_eq!(s.finish().0, SAMPLE_LINES);
}

#[test]
fn sums_stop_at_the_largest_number() {
    let mut s = Sampler::new();
    let huge = || sampled(vec![("k", PropValue::Null, u64::MAX - 10)], Some(u64::MAX));
    s.add_line(u64::MAX, &Some(huge()));
    s.add_line(u64::MAX, &Some(huge()));
    let (lines, bytes, record_bytes, fields) = s.finish();
    assert_eq!((lines, bytes, record_bytes), (2, u64::MAX, u64::MAX));
    assert_eq!((fields[0].value_bytes, fields[0].present), (u64::MAX, 2));
}

#[test]
fn sample_is_bounded() {
    let mut s = Sampler::new();
    for _ in 0..SAMPLE_LINES {
        assert!(!s.is_full());
        s.add_line(1, &Some(sampled(vec![], None)));
    }
    assert!(s.is_full());
}

#[test]
fn heaviest_fields_come_first() {
    assert_eq!(heaviest_first(&vec![5, 9, 5, 0]), vec![1, 0, 2, 3]);
}

#[test]
fn kept_fields() {
    assert!(keeps_field(&None, "x"));
    assert!(keeps_field(&Some(texts(&["x"])), "x"));
    assert!(!keeps_field(&Some(texts(&["y"])), "x"));
    assert_eq!(drop_fields(&texts(&["a", "b", "c"]), &texts(&["b", "z"])), texts(&["a", "c"]));
}

#[test]
fn picked_fields() {
    let fields = texts(&["a", "b", "c"]);
    match pick_fields(&fields, &Some(vec![2, 0]), true) {
        Choice::Proceed(v) => assert_eq!(v, texts(&["c", "a"])),
        Choice::Abort => panic!("expected a choice"),
    }
    assert!(matches!(pick_fields(&fields, &None, true), Choice::Abort));
    assert!(matches!(pick_fields(&fields, &Some(vec![0]), false), Choice::Abort));
    assert!(matches!(pick_fields(&vec![], &None, true), Choice::Proceed(v) if v.is_empty()));
    assert_eq!(field_label("name", "string", "265 MB"), "name   (string, ~265 MB)");
}

#[test]
fn layers_are_named_after_their_files() {
    let stems = vec![Some("roads".to_string()), None, Some("c".to_string())];
    assert_eq!(fill_layer_names(texts(&["x"]), &stems), texts(&["x", "layer", "c"]));
    assert_eq!(fill_layer_names(texts(&["p", "q", "r", "s"]), &stems), texts(&["p", "q", "r", "s"]));
}
