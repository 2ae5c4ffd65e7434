use light_maps::feature_text::{read_document, read_feature};
use light_maps::geometry::{Coord, Geometry, Polygon};
use light_maps::ingest::{read_sequence, RawItem};
use light_maps::json_text::{parse_signed, read_value, write_object};
use light_maps::props::PropValue;
use light_maps::wkb::read_geometry;

fn at(x: f64, y: f64) -> Coord {
    Coord { x: x.to_bits(), y: y.to_bits() }
}

fn feature(geometry: &str) -> String {
    format!(r#"{{"type":"Feature","geometry":{geometry},"properties":{{}}}}"#)
}

fn shape(geometry: &str) -> Geometry<Coord> {
    match read_feature(&feature(geometry)) {
        RawItem::Feature { geometry: Some(g), .. } => g,
        _ => panic!("expected a geometry: {geometry}"),
    }
}

#[test]
fn points_and_lines_are_read() {
    match shape(r#"{"type":"Point","coordinates":[0.1,-2.5,7]}"#) {
        Geometry::Point(c) => assert_eq!(c, at(0.1, -2.5)),
        _ => panic!("expected a point"),
    }
    match shape(r#"{"type":"MultiPoint","coordinates":[[0,1],[2,3]]}"#) {
        Geometry::MultiPoint(v) => assert_eq!(v, vec![at(0., 1.), at(2., 3.)]),
        _ => panic!("expected points"),
    }
    match shape(r#"{"type":"LineString","coordinates":[[0,1],[2,3]]}"#) {
        Geometry::LineString(v) => assert_eq!(v, vec![at(0., 1.), at(2., 3.)]),
        _ => panic!("expected a line"),
    }
    match shape(r#"{"type":"MultiLineString","coordinates":[[],[[2,3]]]}"#) {
        Geometry::MultiLineString(v) => assert_eq!(v, vec![vec![], vec![at(2., 3.)]]),
        _ => panic!("expected lines"),
    }
}

fn check_square(p: &Polygon<Coord>) {
    let ring = vec![at(0., 0.), at(4., 0.), at(4., 4.), at(0., 0.)];
    let hole = vec![at(1., 1.), at(2., 1.), at(2., 2.), at(1., 1.)];
    assert_eq!(p.exterior, ring);
    assert_eq!(p.interiors, vec![hole]);
}

#[test]
fn open_rings_are_closed() {
    let rings = "[[[0,0],[4,0],[4,4]],[[1,1],[2,1],[2,2],[1,1]]]";
    match shape(&format!(r#"{{"type":"Polygon","coordinates":{rings}}}"#)) {
        Geometry::Polygon(p) => check_square(&p),
        _ => panic!("expected a polygon"),
    }
    match shape(&format!(r#"{{"type":"MultiPolygon","coordinates":[{rings},{rings}]}}"#)) {
        Geometry::MultiPolygon(v) => {
            assert_eq!(v.len(), 2);
            check_square(&v[1]);
        }
        _ => panic!("expected polygons"),
    }
}

#[test]
fn collections_are_read_with_their_members() {
    let point = r#"{"type":"Point","coordinates":[1,2]}"#;
    let inner = format!(r#"{{"type":"GeometryCollection","geometries":[{point}]}}"#);
    let outer = format!(r#"{{"type":"GeometryCollection","geometries":[{inner},{point}]}}"#);
    match shape(&outer) {
        Geometry::GeometryCollection(v) => {
            assert_eq!(v.len(), 2);
            assert!(matches!(&v[0], Geometry::GeometryCollection(w) if w.len() == 1));
            assert!(matches!(v[1], Geometry::Point(c) if c == at(1., 2.)));
        }
        _ => panic!("expected a collection"),
    }
}

#[test]
fn features_keep_their_properties() {
    let text = r#"{"type":"Feature","geometry":null,"properties":{"n":7}}"#;
    match read_feature(text) {
        RawItem::Feature { geometry, members } => {
            assert!(geometry.is_none());
            assert_eq!(members, vec![("n".to_string(), "7".to_string())]);
        }
        _ => panic!("expected a feature"),
    }
    match read_feature(r#"{"type":"Feature","geometry":null,"properties":null}"#) {
        RawItem::Feature { members, .. } => assert!(members.is_empty()),
        _ => panic!("expected a feature"),
    }
    assert!(matches!(read_feature("[]"), RawItem::Unreadable(_)));
}

#[test]
fn property_values() {
    assert!(matches!(read_value("null"), PropValue::Null));
    assert!(matches!(read_value("true"), PropValue::Bool(true)));
    assert!(matches!(read_value("false"), PropValue::Bool(false)));
    assert!(matches!(read_value("-3"), PropValue::Int(-3)));
    assert!(matches!(read_value("-9223372036854775808"), PropValue::Int(i64::MIN)));
    assert!(matches!(read_value("9223372036854775807"), PropValue::Int(i64::MAX)));
    let float = |json: &str| match read_value(json) {
        PropValue::Float(b) => f64::from_bits(b),
        _ => panic!("expected a floating-point number"),
    };
    assert_eq!(float("1.5"), 1.5);
    assert_eq!(float("1e300"), 1e300);
    assert_eq!(float("18446744073709551615"), 18446744073709551615.0);
    assert!(matches!(read_value(r#""a\"\u00e9""#), PropValue::Text(s) if s == "a\"é"));
    assert!(matches!(read_value("[1]"), PropValue::Array(s) if s == "[1]"));
    assert!(matches!(read_value(r#"{"x":2}"#), PropValue::Object(s) if s == r#"{"x":2}"#));
}

#[test]
fn floating_point_properties_are_exact() {
    for v in [0.1, 1.0, 123456.789e-12, 5e-324, 1.7976931348623157e308, 3.0000000000000004] {
        let text = format!(
            r#"{{"type":"Feature","geometry":null,"properties":{{"v":{}}}}}"#,
            serde_json::Value::from(v)
        );
        let members = match read_feature(&text) {
            RawItem::Feature { members, .. } => members,
            _ => panic!("expected a feature"),
        };
        let parsed: f64 = serde_json::from_str::<f64>(&members[0].1).unwrap();
        match read_value(&members[0].1) {
            PropValue::Float(b) => assert_eq!(f64::from_bits(b), parsed),
            _ => panic!("expected a floating-point number"),
        }
    }
}

#[test]
fn signed_numbers() {
    assert_eq!(parse_signed("-0"), Some(0));
    assert_eq!(parse_signed("9223372036854775808"), None);
    assert_eq!(parse_signed("-9223372036854775809"), None);
    assert_eq!(parse_signed("-"), None);
    assert_eq!(parse_signed("1.0"), None);
}

#[test]
fn objects_are_written() {
    let pair = |k: &str, v: &str| (k.to_string(), v.to_string());
    assert_eq!(write_object(&vec![]), "{}");
    assert_eq!(
        write_object(&vec![pair("a\n", "1"), pair("ü", "\"x\"")]),
        "{\"a\\n\":1,\"ü\":\"x\"}"
    );
}

#[test]
fn documents_and_sequences() {
    let f = feature(r#"{"type":"Point","coordinates":[1,2]}"#);
    let all = format!(r#"{{"type":"FeatureCollection","features":[{f},{f}]}}"#);
    assert_eq!(read_document(&all).unwrap().len(), 2);
    assert!(read_document("nothing").is_err());
    let items = read_sequence(&format!("\n{f}\r\n\x1e{f}\n  \nbroken"));
    assert_eq!(items.len(), 3);
    assert!(matches!(items[1], RawItem::Feature { .. }));
    assert!(matches!(items[2], RawItem::Unreadable(_)));
    assert!(read_sequence("").is_empty());
}

#[test]
fn broken_binary_geometries_are_refused() {
    let mut point = vec![1, 1, 0, 0, 0];
    point.extend_from_slice(&1.0f64.to_le_bytes());
    point.extend_from_slice(&2.0f64.to_le_bytes());
    match read_geometry(&point, 0) {
        Some((Geometry::Point(c), end)) => assert_eq!((c, end), (at(1., 2.), 21)),
        _ => panic!("expected a point"),
    }
    assert!(read_geometry(&point[..20], 0).is_none());
    assert!(read_geometry(&point, 1).is_none());
    point[1] = 99;
    assert!(read_geometry(&point, 0).is_none());
    let endless = vec![1, 2, 0, 0, 0, 0xff, 0xff, 0xff, 0xff];
    assert!(read_geometry(&endless, 0).is_none());
}

#[test]
fn lone_parts_come_to_the_layer_of_their_collection() {
    let geometry = r#"{"type":"Point","coordinates":[1,2]}"#;
    let feature = format!(r#"{{"type":"Feature","geometry":{geometry},"properties":null}}"#);
    let all = format!(r#"{{"type":"FeatureCollection","features":[{feature}]}}"#);
    let is_point = |item: &RawItem| match item {
        RawItem::Feature { geometry: Some(Geometry::Point(c)), members } => {
            *c == at(1., 2.) && members.is_empty()
        }
        _ => false,
    };
    for text in [geometry, &feature, &all] {
        let items = read_document(text).unwrap();
        assert_eq!(items.len(), 1);
        assert!(is_point(&items[0]));
    }
    let sequence = read_sequence(&format!("{feature}\n{feature}"));
    let pair = format!(r#"{{"type":"FeatureCollection","features":[{feature},{feature}]}}"#);
    let collection = read_document(&pair).unwrap();
    assert_eq!((sequence.len(), collection.len()), (2, 2));
    assert!(sequence.iter().chain(&collection).all(is_point));
}
