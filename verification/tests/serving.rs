use light_maps::auth::{constant_time_eq, AuthState};
use light_maps::config::ServeConfig;
use light_maps::demo::{archive_error, demo_html, demo_layer, demo_source, DemoSource};
use light_maps::fixture::build_fixture;
use light_maps::header::{Compression, Header};
use light_maps::manifest::{FieldInfo, LayerInfo};
use light_maps::pmtiles::PmtReader;
use light_maps::server::{
    answer_tile, content_encoding, cors_policy, parse_row, tiles_url, CorsPolicy, Registry,
    TileAnswer, Tileset,
};
use light_maps::tilejson::{tile_json, vector_layers, StoredMetadata};

fn texts(v: &[&str]) -> Vec<String> {
    v.iter().map(|s| s.to_string()).collect()
}

#[test]
fn constant_time_eq_correct() {
    assert!(constant_time_eq(b"abc", b"abc"));
    assert!(!constant_time_eq(b"abc", b"abd"));
    assert!(!constant_time_eq(b"abc", b"ab"));
    assert!(!constant_time_eq(b"", b"a"));
}

#[test]
fn authorization_is_off_without_a_key() {
    let auth = AuthState::new(None);
    assert!(!auth.enabled());
    assert!(auth.authorize(None));
    assert!(auth.authorize(Some("Bearer anything")));
}

#[test]
fn an_empty_key_has_to_be_carried_too() {
    let auth = AuthState::new(Some(""));
    assert!(auth.enabled());
    assert!(!auth.authorize(None));
    assert!(!auth.authorize(Some("Basic x")));
    assert!(!auth.authorize(Some("Bearer x")));
    assert!(auth.authorize(Some("Bearer ")));
}

#[test]
fn authorization_asks_for_the_key() {
    let auth = AuthState::new(Some("secret"));
    assert!(auth.enabled());
    assert!(auth.authorize(Some("Bearer secret")));
    assert!(!auth.authorize(Some("Bearer wrong")));
    assert!(!auth.authorize(Some("bearer secret")));
    assert!(!auth.authorize(Some("secret")));
    assert!(!auth.authorize(Some("Bearer secret ")));
    assert!(!auth.authorize(None));
}

#[test]
fn default_server_configuration() {
    let (paths, cfg) = ServeConfig::from_args(&texts(&["roads.pmtiles"])).unwrap();
    assert_eq!(paths, texts(&["roads.pmtiles"]));
    assert_eq!(cfg.addr, "0.0.0.0:3000");
    assert_eq!(cfg.base(), "http://0.0.0.0:3000");
    assert_eq!(cfg.request_timeout, 10);
    assert_eq!(cfg.max_in_flight, 512);
    assert_eq!(cfg.max_zoom_request, 24);
    assert!(cfg.api_key.is_none() && cfg.cors_origins.is_empty() && !cfg.metrics_enabled);
}

#[test]
fn server_flags() {
    let args = texts(&[
        "a.pmtiles", "--addr", "127.0.0.1:8080", "--base-url", "https://x", "--api-key", "k",
        "--cors", "http://a", "--cors", "*", "--timeout", "30", "--max-in-flight", "7",
        "--max-zoom", "30", "--metrics", "b.pmtiles",
    ]);
    let (paths, cfg) = ServeConfig::from_args(&args).unwrap();
    assert_eq!(paths, texts(&["a.pmtiles", "b.pmtiles"]));
    assert_eq!(cfg.addr, "127.0.0.1:8080");
    assert_eq!(cfg.base(), "https://x");
    assert_eq!(cfg.api_key, Some("k".to_string()));
    assert_eq!(cfg.cors_origins, texts(&["http://a", "*"]));
    assert_eq!((cfg.request_timeout, cfg.max_in_flight, cfg.max_zoom_request), (30, 7, 30));
    assert!(cfg.metrics_enabled);
}

#[test]
fn server_flag_errors() {
    let error = |args: &[&str]| match ServeConfig::from_args(&texts(args)) {
        Err(e) => e,
        Ok(_) => panic!("expected an error"),
    };
    assert_eq!(error(&["x", "--addr"]), "--addr requires a value");
    assert_eq!(error(&["--timeout", "1.5"]), "--timeout must be a number of seconds");
    assert_eq!(error(&["--max-in-flight", "-1"]), "--max-in-flight must be an integer");
    assert_eq!(error(&["x", "--max-zoom", "31"]), "--max-zoom must be 0-30");
    assert!(error(&["--metrics"]).starts_with("usage: lm-serve <file.pmtiles>"));
    assert!(error(&[]).ends_with("[--max-zoom <0-30>] [--metrics]"));
}

#[test]
fn cross_origin_policy() {
    assert!(matches!(cors_policy(&vec![]), CorsPolicy::DenyAll));
    assert!(matches!(cors_policy(&texts(&["http://a", "*"])), CorsPolicy::AllowAll));
    match cors_policy(&texts(&["http://a"])) {
        CorsPolicy::Origins(v) => assert_eq!(v, texts(&["http://a"])),
        _ => panic!("expected a list"),
    }
}

fn archive() -> Vec<u8> {
    build_fixture(&[(0, 0, 0, b"tile".to_vec()), (1, 1, 1, b"deep".to_vec())])
}

#[test]
fn rows_with_and_without_extension() {
    assert_eq!(parse_row("12.mvt"), Some(12));
    assert_eq!(parse_row("12"), Some(12));
    assert_eq!(parse_row("4294967295"), Some(u32::MAX));
    assert_eq!(parse_row("4294967296"), None);
    assert_eq!(parse_row("12.mvt.mvt"), None);
    assert_eq!(parse_row(".mvt"), None);
    assert_eq!(parse_row("-1"), None);
}

#[test]
fn tile_requests() {
    let bytes = archive();
    let set = Tileset::new(PmtReader::open(&bytes).unwrap());
    assert_eq!(set.etag(), "\"lm-0-2-2\"");
    let ask = |z: u8, x: u32, y: &str| answer_tile(Some(&set), 5, z, x, y, None).unwrap();
    match ask(0, 0, "0.mvt") {
        TileAnswer::Tile { data, encoding, etag } => {
            assert_eq!(data.as_ref(), b"tile");
            assert_eq!(encoding, content_encoding(set.reader().get_tile(0, 0, 0).unwrap().compression));
            assert_eq!(etag, "\"lm-0-2-2\"");
        }
        _ => panic!("expected the tile"),
    }
    assert_eq!(ask(0, 0, "0").status(), 200);
    assert_eq!(ask(2, 3, "3.mvt").status(), 204);
    assert_eq!(ask(6, 0, "0").status(), 400);
    assert_eq!(ask(1, 2, "0").status(), 400);
    assert_eq!(ask(1, 0, "2").status(), 400);
    assert_eq!(ask(1, 0, "x").status(), 400);
}

#[test]
fn unknown_sets_are_not_found() {
    let a = answer_tile(None, 24, 0, 0, "0", None).unwrap();
    assert_eq!(a.status(), 404);
    assert!(!a.is_counted());
}

#[test]
fn conditional_requests() {
    let bytes = archive();
    let set = Tileset::new(PmtReader::open(&bytes).unwrap());
    let tag = set.etag().as_bytes().to_vec();
    let a = answer_tile(Some(&set), 24, 0, 0, "0", Some(&tag)).unwrap();
    assert_eq!(a.status(), 304);
    assert!(a.is_counted());
    let b = answer_tile(Some(&set), 24, 0, 0, "0", Some(b"\"other\"")).unwrap();
    assert_eq!(b.status(), 200);
    // A request that is out of range is refused first.
    let c = answer_tile(Some(&set), 24, 0, 1, "0", Some(&tag)).unwrap();
    assert_eq!(c.status(), 400);
}

#[test]
fn damaged_archives_are_answered_with_a_failure() {
    let mut header = Header::parse(&archive()).unwrap();
    header.internal_compression = Compression::Uncompressed;
    // One entry without a run: it points to a leaf directory of one byte.
    let root = [1u8, 0, 0, 1, 0];
    header.root_dir_len = 5;
    header.leaf_dirs_offset = 132;
    header.leaf_dirs_len = 1;
    let mut bytes = header.encode();
    bytes.extend_from_slice(&root);
    bytes.push(9);
    let set = Tileset::new(PmtReader::open(&bytes).unwrap());
    match answer_tile(Some(&set), 24, 0, 0, "0", None) {
        Some(TileAnswer::Failed(e)) => assert_eq!(e.message(), "corrupt directory entry"),
        _ => panic!("expected a failure"),
    }
    assert_eq!(answer_tile(Some(&set), 24, 0, 0, "0", None).unwrap().status(), 500);
}

#[test]
fn content_encodings() {
    assert_eq!(content_encoding(Compression::Gzip), Some("gzip"));
    assert_eq!(content_encoding(Compression::Brotli), Some("br"));
    assert_eq!(content_encoding(Compression::Uncompressed), None);
    assert_eq!(content_encoding(Compression::Zstd), None);
}

#[test]
fn loaded_archives_keep_their_order() {
    let a = archive();
    let b = build_fixture(&[(0, 0, 0, b"other".to_vec())]);
    let mut sets = Registry::new();
    assert_eq!(sets.first(), "");
    sets.insert("roads".to_string(), Tileset::new(PmtReader::open(&a).unwrap()));
    sets.insert("admin".to_string(), Tileset::new(PmtReader::open(&a).unwrap()));
    sets.insert("roads".to_string(), Tileset::new(PmtReader::open(&b).unwrap()));
    assert_eq!(sets.first(), "roads");
    assert_eq!(sets.names(), &texts(&["roads", "admin"]));
    assert_eq!(sets.get("roads").unwrap().reader().tile_count(), 1);
    assert_eq!(sets.get("admin").unwrap().reader().tile_count(), 2);
    assert!(sets.get("unknown").is_none());
}

#[test]
fn tile_addresses() {
    assert_eq!(tiles_url("http://test", "roads"), "http://test/tiles/roads/{z}/{x}/{y}.mvt");
}

#[test]
fn tilejson_defaults() {
    let nothing = StoredMetadata {
        name: None,
        min_zoom: None,
        max_zoom: None,
        bounds: None,
        center: None,
        attribution: None,
        layers: None,
    };
    let t = tile_json("http://h", "set", &nothing);
    assert_eq!(t.name, "set");
    assert_eq!((t.minzoom, t.maxzoom), (0, 14));
    assert_eq!(t.bounds, "[-180,-85,180,85]");
    assert_eq!(t.center, "[0,0,2]");
    assert_eq!(t.tiles, "http://h/tiles/set/{z}/{x}/{y}.mvt");
    assert_eq!(t.vector_layers, "[]");
    assert!(t.attribution.is_none());
}

#[test]
fn tilejson_says_what_the_metadata_says() {
    let meta = StoredMetadata {
        name: Some("n".to_string()),
        min_zoom: Some(2),
        max_zoom: Some(9),
        bounds: Some("[1,2,3,4]".to_string()),
        center: Some("[5,6,7]".to_string()),
        attribution: Some("me".to_string()),
        layers: Some("[{}]".to_string()),
    };
    let t = tile_json("b", "set", &meta);
    assert_eq!((t.name.as_str(), t.minzoom, t.maxzoom), ("n", 2, 9));
    assert_eq!((t.bounds.as_str(), t.center.as_str()), ("[1,2,3,4]", "[5,6,7]"));
    assert_eq!((t.attribution.as_deref(), t.vector_layers.as_str()), (Some("me"), "[{}]"));
}

#[test]
fn layers_in_tilejson() {
    let layer = LayerInfo {
        name: "roads".to_string(),
        fields: vec![FieldInfo { name: "a".to_string(), field_type: "Number".to_string() }],
        geometry_types: vec![],
    };
    let v = vector_layers(&vec![layer], 1, 8);
    assert_eq!(v.len(), 1);
    assert_eq!((v[0].id.as_str(), v[0].minzoom, v[0].maxzoom), ("roads", 1, 8));
    assert_eq!(v[0].fields, vec![("a".to_string(), "Number".to_string())]);
}

#[test]
fn demo_page() {
    let html = demo_html("capitals", "127.0.0.1:3000");
    assert!(html.starts_with("<!DOCTYPE html>\n"));
    assert!(html.contains("<title>light-maps — capitals</title>"));
    assert!(html.contains("href=\"http://127.0.0.1:3000/tile.json\""));
    assert!(html.contains("const TILE_JSON_URL = 'http://127.0.0.1:3000/tile.json';"));
    assert!(html.contains("font/{fontstack}/{range}.pbf"));
    assert!(html.ends_with("</html>"));
}

#[test]
fn demo_modes() {
    assert_eq!(demo_source(true, true), DemoSource::Archive);
    assert_eq!(demo_source(false, true), DemoSource::Input);
    assert_eq!(demo_source(false, false), DemoSource::Capitals);
    let name = |s: &str| Some(s.to_string());
    assert_eq!(demo_layer(name("x"), DemoSource::Capitals, None), "x");
    assert_eq!(demo_layer(None, DemoSource::Capitals, name("y")), "capitals");
    assert_eq!(demo_layer(None, DemoSource::Archive, name("y")), "y");
    assert_eq!(demo_layer(None, DemoSource::Input, None), "layer");
    assert_eq!(archive_error("pmtiles"), None);
    assert_eq!(
        archive_error("geojson").unwrap(),
        "expected a .pmtiles file, got .geojson. To bake first use --bake instead of --file."
    );
}
