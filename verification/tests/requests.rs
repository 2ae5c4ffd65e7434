use light_maps::auth::AuthState;
use light_maps::config::ServeConfig;
use light_maps::fixture::build_fixture;
use light_maps::pmtiles::PmtReader;
use light_maps::server::{
    answer_tile, cors_policy, CorsPolicy, Registry, TileAnswer, Tileset, TILE_CACHING, TILE_TYPE,
};
use light_maps::tilejson::{tile_json, StoredMetadata};

fn fixture() -> Vec<u8> {
    build_fixture(&[(0, 0, 0, b"tile".to_vec())])
}

fn registry<'a>(name: &str, bytes: &'a [u8]) -> Registry<'a> {
    let mut sets = Registry::new();
    sets.insert(name.to_string(), Tileset::new(PmtReader::open(bytes).unwrap()));
    sets
}

fn config() -> ServeConfig {
    ServeConfig {
        addr: "127.0.0.1:0".to_string(),
        base_url: Some("http://test".to_string()),
        ..ServeConfig::default()
    }
}

fn ask(sets: &Registry<'_>, cfg: &ServeConfig, name: &str, z: u8, x: u32, y: &str) -> TileAnswer {
    answer_tile(sets.get(name), cfg.max_zoom_request, z, x, y, None).unwrap()
}

#[test]
fn tilesets_lists_loaded_set() {
    let bytes = fixture();
    let sets = registry("world", &bytes);
    assert!(sets.names().iter().any(|n| n == "world"));
}

#[test]
fn tilejson_returns_valid_json() {
    let nothing = StoredMetadata {
        name: None,
        min_zoom: None,
        max_zoom: None,
        bounds: None,
        center: None,
        attribution: None,
        layers: None,
    };
    let t = tile_json(&config().base(), "roads", &nothing);
    assert_eq!(t.tilejson, "3.0.0");
    assert!(t.tiles.contains("roads"));
    for text in [&t.bounds, &t.center, &t.vector_layers] {
        assert!(serde_json::from_str::<serde_json::Value>(text).is_ok());
    }
}

#[test]
fn tilejson_unknown_set_is_404() {
    let bytes = fixture();
    let sets = registry("known", &bytes);
    assert!(sets.get("unknown").is_none());
    assert_eq!(ask(&sets, &config(), "unknown", 0, 0, "0.mvt").status(), 404);
}

#[test]
fn tile_z0_returns_200_with_mvt_content_type() {
    let bytes = fixture();
    let sets = registry("tiles", &bytes);
    assert_eq!(ask(&sets, &config(), "tiles", 0, 0, "0.mvt").status(), 200);
    assert!(TILE_TYPE.contains("mapbox-vector-tile"));
}

#[test]
fn tile_missing_returns_204() {
    let bytes = fixture();
    let sets = registry("sparse", &bytes);
    assert_eq!(ask(&sets, &config(), "sparse", 2, 3, "3.mvt").status(), 204);
}

#[test]
fn tile_has_cache_control_and_etag() {
    let bytes = fixture();
    let sets = registry("cachetest", &bytes);
    match ask(&sets, &config(), "cachetest", 0, 0, "0.mvt") {
        TileAnswer::Tile { etag, .. } => assert_eq!(etag, "\"lm-0-2-1\""),
        _ => panic!("expected the tile"),
    }
    assert!(TILE_CACHING.contains("max-age"));
}

#[test]
fn every_tile_answer_is_cached() {
    let bytes = fixture();
    let sets = registry("c", &bytes);
    let tag = "\"lm-0-2-1\"";
    let given = ask(&sets, &config(), "c", 0, 0, "0.mvt");
    let missing = ask(&sets, &config(), "c", 2, 3, "3.mvt");
    let known = answer_tile(sets.get("c"), 24, 0, 0, "0.mvt", Some(tag.as_bytes())).unwrap();
    for (answer, status) in [(given, 200), (missing, 204), (known, 304)] {
        assert_eq!(answer.status(), status);
        let h = answer.caching().unwrap();
        assert_eq!(h.cache_control, "public, max-age=86400, immutable");
        assert_eq!(h.etag, tag);
        assert_eq!(h.vary, "Accept-Encoding");
    }
    assert!(ask(&sets, &config(), "d", 0, 0, "0.mvt").caching().is_none());
    assert!(ask(&sets, &config(), "c", 0, 0, "x").caching().is_none());
}

#[test]
fn conditional_get_returns_304() {
    let bytes = fixture();
    let sets = registry("etag", &bytes);
    let etag = match ask(&sets, &config(), "etag", 0, 0, "0.mvt") {
        TileAnswer::Tile { etag, .. } => etag,
        _ => panic!("expected the tile"),
    };
    let again = answer_tile(sets.get("etag"), 24, 0, 0, "0.mvt", Some(etag.as_bytes()));
    assert_eq!(again.unwrap().status(), 304);
}

#[test]
fn z_above_max_zoom_request_returns_400() {
    let bytes = fixture();
    let sets = registry("zval", &bytes);
    let cfg = ServeConfig { max_zoom_request: 5, ..config() };
    assert_eq!(ask(&sets, &cfg, "zval", 6, 0, "0.mvt").status(), 400);
}

#[test]
fn x_out_of_range_returns_400() {
    let bytes = fixture();
    let sets = registry("xyval", &bytes);
    assert_eq!(ask(&sets, &config(), "xyval", 1, 2, "0.mvt").status(), 400);
}

#[test]
fn auth_rejects_missing_token() {
    assert!(!AuthState::new(Some("secret")).authorize(None));
}

#[test]
fn auth_accepts_correct_token() {
    assert!(AuthState::new(Some("secret")).authorize(Some("Bearer secret")));
}

#[test]
fn auth_rejects_wrong_token() {
    assert!(!AuthState::new(Some("secret")).authorize(Some("Bearer wrong")));
}

#[test]
fn cors_wildcard_allows_any_origin() {
    let cfg = ServeConfig { cors_origins: vec!["*".to_string()], ..config() };
    assert!(matches!(cors_policy(&cfg.cors_origins), CorsPolicy::AllowAll));
}

#[test]
fn cors_no_origins_sends_no_acao_header() {
    assert!(matches!(cors_policy(&config().cors_origins), CorsPolicy::DenyAll));
}
