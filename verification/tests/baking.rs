use std::collections::BTreeSet;

use geo::{BooleanOps, MapCoords, Simplify};
use light_maps::clip::{
    clip_step, clip_to_tile, unless_collapsed, Bounds, ClipStep, Cut, Edge, Piece,
};
use light_maps::error::BakeError;
use light_maps::extent::bounding_box;
use light_maps::feature_store::{FeatureMeta, StoreReader};
use light_maps::ingest::{
    ingest_geojson, read_sequence, store_step, IngestedLayer, StoreBuilder, StoreStep,
};
use light_maps::geometry::{Coord, Geometry, Polygon};
use light_maps::number::is_subpixel;
use light_maps::pipeline::{
    archive_info, bake_multi, bake_tile, write_archive, BakeConfig, BakeOutput, TileCompression,
};
use light_maps::pmtiles::{PmtError, PmtReader};
use light_maps::props::PropValue;
use light_maps::spatial::{morton_code, plan_spatial_sort};
use light_maps::tile_encode::EncodableFeature;
use light_maps::tile_writer::StreamingTileWriter;
use light_maps::tiling::{
    bin_features, pad_span, plan_chunks, TileBucket, TileSpan, MAX_FEATURES_PER_TILE,
};
use light_maps::writer::TileEntry;
use light_maps::manifest::Manifest;
use serde_json::Value;

type Shape = geo_types::Geometry<f64>;
type Position = geo_types::Coord<f64>;
type Props = Vec<(String, PropValue)>;

const EXTENT: f64 = 20_037_508.342_789_2;
const RADIUS: f64 = 6_378_137.0;

const TEST_GEOJSON: &str = r#"{
  "type": "FeatureCollection",
  "features": [
    {
      "type": "Feature",
      "geometry": { "type": "Point", "coordinates": [0.0, 0.0] },
      "properties": { "name": "origin", "value": 42 }
    },
    {
      "type": "Feature",
      "geometry": {
        "type": "LineString",
        "coordinates": [[-10.0, -10.0], [10.0, 10.0]]
      },
      "properties": { "name": "diagonal", "kind": "line" }
    },
    {
      "type": "Feature",
      "geometry": {
        "type": "Polygon",
        "coordinates": [[
          [-5.0, -5.0], [5.0, -5.0], [5.0, 5.0], [-5.0, 5.0], [-5.0, -5.0]
        ]]
      },
      "properties": { "name": "box", "area": 100 }
    }
  ]
}"#;

const WORLD_POLYGON: &str = r#"{
  "type": "FeatureCollection",
  "features": [{
    "type": "Feature",
    "geometry": {
      "type": "Polygon",
      "coordinates": [[
        [-180, -85], [180, -85], [180, 85], [-180, 85], [-180, -85]
      ]]
    },
    "properties": { "name": "world" }
  }]
}"#;

const POINTS_GEOJSON: &str = r#"{
  "type": "FeatureCollection",
  "features": [
    {"type":"Feature","geometry":{"type":"Point","coordinates":[0,51.5]},"properties":{"city":"London"}},
    {"type":"Feature","geometry":{"type":"Point","coordinates":[2.35,48.8]},"properties":{"city":"Paris"}},
    {"type":"Feature","geometry":{"type":"Point","coordinates":[13.4,52.5]},"properties":{"city":"Berlin"}}
  ]
}"#;

const SEQ_GEOJSON: &str = r#"{"type":"Feature","geometry":{"type":"Point","coordinates":[0.0,0.0]},"properties":{"name":"origin","value":42}}
{"type":"Feature","geometry":{"type":"LineString","coordinates":[[-10.0,-10.0],[10.0,10.0]]},"properties":{"name":"diagonal"}}
{"type":"Feature","geometry":{"type":"Polygon","coordinates":[[[-5.0,-5.0],[5.0,-5.0],[5.0,5.0],[-5.0,5.0],[-5.0,-5.0]]]},"properties":{"name":"box","area":100}}"#;

fn bits(p: Position) -> Coord {
    Coord { x: p.x.to_bits(), y: p.y.to_bits() }
}

fn at(c: Coord) -> Position {
    Position { x: f64::from_bits(c.x), y: f64::from_bits(c.y) }
}

fn line(v: &[Coord]) -> geo_types::LineString<f64> {
    geo_types::LineString(v.iter().map(|c| at(*c)).collect())
}

fn polygon(p: &Polygon<Coord>) -> geo_types::Polygon<f64> {
    geo_types::Polygon::new(line(&p.exterior), p.interiors.iter().map(|r| line(r)).collect())
}

fn line_bits(l: &geo_types::LineString<f64>) -> Vec<Coord> {
    l.0.iter().map(|p| bits(*p)).collect()
}

fn polygon_bits(p: &geo_types::Polygon<f64>) -> Polygon<Coord> {
    Polygon {
        exterior: line_bits(p.exterior()),
        interiors: p.interiors().iter().map(line_bits).collect(),
    }
}

fn shape(g: &Geometry<Coord>) -> Shape {
    match g {
        Geometry::Point(c) => Shape::Point(geo_types::Point(at(*c))),
        Geometry::LineString(v) => Shape::LineString(line(v)),
        Geometry::MultiLineString(v) => Shape::MultiLineString(geo_types::MultiLineString(
            v.iter().map(|l| line(l)).collect(),
        )),
        Geometry::Polygon(p) => Shape::Polygon(polygon(p)),
        Geometry::MultiPolygon(v) => {
            Shape::MultiPolygon(geo_types::MultiPolygon(v.iter().map(polygon).collect()))
        }
        _ => panic!("not used here"),
    }
}

fn plain(g: &Shape) -> Geometry<Coord> {
    match g {
        Shape::Point(p) => Geometry::Point(bits(p.0)),
        Shape::LineString(l) => Geometry::LineString(line_bits(l)),
        Shape::MultiLineString(v) => {
            Geometry::MultiLineString(v.0.iter().map(line_bits).collect())
        }
        Shape::Polygon(p) => Geometry::Polygon(polygon_bits(p)),
        Shape::MultiPolygon(v) => Geometry::MultiPolygon(v.0.iter().map(polygon_bits).collect()),
        _ => panic!("not used here"),
    }
}

fn project(g: &Shape) -> Shape {
    g.map_coords(|c| Position {
        x: c.x.to_radians() * RADIUS,
        y: RADIUS * (std::f64::consts::FRAC_PI_4 + c.y.to_radians() / 2.0).tan().ln(),
    })
}

fn tile_rect(z: u8, x: u32, y: u32) -> geo_types::Rect<f64> {
    let size = 2.0 * EXTENT / (1u64 << z) as f64;
    let west = -EXTENT + x as f64 * size;
    let north = EXTENT - y as f64 * size;
    geo_types::Rect::new(
        Position { x: west, y: north - size },
        Position { x: west + size, y: north },
    )
}

fn pixel(z: u8) -> f64 {
    2.0 * EXTENT / (1u64 << z) as f64 / 4096.0
}

fn column(v: f64, z: u8) -> u32 {
    let side = 1u32 << z;
    ((v + EXTENT) / (2.0 * EXTENT) * side as f64).clamp(0.0, (side - 1) as f64) as u32
}

fn span(bbox: [u64; 4], z: u8) -> Option<TileSpan> {
    let [west, south, east, north] = bbox.map(f64::from_bits);
    let size = [east - west, north - south, pixel(z)].map(f64::to_bits);
    if is_subpixel(size[0], size[1], size[2]) {
        return None;
    }
    let touched = TileSpan {
        x_min: column(west, z),
        x_max: column(east, z),
        y_min: column(-north, z),
        y_max: column(-south, z),
    };
    Some(pad_span(touched, z))
}

fn pieces(l: &geo_types::LineString<f64>, t: &geo_types::Rect<f64>, b: &Bounds) -> Vec<Piece> {
    let segment = |mut p: Position, mut q: Position| loop {
        let (start, edge) = match clip_step(bits(p), bits(q), b) {
            ClipStep::Keep => return Some((bits(p), bits(q))),
            ClipStep::Discard => return None,
            ClipStep::Cut { start, edge } => (start, edge),
        };
        let across = |x: f64| Position { x, y: p.y + (q.y - p.y) * (x - p.x) / (q.x - p.x) };
        let along = |y: f64| Position { x: p.x + (q.x - p.x) * (y - p.y) / (q.y - p.y), y };
        let met = match edge {
            Edge::Left => across(t.min().x),
            Edge::Right => across(t.max().x),
            Edge::Bottom => along(t.min().y),
            Edge::Top => along(t.max().y),
        };
        if start {
            p = met;
        } else {
            q = met;
        }
    };
    l.0.windows(2).map(|w| Piece { segment: segment(w[0], w[1]), gap: false }).collect()
}

fn clip(g: &Shape, tile: &geo_types::Rect<f64>) -> Option<Shape> {
    let margin = tile.width() * 4.0 / 4096.0;
    let wide = geo_types::Rect::new(
        Position { x: tile.min().x - margin, y: tile.min().y - margin },
        Position { x: tile.max().x + margin, y: tile.max().y + margin },
    );
    let b = Bounds {
        min_x: wide.min().x.to_bits(),
        min_y: wide.min().y.to_bits(),
        max_x: wide.max().x.to_bits(),
        max_y: wide.max().y.to_bits(),
    };
    let area = geo_types::MultiPolygon(vec![wide.to_polygon()]);
    let parts = |m: geo_types::MultiPolygon<f64>| {
        Cut::Polygons(m.intersection(&area).0.iter().map(polygon_bits).collect())
    };
    let cut = match g {
        Shape::LineString(l) => Cut::Line(pieces(l, &wide, &b)),
        Shape::MultiLineString(v) => Cut::Lines(v.0.iter().map(|l| pieces(l, &wide, &b)).collect()),
        Shape::Polygon(p) => parts(geo_types::MultiPolygon(vec![p.clone()])),
        Shape::MultiPolygon(v) => parts(v.clone()),
        _ => Cut::Nothing,
    };
    clip_to_tile(plain(g), &b, cut).map(|g| shape(&g))
}

fn simplify(g: Shape, z: u8) -> Option<Shape> {
    let limit = pixel(z);
    let simple = match g {
        Shape::LineString(l) => Shape::LineString(l.simplify(&limit)),
        Shape::MultiLineString(v) => Shape::MultiLineString(v.simplify(&limit)),
        Shape::Polygon(p) => Shape::Polygon(p.simplify(&limit)),
        Shape::MultiPolygon(v) => Shape::MultiPolygon(v.simplify(&limit)),
        other => other,
    };
    unless_collapsed(plain(&simple)).map(|g| shape(&g))
}

fn to_grid(g: &Shape, tile: &geo_types::Rect<f64>) -> Geometry<(i64, i64)> {
    let grid = |p: &Position| {
        let x = (p.x - tile.min().x) / tile.width() * 4096.0;
        let y = (tile.max().y - p.y) / tile.height() * 4096.0;
        (x.round() as i64, y.round() as i64)
    };
    let path = |l: &geo_types::LineString<f64>| l.0.iter().map(grid).collect::<Vec<_>>();
    let area = |p: &geo_types::Polygon<f64>| Polygon {
        exterior: path(p.exterior()),
        interiors: p.interiors().iter().map(path).collect(),
    };
    match g {
        Shape::Point(p) => Geometry::Point(grid(&p.0)),
        Shape::LineString(l) => Geometry::LineString(path(l)),
        Shape::MultiLineString(v) => Geometry::MultiLineString(v.0.iter().map(path).collect()),
        Shape::Polygon(p) => Geometry::Polygon(area(p)),
        Shape::MultiPolygon(v) => Geometry::MultiPolygon(v.0.iter().map(area).collect()),
        _ => panic!("not used here"),
    }
}

fn bake_bucket<'a>(
    z: u8,
    bucket: &TileBucket,
    features: impl Iterator<Item = (Shape, &'a Props)>,
    cfg: &BakeConfig,
) -> Option<TileEntry> {
    let tile = tile_rect(z, bucket.x, bucket.y);
    let found = features
        .filter_map(|(g, props)| {
            let g = clip(&simplify(clip(&g, &tile)?, z)?, &tile)?;
            Some(EncodableFeature { geom: to_grid(&g, &tile), props: props.clone() })
        })
        .collect();
    bake_tile(z, bucket.x, bucket.y, &cfg.layer_name, &found, cfg.compression)
}

fn layer_tiles(layer: &IngestedLayer, cfg: &BakeConfig) -> Vec<TileEntry> {
    let projected: Vec<(Shape, &Props)> =
        layer.features.iter().map(|(g, p)| (project(&shape(g)), p)).collect();
    let mut entries = Vec::new();
    for z in cfg.min_zoom..=cfg.max_zoom {
        let spans = projected
            .iter()
            .map(|(g, _)| {
                let b = bounding_box(&plain(g))?;
                span([b.min_x, b.min_y, b.max_x, b.max_y], z)
            })
            .collect();
        for bucket in bin_features(z, &spans, usize::MAX) {
            let near = bucket.features.iter().map(|i| {
                let (g, props) = &projected[*i as usize];
                (g.clone(), *props)
            });
            entries.extend(bake_bucket(z, &bucket, near, cfg));
        }
    }
    entries
}

fn config(name: &str, max_zoom: u8, compression: TileCompression) -> BakeConfig {
    BakeConfig {
        layer_name: name.to_string(),
        min_zoom: 0,
        max_zoom,
        compression,
        ..BakeConfig::default()
    }
}

fn metadata_json(m: &Manifest, bounds: [f64; 4]) -> String {
    let layers = m.layers.iter().map(|l| {
        let fields = l.fields.iter().map(|f| {
            let field = [("name", &f.name), ("type", &f.field_type)];
            field.into_iter().map(|(k, v)| (k.to_string(), Value::from(v.clone()))).collect()
        });
        let mut o: serde_json::Map<String, Value> = serde_json::Map::new();
        o.insert("name".to_string(), l.name.clone().into());
        o.insert("fields".to_string(), fields.collect::<Vec<serde_json::Map<String, Value>>>().into());
        o.insert("geometry_types".to_string(), l.geometry_types.clone().into());
        Value::from(o)
    });
    let mut o: serde_json::Map<String, Value> = serde_json::Map::new();
    o.insert("name".to_string(), m.name.clone().into());
    o.insert("min_zoom".to_string(), m.min_zoom.into());
    o.insert("max_zoom".to_string(), m.max_zoom.into());
    o.insert("bounds".to_string(), bounds.to_vec().into());
    o.insert("layers".to_string(), layers.collect::<Vec<Value>>().into());
    o.insert("tile_compression".to_string(), m.tile_compression.clone().into());
    Value::from(o).to_string()
}

fn bake(src: &str, cfg: &BakeConfig) -> Result<BakeOutput, BakeError> {
    let layer = ingest_geojson(&cfg.layer_name, src, &None)?;
    let entries = layer_tiles(&layer, cfg);
    let info = archive_info(cfg, &[0; 4], &[0; 2]);
    let bounds = layer.bounds.map(f64::from_bits);
    let manifest = Manifest::new(cfg, vec![layer.layer_info]);
    Ok(write_archive(entries, &metadata_json(&manifest, bounds), &info))
}

fn bake_test(max_zoom: u8) -> BakeOutput {
    bake(TEST_GEOJSON, &config("test", max_zoom, TileCompression::Gzip)).unwrap()
}

#[test]
fn bake_produces_valid_pmtiles() {
    let out = bake_test(6);
    assert!(out.tile_count > 0, "expected at least one tile");
    let reader = PmtReader::open(&out.pmtiles_bytes).unwrap();
    assert_eq!(reader.min_zoom(), 0);
    assert_eq!(reader.max_zoom(), 6);
    assert!(reader.tile_count() > 0);
}

#[test]
fn metadata_round_trips() {
    let out = bake_test(4);
    let reader = PmtReader::open(&out.pmtiles_bytes).unwrap();
    let text = reader.metadata().expect("metadata should be present");
    let meta: Value = serde_json::from_str(&text).expect("metadata should be valid JSON");
    assert_eq!(meta["name"], "test");
    assert_eq!(meta["min_zoom"], 0);
    assert_eq!(meta["max_zoom"], 4);
    let bounds = meta["bounds"].as_array().unwrap();
    let min_lon = bounds[0].as_f64().unwrap();
    let max_lon = bounds[2].as_f64().unwrap();
    assert!(min_lon < 0.0 && max_lon > 0.0, "bounds should straddle 0");
}

#[test]
fn z0_tile_exists_and_is_nonempty() {
    let out = bake_test(6);
    let reader = PmtReader::open(&out.pmtiles_bytes).unwrap();
    let tile = reader.get_tile(0, 0, 0).unwrap();
    assert!(!tile.data.is_empty(), "z0 tile should be non-empty");
}

#[test]
fn absent_tile_returns_not_found() {
    let out = bake_test(4);
    let reader = PmtReader::open(&out.pmtiles_bytes).unwrap();
    assert!(matches!(reader.get_tile(4, 15, 0), Err(PmtError::TileNotFound { .. })));
}

#[test]
fn tile_size_within_budget() {
    let out = bake_test(4);
    let reader = PmtReader::open(&out.pmtiles_bytes).unwrap();
    let size = reader.get_tile(0, 0, 0).unwrap().data.len();
    assert!(size < 64 * 1024, "z0 tile is {size} bytes — exceeds 64KB budget");
}

#[test]
fn bake_output_tile_count_matches_reader() {
    let out = bake_test(5);
    let reader = PmtReader::open(&out.pmtiles_bytes).unwrap();
    assert_eq!(out.tile_count as u64, reader.tile_count());
}

#[test]
fn brotli_archive_smaller_than_gzip() {
    let gz = bake(WORLD_POLYGON, &config("test", 5, TileCompression::Gzip)).unwrap();
    let br = bake(WORLD_POLYGON, &config("test", 5, TileCompression::Brotli)).unwrap();
    assert!(br.archive_bytes <= gz.archive_bytes);
}

#[test]
fn brotli_archive_is_readable() {
    let out = bake(POINTS_GEOJSON, &config("test", 4, TileCompression::Brotli)).unwrap();
    let reader = PmtReader::open(&out.pmtiles_bytes).unwrap();
    assert!(reader.tile_count() > 0);
    assert_eq!(reader.tile_count(), out.tile_count as u64);
}

#[test]
fn world_polygon_produces_tiles_at_all_zooms() {
    let out = bake(WORLD_POLYGON, &config("world", 4, TileCompression::Gzip)).unwrap();
    let reader = PmtReader::open(&out.pmtiles_bytes).unwrap();
    assert!(reader.get_tile(0, 0, 0).is_ok(), "z0/0/0 must exist");
    assert!(reader.tile_count() >= 5, "expected at least 5 tiles across z0-z4");
}

#[test]
fn tile_size_budget_not_regressed() {
    let out = bake(WORLD_POLYGON, &config("world", 3, TileCompression::Gzip)).unwrap();
    let reader = PmtReader::open(&out.pmtiles_bytes).unwrap();
    let size = reader.get_tile(0, 0, 0).unwrap().data.len();
    assert!(size < 32 * 1024, "z0 tile is {size} bytes — exceeds 32KB regression budget");
}

#[test]
fn dedup_reduces_archive_size_for_repeated_tiles() {
    let out = bake(POINTS_GEOJSON, &config("pts", 6, TileCompression::Gzip)).unwrap();
    assert!(out.archive_bytes < 1024 * 1024);
}

#[test]
fn multi_layer_bake_produces_single_archive() {
    let cfg = config("combined", 3, TileCompression::Gzip);
    let mut layers = Vec::new();
    let mut infos = Vec::new();
    for (name, src) in [("points", POINTS_GEOJSON), ("world", WORLD_POLYGON)] {
        let layer = ingest_geojson(name, src, &None).unwrap();
        layers.push(layer_tiles(&layer, &config(name, 3, TileCompression::Gzip)));
        infos.push(layer.layer_info);
    }
    let info = archive_info(&cfg, &[0; 4], &[0; 2]);
    let manifest = Manifest::new(&cfg, infos);
    assert_eq!(manifest.layers.len(), 2);
    let json = metadata_json(&manifest, [0.0; 4]);
    let out = bake_multi(layers, cfg.compression, &json, &info).unwrap();
    assert!(out.tile_count > 0);
    let reader = PmtReader::open(&out.pmtiles_bytes).unwrap();
    assert!(reader.tile_count() > 0);
    let meta: Value = serde_json::from_str(&reader.metadata().unwrap()).unwrap();
    assert_eq!(meta["layers"].as_array().unwrap().len(), 2);
}

fn code(meta: &FeatureMeta) -> u64 {
    let [west, south, east, north] = meta.bbox.map(f64::from_bits);
    let place = |a: f64, b: f64| {
        let part = (((a + b) * 0.5 + EXTENT) / (2.0 * EXTENT)).clamp(0.0, 1.0);
        (part * 2_097_151.0) as u32
    };
    morton_code(place(west, east), place(south, north))
}

fn stream(src: &str, cfg: &BakeConfig) -> Result<Vec<u8>, BakeError> {
    let mut builder = StoreBuilder::new();
    let mut unsorted: Vec<u8> = Vec::new();
    for item in read_sequence(src) {
        let (geometry, members) = match store_step(item) {
            StoreStep::Fail(e) => return Err(e),
            StoreStep::Skip => continue,
            StoreStep::Store { geometry, members } => (geometry, members),
        };
        let projected = plain(&project(&shape(&geometry)));
        let bbox = bounding_box(&projected).map(|b| [b.min_x, b.min_y, b.max_x, b.max_y]);
        unsorted.extend(builder.add(&geometry, &projected, bbox, members, &None).unwrap());
    }
    let (index, _, layer) = builder.finish(&cfg.layer_name)?;
    assert_eq!(layer.name, cfg.layer_name);

    let codes = index.iter().map(code).collect();
    let (order, moved) = plan_spatial_sort(&index, &codes);
    let old = StoreReader::open(&unsorted);
    let sorted: Vec<u8> = order.iter().flat_map(|i| old.read_raw(&index[*i]).to_vec()).collect();
    let store = StoreReader::open(&sorted);

    let mut writer = StreamingTileWriter::new();
    let mut spilled: Vec<u8> = Vec::new();
    for z in cfg.min_zoom..=cfg.max_zoom {
        let spans = moved.iter().map(|m| span(m.bbox, z)).collect();
        let buckets = bin_features(z, &spans, MAX_FEATURES_PER_TILE);
        for (start, end) in plan_chunks(&buckets) {
            for bucket in &buckets[start..end] {
                let read: Vec<(Geometry<Coord>, Props)> = bucket
                    .features
                    .iter()
                    .map(|i| store.read(&moved[*i as usize]).unwrap())
                    .collect();
                let near = read.iter().map(|(g, props)| (shape(g), props));
                if let Some(e) = bake_bucket(z, bucket, near, cfg) {
                    if writer.needs_storage(&e.data) {
                        spilled.extend_from_slice(&e.data);
                    }
                    writer.push(e.tile_id, &e.data);
                }
            }
        }
    }
    let info = archive_info(cfg, &[0; 4], &[0; 2]);
    let mut out = writer.finish(&format!("{{\"name\":\"{}\"}}", cfg.layer_name), &info);
    out.extend_from_slice(&spilled);
    Ok(out)
}

fn tile_ids(reader: &PmtReader<'_>, max_zoom: u8) -> BTreeSet<(u8, u32, u32)> {
    let mut ids = BTreeSet::new();
    for z in 0..=max_zoom {
        for x in 0..1u32 << z {
            for y in 0..1u32 << z {
                if reader.get_tile(z, x, y).is_ok() {
                    ids.insert((z, x, y));
                }
            }
        }
    }
    ids
}

#[test]
fn streaming_matches_in_memory_tile_set() {
    let cfg = config("test", 6, TileCompression::Gzip);
    let whole = bake(TEST_GEOJSON, &cfg).unwrap().pmtiles_bytes;
    let streamed = stream(SEQ_GEOJSON, &cfg).unwrap();
    let (a, b) = (PmtReader::open(&whole).unwrap(), PmtReader::open(&streamed).unwrap());
    assert_eq!(tile_ids(&a, 6), tile_ids(&b, 6));
    assert_eq!(a.tile_count(), b.tile_count());
}

#[test]
fn streaming_archive_is_valid_and_has_metadata() {
    let bytes = stream(SEQ_GEOJSON, &config("test", 5, TileCompression::Gzip)).unwrap();
    let reader = PmtReader::open(&bytes).unwrap();
    let meta = reader.metadata().unwrap();
    assert!(meta.contains("test"), "layer name should appear in metadata");
    let tile = reader.get_tile(0, 0, 0).unwrap();
    assert!(!tile.data.is_empty(), "z0 tile should be non-empty");
}

#[test]
fn streaming_empty_input_errors() {
    let err = stream("\n\n", &config("test", 2, TileCompression::Gzip));
    assert!(err.is_err(), "empty streaming input should error");
}
