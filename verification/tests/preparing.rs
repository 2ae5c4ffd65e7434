use light_maps::bake_args::{read_command, ArgsError, BakeCommand};
use light_maps::clip::{
    clip_step, clip_to_tile, join_pieces, outcode, unless_collapsed, Bounds, ClipStep, Cut, Edge,
    Piece,
};
use light_maps::fields::{keep_plan, KeepPlan};
use light_maps::geometry::{Coord, Geometry, Polygon};
use light_maps::number::{is_finite, is_subpixel, less, less_or_equal};
use light_maps::pipeline::TileCompression;
use light_maps::prepare::{
    bake_route, conversion_error, crs_in_report, detect_crs_ogrinfo, detect_crs_text,
    input_format, is_text_format, is_wgs84, plan_input, scratch_name, temp_geojsonl_name,
    unsupported_message, BakeRoute, InputFormat, InputPlan, TempFile, LARGE_FILE_BYTES,
};
use light_maps::progress::{progress_line, progress_percent, starting_line};

use geo::BooleanOps;

fn texts(v: &[&str]) -> Vec<String> {
    v.iter().map(|s| s.to_string()).collect()
}

fn at(x: f64, y: f64) -> Coord {
    Coord { x: x.to_bits(), y: y.to_bits() }
}

#[test]
fn wgs84_codes_recognised() {
    assert!(is_wgs84("EPSG:4326"));
    assert!(is_wgs84("OGC:CRS84"));
    assert!(!is_wgs84("EPSG:2927"));
    assert!(!is_wgs84("EPSG:3857"));
}

#[test]
fn wgs84_codes_in_any_case() {
    assert!(is_wgs84("epsg:4326"));
    assert!(is_wgs84("crs84"));
    assert!(!is_wgs84(""));
}

#[test]
fn detects_named_crs_in_text() {
    let text = r#"{ "type":"FeatureCollection",
                "crs": { "type":"name", "properties": { "name":"urn:ogc:def:crs:EPSG::2927" } },
                "features": [] }"#;
    assert_eq!(detect_crs_text(text.as_bytes()).as_deref(), Some("EPSG:2927"));
}

#[test]
fn no_crs_member_returns_none() {
    let text = r#"{ "type":"FeatureCollection", "features": [] }"#;
    assert_eq!(detect_crs_text(text.as_bytes()), None);
}

#[test]
fn crs_in_damaged_text() {
    // A byte that is no text does not hide what follows it.
    assert_eq!(detect_crs_text(b"\xff \"crs\" EPSG:3857").as_deref(), Some("EPSG:3857"));
    assert_eq!(detect_crs_text(b"EPSG:3857 \"crs\""), None);
    assert_eq!(detect_crs_text(b"\"crs\" EPSG:x"), None);
}

#[test]
fn crs_in_reports() {
    assert_eq!(crs_in_report("ID[\"EPSG\",2927]]").as_deref(), Some("EPSG:2927"));
    assert_eq!(crs_in_report("nothing"), None);
    assert_eq!(detect_crs_ogrinfo(true, b"\"EPSG\",4326"), Some("EPSG:4326".to_string()));
    assert_eq!(detect_crs_ogrinfo(false, b"\"EPSG\",4326"), None);
}

#[test]
fn formats_by_extension() {
    assert_eq!(input_format("GeoJSON"), InputFormat::GeoJson);
    assert_eq!(input_format("json"), InputFormat::GeoJson);
    assert_eq!(input_format("NDJSON"), InputFormat::GeoJsonSeq);
    assert_eq!(input_format("csv"), InputFormat::Csv);
    assert_eq!(bake_route(1, InputFormat::GeoJsonSeq), BakeRoute::Streaming);
    assert_eq!(bake_route(1, InputFormat::Csv), BakeRoute::InMemory);
    assert_eq!(bake_route(1, InputFormat::Mbtiles), BakeRoute::Import);
    assert_eq!(bake_route(2, InputFormat::GeoJsonSeq), BakeRoute::Merge);
    assert_eq!(input_format("shp"), InputFormat::Shapefile);
    assert_eq!(input_format("mbtiles"), InputFormat::Mbtiles);
    assert_eq!(input_format(""), InputFormat::Unsupported);
    assert!(is_text_format("geojsons") && !is_text_format("shp"));
    assert_eq!(
        unsupported_message("GDB", false),
        "unsupported format '.gdb' — supported: geojson, geojsonl, csv, shp\nTip: convert first with `ogr2ogr -f GeoJSONSeq out.geojsonl input.gdb`"
    );
    assert!(unsupported_message("gdb", true).contains("-f GeoJSON out.geojson input.gdb`"));
}

#[test]
fn inputs_are_converted_where_needed() {
    let crs = |s: &str| Some(s.to_string());
    let plan = |f: InputFormat, size: u64, c: Option<String>| {
        matches!(plan_input(f, size, c), InputPlan::Direct)
    };
    let big = LARGE_FILE_BYTES;
    assert!(plan(InputFormat::GeoJson, big - 1, None));
    assert!(!plan(InputFormat::GeoJson, big, None));
    assert!(plan(InputFormat::GeoJsonSeq, big, crs("EPSG:4326")));
    assert!(!plan(InputFormat::GeoJsonSeq, 10, crs("EPSG:2927")));
    assert!(!plan(InputFormat::Shapefile, 10, crs("EPSG:2927")));
    assert!(plan(InputFormat::Mbtiles, big, crs("EPSG:3857")));
    match plan_input(InputFormat::Csv, big, crs("EPSG:4326")) {
        InputPlan::Convert { crs, large } => {
            assert_eq!(crs.as_deref(), Some("EPSG:4326"));
            assert!(large);
        }
        InputPlan::Direct => panic!("expected a conversion"),
    }
}

#[test]
fn temporary_names_are_safe() {
    assert_eq!(
        temp_geojsonl_name("a b/ü9", 42, "123"),
        "lm-bake-a_b__9-42-123.geojsonl"
    );
    assert_eq!(scratch_name("x.y", "store", 7, "8"), "lm-bake-store-x_y-7-8.bin");
    assert_eq!(TempFile::new("/tmp/x".to_string()).path(), "/tmp/x");
}

#[test]
fn failed_conversions() {
    assert_eq!(conversion_error(true, Some(0), 1), None);
    assert_eq!(
        conversion_error(false, Some(-1), 0).unwrap(),
        "ogr2ogr conversion failed (exit Some(-1))"
    );
    assert_eq!(
        conversion_error(false, None, 9).unwrap(),
        "ogr2ogr conversion failed (exit None)"
    );
    assert!(conversion_error(true, Some(0), 0).unwrap().contains("an empty file"));
}

fn parse(args: &[&str]) -> Result<BakeCommand, ArgsError> {
    read_command(&texts(args))
}

#[test]
fn bake_command_line() {
    let cmd = parse(&[
        "roads.geojson", "b.geojson", "--layers", "roads, b", "--min-zoom", "2", "--max-zoom", "9",
        "--compression", "brotli", "--attribution", "me", "--tolerance", "1.5", "-o", "x.pmtiles",
        "--exclude-fields", "p, ,q", "--exclude-fields", "r",
    ]);
    let args = match cmd {
        Ok(BakeCommand::Bake(a)) => a,
        _ => panic!("expected a bake"),
    };
    assert_eq!(args.inputs, texts(&["roads.geojson", "b.geojson"]));
    assert_eq!(args.layer_names, texts(&["roads", "b"]));
    assert_eq!((args.min_zoom, args.max_zoom), (2, 9));
    assert_eq!(args.compression, TileCompression::Brotli);
    assert_eq!(args.attribution.as_deref(), Some("me"));
    assert_eq!(args.tolerance.as_deref(), Some("1.5"));
    assert_eq!(args.output, "x.pmtiles");
    assert_eq!(args.dropped_fields, texts(&["p", "q", "r"]));
    assert!(matches!(keep_plan(&args), KeepPlan::Sample));
}

#[test]
fn bake_command_defaults() {
    let args = match parse(&["a.csv"]) {
        Ok(BakeCommand::Bake(a)) => a,
        _ => panic!("expected a bake"),
    };
    assert_eq!((args.min_zoom, args.max_zoom), (0, 14));
    assert_eq!(args.output, "out.pmtiles");
    assert!(!args.interactive && args.kept_fields.is_none() && args.layer_names.is_empty());
    assert!(matches!(keep_plan(&args), KeepPlan::KeepAll));
}

#[test]
fn lists_of_kept_fields_win() {
    let plan = |args: &[&str]| match parse(args) {
        Ok(BakeCommand::Bake(a)) => keep_plan(&a),
        _ => panic!("expected a bake"),
    };
    match plan(&["a.csv", "--interactive", "--include-fields", "x,y"]) {
        KeepPlan::Keep(v) => assert_eq!(v, texts(&["x", "y"])),
        _ => panic!("expected a list"),
    }
    assert!(matches!(plan(&["a.csv", "--interactive"]), KeepPlan::Ask));
}

#[test]
fn other_commands() {
    assert!(matches!(parse(&[]), Ok(BakeCommand::Help)));
    assert!(matches!(parse(&["-h", "x"]), Ok(BakeCommand::Help)));
    assert!(matches!(parse(&["inspect", "a.pmtiles"]), Ok(BakeCommand::Inspect(p)) if p == "a.pmtiles"));
}

#[test]
fn command_line_errors() {
    let error = |args: &[&str]| match parse(args) {
        Err(e) => e.message(),
        Ok(_) => panic!("expected an error"),
    };
    assert_eq!(error(&["inspect"]), "inspect requires a path");
    assert_eq!(error(&["a", "--bogus"]), "unknown flag: --bogus");
    assert_eq!(error(&["a", "--min-zoom", "31"]), "--min-zoom must be 0-30");
    assert_eq!(error(&["a", "--max-zoom", "x"]), "--max-zoom must be 0-30");
    assert_eq!(error(&["a", "--tolerance", "x"]), "--tolerance must be a number");
    assert_eq!(error(&["a", "--compression", "zip"]), "--compression must be gzip or brotli, got zip");
    assert_eq!(error(&["a", "--output"]), "-o requires a value");
    assert_eq!(error(&["a", "--layers"]), "--layer requires a value");
    assert_eq!(error(&["--interactive"]), "no input files provided");
}

#[test]
fn progress_lines() {
    assert_eq!(progress_percent(1, 3), 33);
    assert_eq!(progress_percent(0, 0), 100);
    assert_eq!(progress_percent(3, 2), 150);
    assert_eq!(
        progress_line("roads", 42, 1000, 125, true),
        "  [roads]      42 / 1000 feature-zooms (  4%)  02:05 elapsed  "
    );
    assert_eq!(
        progress_line("roads", 12345678, 12345678, 6000, false),
        "  [roads] 12345678 / 12345678 feature-zooms (100%)  100:00 elapsed"
    );
    assert_eq!(
        starting_line("l", 3, 15, 0, 14),
        "  [l] starting — 3 features × 15 zoom levels (z0-z14)"
    );
}

#[test]
fn numbers_compare_as_floating_point() {
    let values = [
        f64::NEG_INFINITY, -1e300, -2.5, -1.0, -1e-310, -0.0, 0.0, 1e-310, 0.5, 1.0, 1e300,
        f64::INFINITY, f64::NAN,
    ];
    for a in values {
        for b in values {
            assert_eq!(less(a.to_bits(), b.to_bits()), a < b, "{a} {b}");
            assert_eq!(less_or_equal(a.to_bits(), b.to_bits()), a <= b, "{a} {b}");
        }
        assert_eq!(is_finite(a.to_bits()), a.is_finite());
    }
}

#[test]
fn small_features_are_noise() {
    let noise = |w: f64, h: f64| is_subpixel(w.to_bits(), h.to_bits(), 1.0f64.to_bits());
    assert!(noise(0.5, 0.5));
    assert!(noise(0.5, 0.0));
    assert!(!noise(0.0, 0.0));
    assert!(!noise(0.5, 1.0));
}

// The tile from -1 to 1 with its buffer.
fn tile() -> Bounds {
    let edge = 1.0 + 2.0 * 4.0 / 4096.0;
    bounds(-edge, -edge, edge, edge)
}

fn bounds(min_x: f64, min_y: f64, max_x: f64, max_y: f64) -> Bounds {
    Bounds {
        min_x: min_x.to_bits(),
        min_y: min_y.to_bits(),
        max_x: max_x.to_bits(),
        max_y: max_y.to_bits(),
    }
}

fn clip_segment(mut a: (f64, f64), mut b: (f64, f64), t: &Bounds) -> Option<(Coord, Coord)> {
    let (x0, y0) = (f64::from_bits(t.min_x), f64::from_bits(t.min_y));
    let (x1, y1) = (f64::from_bits(t.max_x), f64::from_bits(t.max_y));
    loop {
        match clip_step(at(a.0, a.1), at(b.0, b.1), t) {
            ClipStep::Keep => return Some((at(a.0, a.1), at(b.0, b.1))),
            ClipStep::Discard => return None,
            ClipStep::Cut { start, edge } => {
                let p = match edge {
                    Edge::Top => (a.0 + (b.0 - a.0) * (y1 - a.1) / (b.1 - a.1), y1),
                    Edge::Bottom => (a.0 + (b.0 - a.0) * (y0 - a.1) / (b.1 - a.1), y0),
                    Edge::Right => (x1, a.1 + (b.1 - a.1) * (x1 - a.0) / (b.0 - a.0)),
                    Edge::Left => (x0, a.1 + (b.1 - a.1) * (x0 - a.0) / (b.0 - a.0)),
                };
                if start {
                    a = p;
                } else {
                    b = p;
                }
            }
        }
    }
}

fn cut_line(points: &[(f64, f64)], t: &Bounds) -> Vec<Piece> {
    let mut pieces: Vec<Piece> = Vec::new();
    for w in points.windows(2) {
        let segment = clip_segment(w[0], w[1], t);
        let gap = match (pieces.last().and_then(|p| p.segment), segment) {
            (Some((_, end)), Some((start, _))) => end != start,
            _ => false,
        };
        pieces.push(Piece { segment, gap });
    }
    pieces
}

fn line_of(points: &[(f64, f64)]) -> Geometry<Coord> {
    Geometry::LineString(points.iter().map(|p| at(p.0, p.1)).collect())
}

fn clip_line(points: &[(f64, f64)], t: &Bounds) -> Option<Geometry<Coord>> {
    clip_to_tile(line_of(points), t, Cut::Line(cut_line(points, t)))
}

#[test]
fn point_inside_kept() {
    assert!(clip_to_tile(Geometry::Point(at(0.0, 0.0)), &tile(), Cut::Nothing).is_some());
}

#[test]
fn point_outside_dropped() {
    assert!(clip_to_tile(Geometry::Point(at(5.0, 5.0)), &tile(), Cut::Nothing).is_none());
}

#[test]
fn linestring_clipped() {
    assert!(clip_line(&[(-5.0, 0.0), (5.0, 0.0)], &tile()).is_some());
}

#[test]
fn clipped_parts_stay_in_the_tile() {
    let t = tile();
    match clip_line(&[(-5.0, 0.0), (5.0, 0.0)], &t) {
        Some(Geometry::LineString(v)) => assert!(v.iter().all(|c| t.contains(*c))),
        _ => panic!("expected a line"),
    }
    let given = vec![at(0.0, 0.0), at(5.0, 5.0), at(1.0, -1.0)];
    let once = match clip_to_tile(Geometry::MultiPoint(given), &t, Cut::Nothing) {
        Some(Geometry::MultiPoint(v)) => v,
        _ => panic!("expected points"),
    };
    assert_eq!(once, vec![at(0.0, 0.0), at(1.0, -1.0)]);
    match clip_to_tile(Geometry::MultiPoint(once.clone()), &t, Cut::Nothing) {
        Some(Geometry::MultiPoint(v)) => assert_eq!(v, once),
        _ => panic!("expected the same points"),
    }
}

fn square(min: f64, max: f64) -> geo_types::Polygon<f64> {
    let ring = vec![(min, min), (max, min), (max, max), (min, max), (min, min)];
    geo_types::Polygon::new(geo_types::LineString::from(ring), vec![])
}

fn plain(p: &geo_types::Polygon<f64>) -> Polygon<Coord> {
    let line = |l: &geo_types::LineString<f64>| l.0.iter().map(|c| at(c.x, c.y)).collect();
    Polygon { exterior: line(p.exterior()), interiors: p.interiors().iter().map(line).collect() }
}

fn clip_square(min: f64, max: f64) -> Option<Geometry<Coord>> {
    let p = square(min, max);
    let t = tile();
    let edge = f64::from_bits(t.max_x);
    let cut = p.intersection(&square(-edge, edge));
    let parts = cut.0.iter().map(plain).collect();
    clip_to_tile(Geometry::Polygon(plain(&p)), &t, Cut::Polygons(parts))
}

#[test]
fn polygon_crossing_clipped() {
    assert!(clip_square(-2.0, 2.0).is_some());
}

#[test]
fn polygon_outside_dropped() {
    assert!(clip_square(10.0, 20.0).is_none());
}

#[test]
fn clipping_does_not_produce_tile_outside_bounds() {
    assert!(clip_square(100.0, 200.0).is_none());
}

#[test]
fn clipping_cross_tile_linestring() {
    let result = clip_line(&[(-100.0, 0.0), (100.0, 0.0)], &tile());
    assert!(result.is_some(), "horizontal line should intersect tile");
}

#[test]
fn lines_that_leave_and_return_are_split() {
    let t = bounds(0.0, 0.0, 10.0, 10.0);
    let line = [(1.0, 1.0), (5.0, 1.0), (5.0, 20.0), (8.0, 20.0), (8.0, 5.0)];
    match clip_line(&line, &t).unwrap() {
        Geometry::MultiLineString(v) => {
            assert_eq!(v, vec![
                vec![at(1.0, 1.0), at(5.0, 1.0), at(5.0, 10.0)],
                vec![at(8.0, 10.0), at(8.0, 5.0)],
            ]);
        }
        _ => panic!("expected two lines"),
    }
    assert!(clip_line(&[(20.0, 20.0), (30.0, 20.0)], &t).is_none());
    assert!(clip_line(&[(1.0, 1.0)], &t).is_none());
}

#[test]
fn gaps_split_lines() {
    let piece = |x: f64, gap: bool| Piece { segment: Some((at(x, 0.), at(x + 1., 0.))), gap };
    let nothing = Piece { segment: None, gap: false };
    assert_eq!(join_pieces(&vec![piece(0., false), piece(2., true)]).len(), 2);
    assert_eq!(join_pieces(&vec![piece(0., false), piece(2., false)]).len(), 1);
    assert_eq!(join_pieces(&vec![piece(0., false), nothing, piece(2., false)]).len(), 2);
    assert!(join_pieces(&vec![nothing]).is_empty());
}

#[test]
fn regions_around_a_tile() {
    let t = bounds(0.0, 0.0, 1.0, 1.0);
    assert_eq!(outcode(at(0.5, 0.5), &t), 0);
    assert_eq!(outcode(at(-1.0, 0.5), &t), 1);
    assert_eq!(outcode(at(2.0, -1.0), &t), 6);
    assert_eq!(outcode(at(0.0, 2.0), &t), 8);
    assert_eq!(clip_step(at(-1.0, 2.0), at(0.5, 0.5), &t), ClipStep::Cut { start: true, edge: Edge::Top });
    assert_eq!(clip_step(at(0.5, 0.5), at(2.0, 0.5), &t), ClipStep::Cut { start: false, edge: Edge::Right });
    assert_eq!(clip_step(at(-1.0, 0.0), at(-2.0, 1.0), &t), ClipStep::Discard);
}

fn clip_points(points: Vec<Coord>) -> Option<Geometry<Coord>> {
    clip_to_tile(Geometry::MultiPoint(points), &bounds(0.0, 0.0, 1.0, 1.0), Cut::Nothing)
}

#[test]
fn points_are_filtered() {
    match clip_points(vec![at(0., 0.), at(2., 0.), at(1., 1.)]) {
        Some(Geometry::MultiPoint(v)) => assert_eq!(v, vec![at(0., 0.), at(1., 1.)]),
        _ => panic!("expected points"),
    }
    assert!(clip_points(vec![at(2., 0.)]).is_none());
    assert!(clip_points(vec![at(-1., 0.), at(2., 0.)]).is_none());
    assert!(clip_points(vec![]).is_none());
}

#[test]
fn clipped_parts() {
    let t = bounds(0.0, 0.0, 9.0, 9.0);
    let p = || Polygon { exterior: vec![at(1., 1.)], interiors: vec![] };
    let polygon = |n: usize| {
        clip_to_tile(Geometry::Polygon(p()), &t, Cut::Polygons((0..n).map(|_| p()).collect()))
    };
    assert!(polygon(0).is_none());
    assert!(matches!(polygon(1), Some(Geometry::Polygon(_))));
    assert!(matches!(polygon(2), Some(Geometry::MultiPolygon(v)) if v.len() == 2));
    let several = clip_to_tile(
        Geometry::MultiPolygon(vec![p()]), &t, Cut::Polygons(vec![p()]));
    assert!(matches!(several, Some(Geometry::MultiPolygon(_))));
    let inside = || vec![Piece { segment: Some((at(1., 1.), at(2., 2.))), gap: false }];
    let line = clip_to_tile(Geometry::Line(at(1., 1.), at(2., 2.)), &t, Cut::Line(inside()));
    assert!(matches!(line, Some(Geometry::MultiLineString(_))));
    let lines = clip_to_tile(
        Geometry::MultiLineString(vec![vec![at(1., 1.)]]), &t, Cut::Lines(vec![inside(), inside()]));
    assert!(matches!(lines, Some(Geometry::MultiLineString(v)) if v.len() == 2));
}

#[test]
fn collections_keep_what_is_left_of_their_members() {
    let t = bounds(0.0, 0.0, 1.0, 1.0);
    let members = vec![
        Geometry::Point(at(5., 5.)),
        line_of(&[(-1.0, 0.5), (2.0, 0.5)]),
        Geometry::Point(at(1., 1.)),
    ];
    let cuts = vec![
        Cut::Nothing,
        Cut::Line(cut_line(&[(-1.0, 0.5), (2.0, 0.5)], &t)),
        Cut::Nothing,
    ];
    match clip_to_tile(Geometry::GeometryCollection(members), &t, Cut::Members(cuts)) {
        Some(Geometry::GeometryCollection(v)) => {
            assert_eq!(v.len(), 2);
            assert!(matches!(&v[0], Geometry::LineString(l) if *l == vec![at(0., 0.5), at(1., 0.5)]));
            assert!(matches!(&v[1], Geometry::Point(_)));
        }
        _ => panic!("expected a collection"),
    }
    let outside = Geometry::GeometryCollection(vec![Geometry::Point(at(5., 5.))]);
    assert!(clip_to_tile(outside, &t, Cut::Members(vec![Cut::Nothing])).is_none());
}

#[test]
fn collapsed_geometries_are_dropped() {
    let ring = |n: usize| Polygon { exterior: vec![at(0., 0.); n], interiors: vec![] };
    assert!(unless_collapsed(Geometry::LineString(vec![at(0., 0.)])).is_none());
    assert!(unless_collapsed(Geometry::LineString(vec![at(0., 0.); 2])).is_some());
    assert!(unless_collapsed(Geometry::Polygon(ring(3))).is_none());
    assert!(unless_collapsed(Geometry::Polygon(ring(4))).is_some());
    assert!(unless_collapsed(Geometry::MultiPolygon(vec![])).is_none());
    assert!(unless_collapsed(Geometry::MultiLineString(vec![])).is_none());
    assert!(unless_collapsed(Geometry::Point(at(0., 0.))).is_some());
}
