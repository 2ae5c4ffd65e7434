//! Point layers from comma-separated values.
//!
//! One column holds the latitude, one the longitude; the others become
//! properties.

use vstd::prelude::*;

use crate::error::{BakeError, BakeErrorView};
use crate::extent::{degrees_of, nothing_held, stretched, stretched_over, Extent};
use crate::fields::{is_kept, keeps_field};
use crate::geometry::{Coord, Geometry};
use crate::ingest::{empty_layer, feature_views, prop_pairs, IngestedLayer, LayerState};
use crate::json_text::{number_parsed, parse_number};
use crate::manifest::{
    field_names, field_views, noted_all, noting_goes_on, schema_sums_up, was_seen, SchemaBuilder,
    SchemaView,
};
use crate::number::{is_finite, is_finite_pattern};
use crate::props::{PropValue, PropView};
use crate::text::{
    comes_before, lemma_text_less_strict, lemma_text_less_total, lemma_text_less_transitive,
    lowercase_of, same_text, text_less, text_views, to_lowercase,
};
use crate::tile_encode::{interned, lemma_place_found, lemma_place_push};

verus! {

/// The cells of a line, or the text of the error in it.
pub open spec fn line_view(r: Result<Vec<String>, String>) -> Result<Seq<Seq<char>>, Seq<char>> {
    match r {
        Ok(v) => Ok(text_views(v@)),
        Err(e) => Err(e@),
    }
}

pub open spec fn line_views(v: Seq<Result<Vec<String>, String>>) -> Seq<
    Result<Seq<Seq<char>>, Seq<char>>,
> {
    Seq::new(v.len(), |i: int| line_view(v[i]))
}

/// The cells of the first line of a table.
pub uninterp spec fn csv_header(src: Seq<char>) -> Result<Seq<Seq<char>>, Seq<char>>;

/// The cells of the lines behind the first.
pub uninterp spec fn csv_lines(src: Seq<char>) -> Seq<Result<Seq<Seq<char>>, Seq<char>>>;

/// Calls `csv::Reader::headers` on a reader that trims all cells.
///
/// Claimed: the cells, or the text of the error, depend on the text alone.
#[verifier::external_body]
fn read_header(src: &str) -> (r: Result<Vec<String>, String>)
    ensures
        line_view(r) == csv_header(src@),
{
    let mut rdr = csv::ReaderBuilder::new().trim(csv::Trim::All).from_reader(src.as_bytes());
    match rdr.headers() {
        Ok(h) => Ok(h.iter().map(|s| s.to_owned()).collect()),
        Err(e) => Err(e.to_string()),
    }
}

/// Calls `csv::Reader::records` on a reader that trims all cells.
///
/// Claimed: the lines, each with its cells or the text of its error, depend on
/// the text alone.
#[verifier::external_body]
fn read_lines(src: &str) -> (r: Vec<Result<Vec<String>, String>>)
    ensures
        line_views(r@) == csv_lines(src@),
{
    let mut rdr = csv::ReaderBuilder::new().trim(csv::Trim::All).from_reader(src.as_bytes());
    rdr.records()
        .map(|line| match line {
            Ok(h) => Ok(h.iter().map(|s| s.to_owned()).collect()),
            Err(e) => Err(e.to_string()),
        })
        .collect()
}

pub open spec fn is_lat_name(s: Seq<char>) -> bool {
    s == "lat"@ || s == "latitude"@
}

pub open spec fn is_lon_name(s: Seq<char>) -> bool {
    s == "lon"@ || s == "lng"@ || s == "longitude"@
}

/// `c` is the first column whose name satisfies the condition.
pub open spec fn is_first(headers: Seq<Seq<char>>, f: spec_fn(Seq<char>) -> bool, c: int) -> bool {
    0 <= c < headers.len() && f(headers[c]) && forall|k: int|
        0 <= k < c ==> !f(#[trigger] headers[k])
}

pub open spec fn no_column(headers: Seq<Seq<char>>, f: spec_fn(Seq<char>) -> bool) -> bool {
    forall|k: int| 0 <= k < headers.len() ==> !f(#[trigger] headers[k])
}

/// Which columns hold the latitude and the longitude: the first ones with a
/// fitting name. A missing latitude is reported first.
pub fn coordinate_columns(headers: &Vec<String>) -> (r: Result<(usize, usize), BakeError>)
    ensures
        match r {
            Ok((lat, lon)) => is_first(
                text_views(headers@),
                |s: Seq<char>| is_lat_name(s),
                lat as int,
            ) && is_first(text_views(headers@), |s: Seq<char>| is_lon_name(s), lon as int),
            Err(e) => if no_column(text_views(headers@), |s: Seq<char>| is_lat_name(s)) {
                e@ == BakeErrorView::GeoJson("CSV must have 'lat' or 'latitude' column"@)
            } else {
                no_column(text_views(headers@), |s: Seq<char>| is_lon_name(s)) && e@
                    == BakeErrorView::GeoJson("CSV must have 'lon'/'lng' or 'longitude' column"@)
            },
        },
{
    let ghost names = text_views(headers@);
    let mut lat: usize = 0;
    while lat < headers.len() && !(same_text(headers[lat].as_str(), "lat") || same_text(
        headers[lat].as_str(),
        "latitude",
    ))
        invariant
            lat <= headers.len(),
            names == text_views(headers@),
            forall|k: int| 0 <= k < lat ==> !is_lat_name(#[trigger] names[k]),
        decreases headers.len() - lat,
    {
        assert(names[lat as int] == headers@[lat as int]@);
        lat = lat + 1;
    }
    if lat == headers.len() {
        return Err(BakeError::GeoJson("CSV must have 'lat' or 'latitude' column".to_owned()));
    }
    assert(names[lat as int] == headers@[lat as int]@);
    let mut lon: usize = 0;
    while lon < headers.len() && !(same_text(headers[lon].as_str(), "lon") || same_text(
        headers[lon].as_str(),
        "lng",
    ) || same_text(headers[lon].as_str(), "longitude"))
        invariant
            lon <= headers.len(),
            names == text_views(headers@),
            forall|k: int| 0 <= k < lon ==> !is_lon_name(#[trigger] names[k]),
        decreases headers.len() - lon,
    {
        assert(names[lon as int] == headers@[lon as int]@);
        lon = lon + 1;
    }
    if lon == headers.len() {
        return Err(
            BakeError::GeoJson("CSV must have 'lon'/'lng' or 'longitude' column".to_owned()),
        );
    }
    assert(names[lon as int] == headers@[lon as int]@);
    Ok((lat, lon))
}

/// A table of points: the column names in lower case, the columns of the
/// coordinates, and the lines.
pub struct CsvTable {
    pub headers: Vec<String>,
    pub lat_col: usize,
    pub lon_col: usize,
    pub lines: Vec<Result<Vec<String>, String>>,
}

/// The names in lower case.
pub open spec fn lowered(names: Seq<Seq<char>>) -> Seq<Seq<char>> {
    Seq::new(names.len(), |i: int| lowercase_of(names[i]))
}

fn lower_all(names: &Vec<String>) -> (r: Vec<String>)
    ensures
        text_views(r@) == lowered(text_views(names@)),
{
    let ghost wanted = lowered(text_views(names@));
    let mut r: Vec<String> = Vec::new();
    let mut i: usize = 0;
    while i < names.len()
        invariant
            i <= names.len(),
            wanted == lowered(text_views(names@)),
            text_views(r@) == wanted.take(i as int),
        decreases names.len() - i,
    {
        let ghost before = text_views(r@);
        r.push(to_lowercase(names[i].as_str()));
        i = i + 1;
        assert(text_views(r@) =~= before.push(wanted[i - 1]));
        assert(text_views(r@) =~= wanted.take(i as int));
    }
    assert(wanted.take(i as int) =~= wanted);
    r
}

/// Read a table and find its coordinate columns.
pub fn read_csv(src: &str) -> (r: Result<CsvTable, BakeError>)
    ensures
        match csv_header(src@) {
            Err(t) => r matches Err(e) && e@ == BakeErrorView::GeoJson(t),
            Ok(h) => match r {
                Ok(t) => text_views(t.headers@) == lowered(h) && line_views(t.lines@) == csv_lines(
                    src@,
                ) && is_first(lowered(h), |s: Seq<char>| is_lat_name(s), t.lat_col as int)
                    && is_first(lowered(h), |s: Seq<char>| is_lon_name(s), t.lon_col as int),
                Err(e) => if no_column(lowered(h), |s: Seq<char>| is_lat_name(s)) {
                    e@ == BakeErrorView::GeoJson("CSV must have 'lat' or 'latitude' column"@)
                } else {
                    no_column(lowered(h), |s: Seq<char>| is_lon_name(s)) && e@
                        == BakeErrorView::GeoJson(
                        "CSV must have 'lon'/'lng' or 'longitude' column"@,
                    )
                },
            },
        },
{
    match read_header(src) {
        Err(t) => Err(BakeError::GeoJson(t)),
        Ok(names) => {
            let headers = lower_all(&names);
            match coordinate_columns(&headers) {
                Err(e) => Err(e),
                Ok((lat_col, lon_col)) => {
                    Ok(CsvTable { headers, lat_col, lon_col, lines: read_lines(src) })
                },
            }
        },
    }
}

/// The numbers that the cells read as.
pub open spec fn numbers_of(cells: Seq<Seq<char>>) -> Seq<Option<u64>> {
    Seq::new(cells.len(), |i: int| number_parsed(cells[i]))
}

fn parse_cells(cells: &Vec<String>) -> (r: Vec<Option<u64>>)
    ensures
        r@ == numbers_of(text_views(cells@)),
{
    let mut r: Vec<Option<u64>> = Vec::new();
    let mut i: usize = 0;
    while i < cells.len()
        invariant
            i <= cells.len(),
            r.len() == i,
            forall|k: int| 0 <= k < i ==> #[trigger] r@[k] == number_parsed(cells@[k]@),
        decreases cells.len() - i,
    {
        r.push(parse_number(cells[i].as_str()));
        i = i + 1;
    }
    assert(r@ =~= numbers_of(text_views(cells@)));
    r
}

/// `numbers` holds what the cells of the table read as.
pub open spec fn reads_as(t: CsvTable, numbers: Seq<Vec<Option<u64>>>) -> bool {
    numbers.len() == t.lines@.len() && forall|i: int|
        0 <= i < numbers.len() ==> (#[trigger] t.lines@[i] matches Ok(cells) ==> numbers[i]@
            == numbers_of(text_views(cells@)))
}

fn parse_lines(t: &CsvTable) -> (r: Vec<Vec<Option<u64>>>)
    ensures
        reads_as(*t, r@),
{
    let mut r: Vec<Vec<Option<u64>>> = Vec::new();
    let mut i: usize = 0;
    while i < t.lines.len()
        invariant
            i <= t.lines.len(),
            r.len() == i,
            forall|k: int|
                0 <= k < i ==> (#[trigger] t.lines@[k] matches Ok(cells) ==> r@[k]@ == numbers_of(
                    text_views(cells@),
                )),
        decreases t.lines.len() - i,
    {
        let numbers: Vec<Option<u64>> = match &t.lines[i] {
            Ok(cells) => parse_cells(cells),
            Err(_) => Vec::new(),
        };
        r.push(numbers);
        i = i + 1;
    }
    r
}

/// `t` is the table with the given cells.
pub open spec fn is_table(
    t: CsvTable,
    header: Seq<Seq<char>>,
    lines: Seq<Result<Seq<Seq<char>>, Seq<char>>>,
) -> bool {
    text_views(t.headers@) == lowered(header) && line_views(t.lines@) == lines && is_first(
        lowered(header),
        |s: Seq<char>| is_lat_name(s),
        t.lat_col as int,
    ) && is_first(lowered(header), |s: Seq<char>| is_lon_name(s), t.lon_col as int)
}

/// The features are the points of the lines, one for each line, with the longitude
/// and the latitude that the cells in the columns `lon` and `lat` read as.
pub open spec fn are_points_of(
    features: Seq<(Geometry<Coord>, Vec<(String, PropValue)>)>,
    lines: Seq<Result<Seq<Seq<char>>, Seq<char>>>,
    lat: int,
    lon: int,
) -> bool {
    features.len() == lines.len() && forall|i: int|
        0 <= i < lines.len() ==> (#[trigger] features[i]).0 == Geometry::Point(
            Coord {
                x: number_parsed(lines[i]->Ok_0[lon])->0,
                y: number_parsed(lines[i]->Ok_0[lat])->0,
            },
        )
}

/// Read in a layer of points from comma-separated values.
pub fn ingest_csv(name: &str, src: &str, keep: &Option<Vec<String>>) -> (r: Result<
    IngestedLayer,
    BakeError,
>)
    ensures
        match csv_header(src@) {
            Err(t) => r matches Err(e) && e@ == BakeErrorView::GeoJson(t),
            Ok(h) => if no_column(lowered(h), |s: Seq<char>| is_lat_name(s)) {
                r matches Err(e) && e@ == BakeErrorView::GeoJson(
                    "CSV must have 'lat' or 'latitude' column"@,
                )
            } else if no_column(lowered(h), |s: Seq<char>| is_lon_name(s)) {
                r matches Err(e) && e@ == BakeErrorView::GeoJson(
                    "CSV must have 'lon'/'lng' or 'longitude' column"@,
                )
            } else {
                exists|t: CsvTable, numbers: Seq<Vec<Option<u64>>>|
                    is_table(t, h, csv_lines(src@)) && #[trigger] reads_as(t, numbers)
                        && table_comes_to(r, name@, t, numbers, *keep)
            },
        },
        r matches Ok(l) ==> exists|lat: int, lon: int|
            is_first(lowered(csv_header(src@)->Ok_0), |s: Seq<char>| is_lat_name(s), lat)
                && is_first(lowered(csv_header(src@)->Ok_0), |s: Seq<char>| is_lon_name(s), lon)
                && #[trigger] are_points_of(l.features@, csv_lines(src@), lat, lon),
{
    match read_csv(src) {
        Err(e) => Err(e),
        Ok(t) => {
            let numbers = parse_lines(&t);
            proof {
                let h = csv_header(src@)->Ok_0;
                assert(is_table(t, h, csv_lines(src@)));
            }
            let r = ingest_table(name, &t, &numbers, keep);
            assert(reads_as(t, numbers@));
            proof {
                if r is Ok {
                    let l = r->Ok_0;
                    every_line_becomes_a_point(t, *keep, numbers@, t.lines@.len() as int);
                    assert forall|i: int| 0 <= i < csv_lines(src@).len() implies (
                    #[trigger] l.features@[i]).0 == Geometry::Point(
                        Coord {
                            x: number_parsed(csv_lines(src@)[i]->Ok_0[t.lon_col as int])->0,
                            y: number_parsed(csv_lines(src@)[i]->Ok_0[t.lat_col as int])->0,
                        },
                    ) by {
                        assert(t.lines@[i] is Ok);
                        assert(line_views(t.lines@)[i] == line_view(t.lines@[i]));
                    }
                    assert(are_points_of(
                        l.features@,
                        csv_lines(src@),
                        t.lat_col as int,
                        t.lon_col as int,
                    ));
                }
            }
            r
        },
    }
}

/// The value of a cell: a number where it reads as one (a number that JSON cannot
/// hold is no value), else its text.
pub open spec fn cell_value(cell: Seq<char>, number: Option<u64>) -> PropView {
    match number {
        Some(bits) => if is_finite_pattern(bits) {
            PropView::Float(bits)
        } else {
            PropView::Null
        },
        None => PropView::Text(cell),
    }
}

/// The type of a cell's value in the metadata.
pub open spec fn cell_label(number: Option<u64>) -> Seq<char> {
    match number {
        Some(bits) => if is_finite_pattern(bits) {
            "Number"@
        } else {
            "mixed"@
        },
        None => "String"@,
    }
}

/// The properties with the value of `name` set; they stay in the order of their names,
/// and a later value replaces an earlier one.
pub open spec fn with_prop(
    pairs: Seq<(Seq<char>, PropView)>,
    name: Seq<char>,
    v: PropView,
) -> Seq<(Seq<char>, PropView)>
    decreases pairs.len(),
{
    if pairs.len() == 0 {
        seq![(name, v)]
    } else if pairs[0].0 == name {
        pairs.update(0, (name, v))
    } else if text_less(name, pairs[0].0) {
        seq![(name, v)] + pairs
    } else {
        seq![pairs[0]] + with_prop(pairs.skip(1), name, v)
    }
}

/// The properties are in the order of their names, and no name occurs twice.
pub open spec fn props_in_order(pairs: Seq<(Seq<char>, PropView)>) -> bool {
    forall|i: int, j: int|
        0 <= i < j < pairs.len() ==> text_less((#[trigger] pairs[i]).0, (#[trigger] pairs[j]).0)
}

/// What comes before every name still does once another name is set.
proof fn lemma_with_prop_names(
    pairs: Seq<(Seq<char>, PropView)>,
    name: Seq<char>,
    v: PropView,
    below: Seq<char>,
)
    requires
        text_less(below, name),
        forall|i: int| 0 <= i < pairs.len() ==> text_less(below, (#[trigger] pairs[i]).0),
    ensures
        forall|k: int|
            0 <= k < with_prop(pairs, name, v).len() ==> text_less(
                below,
                (#[trigger] with_prop(pairs, name, v)[k]).0,
            ),
    decreases pairs.len(),
{
    if pairs.len() > 0 && pairs[0].0 != name && !text_less(name, pairs[0].0) {
        let rest = pairs.skip(1);
        assert forall|i: int| 0 <= i < rest.len() implies text_less(
            below,
            (#[trigger] rest[i]).0,
        ) by {
            assert(rest[i] == pairs[i + 1]);
        }
        lemma_with_prop_names(rest, name, v, below);
    }
    let next = with_prop(pairs, name, v);
    assert forall|k: int| 0 <= k < next.len() implies text_less(below, (#[trigger] next[k]).0) by {
        if pairs.len() == 0 {
        } else if pairs[0].0 == name {
            assert(next[k].0 == pairs[k].0);
        } else if k > 0 {
            if text_less(name, pairs[0].0) {
                assert(next[k] == pairs[k - 1]);
            } else {
                assert(next[k] == with_prop(pairs.skip(1), name, v)[k - 1]);
            }
        } else {
            assert(text_less(below, pairs[0].0));
        }
    }
}

/// Setting a value keeps the properties in the order of their names, each listed
/// once.
pub proof fn props_stay_in_order(pairs: Seq<(Seq<char>, PropView)>, name: Seq<char>, v: PropView)
    requires
        props_in_order(pairs),
    ensures
        props_in_order(with_prop(pairs, name, v)),
    decreases pairs.len(),
{
    let next = with_prop(pairs, name, v);
    if pairs.len() == 0 {
    } else if pairs[0].0 == name {
        assert forall|i: int, j: int| 0 <= i < j < next.len() implies text_less(
            (#[trigger] next[i]).0,
            (#[trigger] next[j]).0,
        ) by {
            assert(text_less(pairs[i].0, pairs[j].0));
        }
    } else if text_less(name, pairs[0].0) {
        assert forall|i: int, j: int| 0 <= i < j < next.len() implies text_less(
            (#[trigger] next[i]).0,
            (#[trigger] next[j]).0,
        ) by {
            assert(next[j] == pairs[j - 1]);
            if i > 0 {
                assert(text_less(pairs[i - 1].0, pairs[j - 1].0));
            } else if j > 1 {
                assert(text_less(pairs[0].0, pairs[j - 1].0));
                lemma_text_less_transitive(name, pairs[0].0, pairs[j - 1].0);
            }
        }
    } else {
        let rest = pairs.skip(1);
        let tail = with_prop(rest, name, v);
        assert forall|i: int, j: int| 0 <= i < j < rest.len() implies text_less(
            (#[trigger] rest[i]).0,
            (#[trigger] rest[j]).0,
        ) by {
            assert(text_less(pairs[i + 1].0, pairs[j + 1].0));
        }
        props_stay_in_order(rest, name, v);
        lemma_text_less_total(name, pairs[0].0);
        assert forall|i: int| 0 <= i < rest.len() implies text_less(
            pairs[0].0,
            (#[trigger] rest[i]).0,
        ) by {
            assert(text_less(pairs[0].0, pairs[i + 1].0));
        }
        lemma_with_prop_names(rest, name, v, pairs[0].0);
        assert forall|i: int, j: int| 0 <= i < j < next.len() implies text_less(
            (#[trigger] next[i]).0,
            (#[trigger] next[j]).0,
        ) by {
            assert(next[j] == tail[j - 1]);
            if i > 0 {
                assert(text_less(tail[i - 1].0, tail[j - 1].0));
            }
        }
    }
}

/// Column `i` of a line is a property.
pub open spec fn is_property(
    t: CsvTable,
    keep: Option<Vec<String>>,
    row: Seq<Seq<char>>,
    i: int,
) -> bool {
    i != t.lat_col && i != t.lon_col && i < row.len() && is_kept(keep, t.headers@[i]@)
}

/// The properties in the first `n` columns of a line.
pub open spec fn row_props(
    t: CsvTable,
    keep: Option<Vec<String>>,
    row: Seq<Seq<char>>,
    numbers: Seq<Option<u64>>,
    n: int,
) -> Seq<(Seq<char>, PropView)>
    decreases n,
{
    if n <= 0 {
        Seq::empty()
    } else {
        let head = row_props(t, keep, row, numbers, n - 1);
        if is_property(t, keep, row, n - 1) {
            with_prop(head, t.headers@[n - 1]@, cell_value(row[n - 1], numbers[n - 1]))
        } else {
            head
        }
    }
}

/// The names and types of the values in the first `n` columns of a line.
pub open spec fn row_labels(
    t: CsvTable,
    keep: Option<Vec<String>>,
    row: Seq<Seq<char>>,
    numbers: Seq<Option<u64>>,
    n: int,
) -> Seq<(Seq<char>, Seq<char>)>
    decreases n,
{
    if n <= 0 {
        Seq::empty()
    } else {
        let head = row_labels(t, keep, row, numbers, n - 1);
        if is_property(t, keep, row, n - 1) {
            head.push((t.headers@[n - 1]@, cell_label(numbers[n - 1])))
        } else {
            head
        }
    }
}

/// The number in column `i` of a line.
pub open spec fn number_in(numbers: Seq<Option<u64>>, i: int) -> Option<u64> {
    if 0 <= i < numbers.len() {
        numbers[i]
    } else {
        None
    }
}

/// The layer after the first `n` lines. A line in error, or without a latitude
/// or a longitude, ends the reading.
pub open spec fn csv_ingested(
    t: CsvTable,
    keep: Option<Vec<String>>,
    numbers: Seq<Vec<Option<u64>>>,
    n: int,
) -> Result<LayerState, BakeErrorView>
    decreases n,
{
    if n <= 0 {
        Ok(empty_layer())
    } else {
        match csv_ingested(t, keep, numbers, n - 1) {
            Err(e) => Err(e),
            Ok(st) => match t.lines@[n - 1] {
                Err(e) => Err(BakeErrorView::GeoJson(e@)),
                Ok(cells) => {
                    let row = text_views(cells@);
                    let nums = numbers[n - 1]@;
                    match (number_in(nums, t.lat_col as int), number_in(nums, t.lon_col as int)) {
                        (None, _) => Err(BakeErrorView::GeoJson("invalid lat value"@)),
                        (Some(_), None) => Err(BakeErrorView::GeoJson("invalid lon value"@)),
                        (Some(lat), Some(lon)) => Ok(
                            csv_row_added(t, keep, st, row, nums, lat, lon),
                        ),
                    }
                },
            },
        }
    }
}

/// The layer with the point of one more line.
pub open spec fn csv_row_added(
    t: CsvTable,
    keep: Option<Vec<String>>,
    st: LayerState,
    row: Seq<Seq<char>>,
    nums: Seq<Option<u64>>,
    lat: u64,
    lon: u64,
) -> LayerState {
    let n = t.headers@.len() as int;
    LayerState {
        features: st.features.push(
            (Geometry::Point(Coord { x: lon, y: lat }), row_props(t, keep, row, nums, n)),
        ),
        extent: stretched(st.extent, Coord { x: lon, y: lat }),
        schema: SchemaView {
            fields: noted_all(st.schema.fields, row_labels(t, keep, row, nums, n)),
            kinds: interned(st.schema.kinds, "Point"@),
            stored: st.schema.stored + 1,
        },
    }
}

/// For each cell of each line, `numbers` says whether it reads as a number.
pub open spec fn numbers_match(t: CsvTable, numbers: Seq<Vec<Option<u64>>>) -> bool {
    numbers.len() == t.lines@.len() && forall|i: int|
        0 <= i < numbers.len() ==> (#[trigger] t.lines@[i] matches Ok(cells)
            ==> numbers[i]@.len() == cells@.len())
}

proof fn lemma_with_prop(pairs: Seq<(Seq<char>, PropView)>, name: Seq<char>, v: PropView, i: int)
    requires
        0 <= i <= pairs.len(),
        forall|k: int|
            0 <= k < i ==> (#[trigger] pairs[k]).0 != name && !text_less(name, pairs[k].0),
        i < pairs.len() ==> pairs[i].0 == name || text_less(name, pairs[i].0),
    ensures
        with_prop(pairs, name, v) == (if i < pairs.len() && pairs[i].0 == name {
            pairs.update(i, (name, v))
        } else {
            pairs.insert(i, (name, v))
        }),
    decreases i,
{
    if i == 0 {
        if pairs.len() == 0 || pairs[0].0 != name {
            assert(with_prop(pairs, name, v) =~= pairs.insert(0, (name, v)));
        }
    } else {
        let rest = pairs.skip(1);
        assert forall|k: int| 0 <= k < i - 1 implies (#[trigger] rest[k]).0 != name && !text_less(
            name,
            rest[k].0,
        ) by {
            assert(pairs[k + 1].0 != name);
        }
        lemma_with_prop(rest, name, v, i - 1);
        assert(pairs[0].0 != name);
        assert(with_prop(pairs, name, v) =~= (if i < pairs.len() && pairs[i].0 == name {
            pairs.update(i, (name, v))
        } else {
            pairs.insert(i, (name, v))
        }));
    }
}

/// Setting a value gives the name that value and leaves the values of all other names
/// as they are.
pub proof fn setting_a_value_leaves_the_others(
    pairs: Seq<(Seq<char>, PropView)>,
    name: Seq<char>,
    v: PropView,
    other: Seq<char>,
    w: PropView,
)
    requires
        props_in_order(pairs),
    ensures
        with_prop(pairs, name, v).contains((name, v)),
        other == name ==> (with_prop(pairs, name, v).contains((other, w)) ==> w == v),
        other != name ==> (with_prop(pairs, name, v).contains((other, w)) <==> pairs.contains(
            (other, w),
        )),
    decreases pairs.len(),
{
    let next = with_prop(pairs, name, v);
    lemma_text_less_strict(name);
    if pairs.len() == 0 {
        assert(next[0] == (name, v));
    } else if pairs[0].0 == name {
        assert(next[0] == (name, v));
        if pairs.contains((other, w)) && other != name {
            let i = choose|i: int| 0 <= i < pairs.len() && pairs[i] == (other, w);
            assert(next[i] == (other, w));
        }
        if next.contains((other, w)) {
            let i = choose|i: int| 0 <= i < next.len() && next[i] == (other, w);
            if i > 0 {
                lemma_text_less_total(pairs[0].0, pairs[i].0);
                assert(text_less(pairs[0].0, pairs[i].0));
                assert(pairs[i] == (other, w));
            }
        }
    } else if text_less(name, pairs[0].0) {
        assert(next[0] == (name, v));
        if pairs.contains((other, w)) {
            let i = choose|i: int| 0 <= i < pairs.len() && pairs[i] == (other, w);
            assert(next[i + 1] == (other, w));
        }
        if next.contains((other, w)) {
            let i = choose|i: int| 0 <= i < next.len() && next[i] == (other, w);
            if i > 0 {
                assert(pairs[i - 1] == (other, w));
                if i > 1 {
                    assert(text_less(pairs[0].0, pairs[i - 1].0));
                    lemma_text_less_transitive(name, pairs[0].0, pairs[i - 1].0);
                }
                lemma_text_less_total(name, pairs[i - 1].0);
            }
        }
    } else {
        let rest = pairs.skip(1);
        let tail = with_prop(rest, name, v);
        assert forall|i: int, j: int| 0 <= i < j < rest.len() implies text_less(
            (#[trigger] rest[i]).0,
            (#[trigger] rest[j]).0,
        ) by {
            assert(text_less(pairs[i + 1].0, pairs[j + 1].0));
        }
        setting_a_value_leaves_the_others(rest, name, v, other, w);
        let k = choose|k: int| 0 <= k < tail.len() && tail[k] == (name, v);
        assert(next[k + 1] == (name, v));
        if pairs.contains((other, w)) {
            let i = choose|i: int| 0 <= i < pairs.len() && pairs[i] == (other, w);
            if i > 0 {
                assert(rest[i - 1] == (other, w));
                if other != name {
                    let j = choose|j: int| 0 <= j < tail.len() && tail[j] == (other, w);
                    assert(next[j + 1] == (other, w));
                }
            } else {
                assert(next[0] == (other, w));
            }
        }
        if next.contains((other, w)) {
            let i = choose|i: int| 0 <= i < next.len() && next[i] == (other, w);
            if i > 0 {
                assert(tail[i - 1] == (other, w));
                assert(tail.contains((other, w)));
                if other != name {
                    let j = choose|j: int| 0 <= j < rest.len() && rest[j] == (other, w);
                    assert(pairs[j + 1] == (other, w));
                }
            }
        }
    }
}

/// A cell keeps its value: what is no number stays text, and what is a number stays
/// that number, if JSON can hold it.
pub proof fn cells_keep_their_value(cell: Seq<char>, bits: u64)
    ensures
        cell_value(cell, None) == PropView::Text(cell),
        cell_label(None) == "String"@,
        is_finite_pattern(bits) ==> cell_value(cell, Some(bits)) == PropView::Float(bits)
            && cell_label(Some(bits)) == "Number"@,
        !is_finite_pattern(bits) ==> cell_value(cell, Some(bits)) == PropView::Null && cell_label(
            Some(bits),
        ) == "mixed"@,
{
}

/// The properties of a line are the cells of the columns that are kept and hold no
/// coordinate, each under the name of its column; of columns with the same name the
/// last one counts.
pub proof fn every_cell_becomes_a_property(
    t: CsvTable,
    keep: Option<Vec<String>>,
    row: Seq<Seq<char>>,
    numbers: Seq<Option<u64>>,
    n: int,
    name: Seq<char>,
    v: PropView,
)
    requires
        0 <= n <= t.headers@.len(),
    ensures
        props_in_order(row_props(t, keep, row, numbers, n)),
        row_props(t, keep, row, numbers, n).contains((name, v)) <==> is_kept(keep, name) && exists|
            j: int,
        |
            0 <= j < n && j < row.len() && j != t.lat_col && j != t.lon_col && (
            #[trigger] t.headers@[j])@ == name && v == cell_value(row[j], numbers[j]) && forall|
                k: int,
            |
                j < k < n && k < row.len() && k != t.lat_col && k != t.lon_col ==> (
                #[trigger] t.headers@[k])@ != name,
    decreases n,
{
    let all = row_props(t, keep, row, numbers, n);
    if n <= 0 {
        assert(!all.contains((name, v)));
    } else {
        let head = row_props(t, keep, row, numbers, n - 1);
        let last = t.headers@[n - 1]@;
        every_cell_becomes_a_property(t, keep, row, numbers, n - 1, name, v);
        if is_property(t, keep, row, n - 1) {
            let w = cell_value(row[n - 1], numbers[n - 1]);
            props_stay_in_order(head, last, w);
            setting_a_value_leaves_the_others(head, last, w, name, v);
            if last == name {
                if v == w {
                    assert(t.headers@[n - 1]@ == name);
                    assert(all.contains((name, v)));
                }
            } else if all.contains((name, v)) {
                let j = choose|j: int|
                    0 <= j < n - 1 && j < row.len() && j != t.lat_col && j != t.lon_col && (
                    #[trigger] t.headers@[j])@ == name && v == cell_value(row[j], numbers[j])
                        && forall|k: int|
                        j < k < n - 1 && k < row.len() && k != t.lat_col && k != t.lon_col ==> (
                        #[trigger] t.headers@[k])@ != name;
                assert(t.headers@[j]@ == name);
            }
        } else if all.contains((name, v)) {
            let j = choose|j: int|
                0 <= j < n - 1 && j < row.len() && j != t.lat_col && j != t.lon_col && (
                #[trigger] t.headers@[j])@ == name && v == cell_value(row[j], numbers[j])
                    && forall|k: int|
                    j < k < n - 1 && k < row.len() && k != t.lat_col && k != t.lon_col ==> (
                    #[trigger] t.headers@[k])@ != name;
            assert(t.headers@[j]@ == name);
        }
    }
}

/// What is learnt from a line is one value for each of its properties: the name of its
/// column and the type of the cell.
pub proof fn every_cell_is_noted(
    t: CsvTable,
    keep: Option<Vec<String>>,
    row: Seq<Seq<char>>,
    numbers: Seq<Option<u64>>,
    n: int,
    name: Seq<char>,
    label: Seq<char>,
)
    requires
        0 <= n <= t.headers@.len(),
    ensures
        row_labels(t, keep, row, numbers, n).contains((name, label)) <==> is_kept(keep, name)
            && exists|j: int|
            0 <= j < n && j < row.len() && j != t.lat_col && j != t.lon_col && (
            #[trigger] t.headers@[j])@ == name && label == cell_label(numbers[j]),
    decreases n,
{
    let all = row_labels(t, keep, row, numbers, n);
    if n > 0 {
        let head = row_labels(t, keep, row, numbers, n - 1);
        every_cell_is_noted(t, keep, row, numbers, n - 1, name, label);
        if is_property(t, keep, row, n - 1) {
            let last = (t.headers@[n - 1]@, cell_label(numbers[n - 1]));
            if head.contains((name, label)) {
                let i = choose|i: int| 0 <= i < head.len() && head[i] == (name, label);
                assert(all[i] == (name, label));
            }
            assert(all[head.len() as int] == last);
            if all.contains((name, label)) && !head.contains((name, label)) {
                let i = choose|i: int| 0 <= i < all.len() && all[i] == (name, label);
                if i < head.len() {
                    assert(head[i] == (name, label));
                }
                assert(t.headers@[n - 1]@ == name);
            }
        }
    }
}

/// A table is read in without an error exactly if every line of it can be read and
/// gives a latitude and a longitude. It then has as many features as lines, and each
/// of them is the point at the longitude and the latitude of its line, with the
/// properties of its line. The extent is the one around these points.
pub proof fn every_line_becomes_a_point(
    t: CsvTable,
    keep: Option<Vec<String>>,
    numbers: Seq<Vec<Option<u64>>>,
    n: int,
)
    requires
        0 <= n <= t.lines@.len(),
    ensures
        csv_ingested(t, keep, numbers, n) is Ok <==> forall|i: int|
            0 <= i < n ==> (#[trigger] t.lines@[i]) is Ok && t.lat_col < numbers[i]@.len()
                && t.lon_col < numbers[i]@.len() && numbers[i]@[t.lat_col as int] is Some
                && numbers[i]@[t.lon_col as int] is Some,
        csv_ingested(t, keep, numbers, n) matches Ok(st) ==> {
            &&& st.features.len() == n
            &&& forall|i: int|
                0 <= i < n ==> (#[trigger] st.features[i]).0 == Geometry::Point(
                    Coord {
                        x: numbers[i]@[t.lon_col as int]->0,
                        y: numbers[i]@[t.lat_col as int]->0,
                    },
                )
            &&& forall|i: int|
                0 <= i < n ==> (#[trigger] st.features[i]).1 == row_props(
                    t,
                    keep,
                    text_views(t.lines@[i]->Ok_0@),
                    numbers[i]@,
                    t.headers@.len() as int,
                )
            &&& st.extent == stretched_over(
                nothing_held(),
                Seq::new(
                    n as nat,
                    |i: int|
                        Coord {
                            x: numbers[i]@[t.lon_col as int]->0,
                            y: numbers[i]@[t.lat_col as int]->0,
                        },
                ),
            )
        },
    decreases n,
{
    if n > 0 {
        every_line_becomes_a_point(t, keep, numbers, n - 1);
        let line = t.lines@[n - 1];
        if csv_ingested(t, keep, numbers, n) is Ok {
            let points = Seq::new(
                n as nat,
                |i: int|
                    Coord {
                        x: numbers[i]@[t.lon_col as int]->0,
                        y: numbers[i]@[t.lat_col as int]->0,
                    },
            );
            assert(points.drop_last() =~= Seq::new(
                (n - 1) as nat,
                |i: int|
                    Coord {
                        x: numbers[i]@[t.lon_col as int]->0,
                        y: numbers[i]@[t.lat_col as int]->0,
                    },
            ));
        }
    } else {
        assert(Seq::new(
            n as nat,
            |i: int|
                Coord {
                    x: numbers[i]@[t.lon_col as int]->0,
                    y: numbers[i]@[t.lat_col as int]->0,
                },
        ) =~= Seq::<Coord>::empty());
    }
}

/// The names and types of the values in the first `n` lines.
pub open spec fn table_labels(
    t: CsvTable,
    keep: Option<Vec<String>>,
    numbers: Seq<Vec<Option<u64>>>,
    n: int,
) -> Seq<(Seq<char>, Seq<char>)>
    decreases n,
{
    if n <= 0 {
        Seq::empty()
    } else {
        table_labels(t, keep, numbers, n - 1) + row_labels(
            t,
            keep,
            text_views(t.lines@[n - 1]->Ok_0@),
            numbers[n - 1]@,
            t.headers@.len() as int,
        )
    }
}

proof fn lemma_table_labels(
    t: CsvTable,
    keep: Option<Vec<String>>,
    numbers: Seq<Vec<Option<u64>>>,
    n: int,
)
    requires
        0 <= n <= t.lines@.len(),
        csv_ingested(t, keep, numbers, n) is Ok,
    ensures
        csv_ingested(t, keep, numbers, n)->Ok_0.schema.fields == noted_all(
            Seq::empty(),
            table_labels(t, keep, numbers, n),
        ),
    decreases n,
{
    if n > 0 {
        lemma_table_labels(t, keep, numbers, n - 1);
        noting_goes_on(
            Seq::empty(),
            table_labels(t, keep, numbers, n - 1),
            row_labels(
                t,
                keep,
                text_views(t.lines@[n - 1]->Ok_0@),
                numbers[n - 1]@,
                t.headers@.len() as int,
            ),
        );
    }
}

proof fn lemma_table_labels_hold(
    t: CsvTable,
    keep: Option<Vec<String>>,
    numbers: Seq<Vec<Option<u64>>>,
    n: int,
    name: Seq<char>,
)
    requires
        0 <= n <= t.lines@.len(),
    ensures
        was_seen(table_labels(t, keep, numbers, n), name) <==> is_kept(keep, name) && exists|
            i: int,
            j: int,
        |
            0 <= i < n && 0 <= j < t.headers@.len() && j < (#[trigger] t.lines@[i])->Ok_0@.len()
                && j != t.lat_col && j != t.lon_col && (#[trigger] t.headers@[j])@ == name,
    decreases n,
{
    let all = table_labels(t, keep, numbers, n);
    if n > 0 {
        let head = table_labels(t, keep, numbers, n - 1);
        let cols = t.headers@.len() as int;
        let row = text_views(t.lines@[n - 1]->Ok_0@);
        let more = row_labels(t, keep, row, numbers[n - 1]@, cols);
        lemma_table_labels_hold(t, keep, numbers, n - 1, name);
        if was_seen(all, name) {
            let k = choose|k: int| 0 <= k < all.len() && (#[trigger] all[k]).0 == name;
            if k < head.len() {
                assert(head[k].0 == name);
            } else {
                let label = more[k - head.len()].1;
                assert(more.contains((name, label)));
                every_cell_is_noted(t, keep, row, numbers[n - 1]@, cols, name, label);
                let j = choose|j: int|
                    0 <= j < cols && j < row.len() && j != t.lat_col && j != t.lon_col && (
                    #[trigger] t.headers@[j])@ == name && label == cell_label(
                        numbers[n - 1]@[j],
                    );
                assert(t.lines@[n - 1]->Ok_0@.len() == row.len());
                assert(t.headers@[j]@ == name);
            }
        }
        if is_kept(keep, name) && exists|i: int, j: int|
            0 <= i < n && 0 <= j < t.headers@.len() && j < (#[trigger] t.lines@[i])->Ok_0@.len()
                && j != t.lat_col && j != t.lon_col && (#[trigger] t.headers@[j])@ == name {
            let (i, j) = choose|i: int, j: int|
                0 <= i < n && 0 <= j < t.headers@.len() && j < (
                #[trigger] t.lines@[i])->Ok_0@.len() && j != t.lat_col && j != t.lon_col && (
                #[trigger] t.headers@[j])@ == name;
            if i < n - 1 {
                assert(was_seen(head, name));
                let k = choose|k: int| 0 <= k < head.len() && (#[trigger] head[k]).0 == name;
                assert(all[k].0 == name);
            } else {
                let label = cell_label(numbers[n - 1]@[j]);
                every_cell_is_noted(t, keep, row, numbers[n - 1]@, cols, name, label);
                assert(more.contains((name, label)));
                let k = choose|k: int| 0 <= k < more.len() && more[k] == (name, label);
                assert(all[head.len() + k].0 == name);
            }
        }
    }
}

/// The metadata of a table lists the columns that are kept, hold no coordinate and
/// have a cell in some line, each name once; the only kind of geometry is the point.
pub proof fn every_column_is_listed(
    t: CsvTable,
    keep: Option<Vec<String>>,
    numbers: Seq<Vec<Option<u64>>>,
    n: int,
    name: Seq<char>,
)
    requires
        0 <= n <= t.lines@.len(),
    ensures
        csv_ingested(t, keep, numbers, n) matches Ok(st) ==> {
            &&& field_names(st.schema.fields).no_duplicates()
            &&& field_names(st.schema.fields).contains(name) <==> is_kept(keep, name) && exists|
                i: int,
                j: int,
            |
                0 <= i < n && 0 <= j < t.headers@.len() && j < (
                #[trigger] t.lines@[i])->Ok_0@.len() && j != t.lat_col && j != t.lon_col && (
                #[trigger] t.headers@[j])@ == name
            &&& st.schema.kinds == (if n > 0 {
                seq!["Point"@]
            } else {
                Seq::empty()
            })
        },
    decreases n,
{
    if csv_ingested(t, keep, numbers, n) is Ok {
        lemma_table_labels(t, keep, numbers, n);
        lemma_table_labels_hold(t, keep, numbers, n, name);
        schema_sums_up(table_labels(t, keep, numbers, n));
        assert(was_seen(table_labels(t, keep, numbers, n), name) <==> field_names(
            csv_ingested(t, keep, numbers, n)->Ok_0.schema.fields,
        ).contains(name));
        if n > 0 {
            every_column_is_listed(t, keep, numbers, n - 1, name);
            lemma_place_push(Seq::empty(), "Point"@, "Point"@);
            assert(Seq::<Seq<char>>::empty().push("Point"@) =~= seq!["Point"@]);
            lemma_place_found(Seq::<Seq<char>>::empty(), "Point"@);
        }
    }
}

fn put_prop(props: &mut Vec<(String, PropValue)>, name: &str, v: PropValue)
    ensures
        prop_pairs(final(props)@) == with_prop(prop_pairs(old(props)@), name@, v@),
{
    let ghost before = prop_pairs(props@);
    let ghost value = v@;
    let mut i: usize = 0;
    while i < props.len() && !same_text(props[i].0.as_str(), name) && !comes_before(
        name,
        props[i].0.as_str(),
    )
        invariant
            i <= props.len(),
            before == prop_pairs(props@),
            props@ == old(props)@,
            forall|k: int|
                0 <= k < i ==> (#[trigger] before[k]).0 != name@ && !text_less(name@, before[k].0),
        decreases props.len() - i,
    {
        assert(before[i as int].0 == props@[i as int].0@);
        i = i + 1;
    }
    proof {
        if i < props.len() {
            assert(before[i as int].0 == props@[i as int].0@);
        }
        lemma_with_prop(before, name@, value, i as int);
    }
    if i < props.len() && same_text(props[i].0.as_str(), name) {
        let mut p: (String, PropValue) = (name.to_owned(), v);
        std::mem::swap(&mut props[i], &mut p);
        assert(prop_pairs(props@) =~= before.update(i as int, (name@, value)));
    } else {
        props.insert(i, (name.to_owned(), v));
        assert(prop_pairs(props@) =~= before.insert(i as int, (name@, value)));
    }
}

fn value_of(cell: &String, number: Option<u64>) -> (v: PropValue)
    ensures
        v@ == cell_value(cell@, number),
{
    match number {
        Some(bits) => if is_finite(bits) {
            PropValue::Float(bits)
        } else {
            PropValue::Null
        },
        None => PropValue::Text(cell.clone()),
    }
}

fn label_of(number: Option<u64>) -> (r: &'static str)
    ensures
        r@ == cell_label(number),
{
    match number {
        Some(bits) => if is_finite(bits) {
            "Number"
        } else {
            "mixed"
        },
        None => "String",
    }
}

fn take_row(
    t: &CsvTable,
    keep: &Option<Vec<String>>,
    cells: &Vec<String>,
    nums: &Vec<Option<u64>>,
    schema: &mut SchemaBuilder,
) -> (props: Vec<(String, PropValue)>)
    requires
        old(schema).wf(),
        nums@.len() == cells@.len(),
    ensures
        final(schema).wf(),
        final(schema).learnt() == (SchemaView {
            fields: noted_all(
                old(schema).learnt().fields,
                row_labels(*t, *keep, text_views(cells@), nums@, t.headers@.len() as int),
            ),
            ..old(schema).learnt()
        }),
        prop_pairs(props@) == row_props(
            *t,
            *keep,
            text_views(cells@),
            nums@,
            t.headers@.len() as int,
        ),
{
    let ghost row = text_views(cells@);
    let ghost start = schema.learnt();
    let mut props: Vec<(String, PropValue)> = Vec::new();
    let mut i: usize = 0;
    proof {
        assert(prop_pairs(props@) =~= Seq::<(Seq<char>, PropView)>::empty());
    }
    while i < t.headers.len()
        invariant
            i <= t.headers.len(),
            nums@.len() == cells@.len(),
            row == text_views(cells@),
            schema.wf(),
            schema.learnt() == (SchemaView {
                fields: noted_all(start.fields, row_labels(*t, *keep, row, nums@, i as int)),
                ..start
            }),
            prop_pairs(props@) == row_props(*t, *keep, row, nums@, i as int),
        decreases t.headers.len() - i,
    {
        let name = t.headers[i].as_str();
        let ghost seen = row_labels(*t, *keep, row, nums@, i as int);
        if i != t.lat_col && i != t.lon_col && i < cells.len() && keeps_field(keep, name) {
            assert(row[i as int] == cells@[i as int]@);
            let number: Option<u64> = nums[i];
            schema.note_value(name, label_of(number));
            put_prop(&mut props, name, value_of(&cells[i], number));
            proof {
                let next = seen.push((name@, cell_label(number)));
                assert(next.drop_last() =~= seen);
            }
        }
        i = i + 1;
    }
    props
}

/// `r` is what reading in the table comes to. A table without lines is an error.
pub open spec fn table_comes_to(
    r: Result<IngestedLayer, BakeError>,
    name: Seq<char>,
    t: CsvTable,
    numbers: Seq<Vec<Option<u64>>>,
    keep: Option<Vec<String>>,
) -> bool {
    match csv_ingested(t, keep, numbers, t.lines@.len() as int) {
        Err(e) => r matches Err(x) && x@ == e,
        Ok(st) => if st.features.len() == 0 {
            r matches Err(x) && x@ == BakeErrorView::Empty
        } else {
            r matches Ok(l) && l.name@ == name && feature_views(l.features@) == st.features
                && l.layer_info.name@ == name && field_views(l.layer_info.fields@)
                == st.schema.fields && text_views(l.layer_info.geometry_types@) == st.schema.kinds
                && l.bounds@ == degrees_of(st.extent)
        },
    }
}

/// Read in a table of points. `numbers` holds, for each cell of each line, the
/// bit pattern of the number that the cell reads as.
pub fn ingest_table(
    name: &str,
    t: &CsvTable,
    numbers: &Vec<Vec<Option<u64>>>,
    keep: &Option<Vec<String>>,
) -> (r: Result<IngestedLayer, BakeError>)
    requires
        numbers_match(*t, numbers@),
    ensures
        table_comes_to(r, name@, *t, numbers@, *keep),
        r matches Ok(l) ==> {
            &&& l.features@.len() == t.lines@.len()
            &&& forall|i: int|
                0 <= i < t.lines@.len() ==> (#[trigger] l.features@[i]).0 == Geometry::Point(
                    Coord {
                        x: numbers@[i]@[t.lon_col as int]->0,
                        y: numbers@[i]@[t.lat_col as int]->0,
                    },
                )
        },
{
    let mut features: Vec<(Geometry<Coord>, Vec<(String, PropValue)>)> = Vec::new();
    let mut extent = Extent::new();
    let mut schema = SchemaBuilder::new();
    let mut i: usize = 0;
    proof {
        assert(feature_views(features@) =~= empty_layer().features);
    }
    while i < t.lines.len()
        invariant
            i <= t.lines.len(),
            numbers_match(*t, numbers@),
            schema.wf(),
            csv_ingested(*t, *keep, numbers@, i as int) == Ok::<LayerState, BakeErrorView>(
                LayerState {
                    features: feature_views(features@),
                    extent: extent.bounds(),
                    schema: schema.learnt(),
                },
            ),
            schema.learnt().stored == features.len(),
        decreases t.lines.len() - i,
    {
        let ghost st = LayerState {
            features: feature_views(features@),
            extent: extent.bounds(),
            schema: schema.learnt(),
        };
        match &t.lines[i] {
            Err(e) => {
                proof {
                    lemma_csv_stuck(*t, *keep, numbers@, i + 1, t.lines@.len() as int);
                }
                return Err(BakeError::GeoJson(e.clone()));
            },
            Ok(cells) => {
                let nums: &Vec<Option<u64>> = &numbers[i];
                assert(t.lines@[i as int] matches Ok(c) && c == *cells);
                assert(nums@.len() == cells@.len());
                let lat: Option<u64> = if t.lat_col < nums.len() {
                    nums[t.lat_col]
                } else {
                    None
                };
                let lon: Option<u64> = if t.lon_col < nums.len() {
                    nums[t.lon_col]
                } else {
                    None
                };
                match (lat, lon) {
                    (Some(y), Some(x)) => {
                        let props = take_row(t, keep, cells, nums, &mut schema);
                        schema.note_kind("Point");
                        schema.note_stored();
                        extent.stretch(Coord { x, y });
                        features.push((Geometry::Point(Coord { x, y }), props));
                        proof {
                            let next = csv_row_added(
                                *t,
                                *keep,
                                st,
                                text_views(cells@),
                                nums@,
                                y,
                                x,
                            );
                            assert(feature_views(features@) =~= next.features);
                            assert(schema.learnt() =~= next.schema);
                        }
                    },
                    (None, _) => {
                        proof {
                            lemma_csv_stuck(*t, *keep, numbers@, i + 1, t.lines@.len() as int);
                        }
                        return Err(BakeError::GeoJson("invalid lat value".to_owned()));
                    },
                    (Some(_), None) => {
                        proof {
                            lemma_csv_stuck(*t, *keep, numbers@, i + 1, t.lines@.len() as int);
                        }
                        return Err(BakeError::GeoJson("invalid lon value".to_owned()));
                    },
                }
            },
        }
        i = i + 1;
    }
    proof {
        every_line_becomes_a_point(*t, *keep, numbers@, t.lines@.len() as int);
        assert forall|k: int| 0 <= k < features@.len() implies (#[trigger] features@[k]).0
            == feature_views(features@)[k].0 by {}
    }
    match schema.finish(name) {
        Err(e) => Err(e),
        Ok(layer_info) => Ok(
            IngestedLayer {
                name: name.to_owned(),
                features,
                bounds: extent.degrees(),
                layer_info,
            },
        ),
    }
}

proof fn lemma_csv_stuck(
    t: CsvTable,
    keep: Option<Vec<String>>,
    numbers: Seq<Vec<Option<u64>>>,
    m: int,
    n: int,
)
    requires
        1 <= m <= n,
        csv_ingested(t, keep, numbers, m) is Err,
    ensures
        csv_ingested(t, keep, numbers, n) == csv_ingested(t, keep, numbers, m),
    decreases n,
{
    if m < n {
        lemma_csv_stuck(t, keep, numbers, m, n - 1);
    }
}

/// These names, and no others, are those of coordinate columns.
pub proof fn coordinate_columns_have_these_names(s: Seq<char>)
    ensures
        is_lat_name(s) <==> s == "lat"@ || s == "latitude"@,
        is_lon_name(s) <==> s == "lon"@ || s == "lng"@ || s == "longitude"@,
{
}

/// The first line that cannot be read, or that lacks a coordinate, is the one that is
/// reported: the error in it, else the missing latitude, else the missing longitude.
pub proof fn the_first_bad_line_is_reported(
    t: CsvTable,
    keep: Option<Vec<String>>,
    numbers: Seq<Vec<Option<u64>>>,
    n: int,
) -> (i: int)
    requires
        0 <= n <= t.lines@.len(),
        csv_ingested(t, keep, numbers, n) is Err,
    ensures
        0 <= i < n,
        csv_ingested(t, keep, numbers, i) is Ok,
        ({
            let e = csv_ingested(t, keep, numbers, n)->Err_0;
            let lat = t.lat_col < numbers[i]@.len() && numbers[i]@[t.lat_col as int] is Some;
            let lon = t.lon_col < numbers[i]@.len() && numbers[i]@[t.lon_col as int] is Some;
            match t.lines@[i] {
                Err(text) => e == BakeErrorView::GeoJson(text@),
                Ok(_) => if !lat {
                    e == BakeErrorView::GeoJson("invalid lat value"@)
                } else {
                    !lon && e == BakeErrorView::GeoJson("invalid lon value"@)
                },
            }
        }),
    decreases n,
{
    if csv_ingested(t, keep, numbers, n - 1) is Err {
        the_first_bad_line_is_reported(t, keep, numbers, n - 1)
    } else {
        n - 1
    }
}

/// A table with lines has one kind of geometry, the point, and as many stored features as
/// lines.
pub proof fn tables_hold_points_only(
    t: CsvTable,
    keep: Option<Vec<String>>,
    numbers: Seq<Vec<Option<u64>>>,
    n: int,
)
    requires
        0 <= n <= t.lines@.len(),
        csv_ingested(t, keep, numbers, n) is Ok,
    ensures
        csv_ingested(t, keep, numbers, n)->Ok_0.schema.kinds == (if n > 0 {
            seq!["Point"@]
        } else {
            Seq::empty()
        }),
        csv_ingested(t, keep, numbers, n)->Ok_0.schema.stored == n,
    decreases n,
{
    if n > 0 {
        tables_hold_points_only(t, keep, numbers, n - 1);
        let kinds = csv_ingested(t, keep, numbers, n - 1)->Ok_0.schema.kinds;
        lemma_place_found(kinds, "Point"@);
        if n > 1 {
            assert(kinds[0] == "Point"@);
        }
        assert(interned(kinds, "Point"@) =~= seq!["Point"@]);
    }
}

} // verus!
