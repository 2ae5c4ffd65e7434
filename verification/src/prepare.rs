//! Input preparation: which inputs can be baked as they are, and which are first
//! converted to line-delimited GeoJSON in WGS84.

use vstd::prelude::*;

use crate::bake_args::text_option;
use crate::text::{
    chars_of, find, find_from, is_digit, lowercase_of, push_decimal, decimal, push_text, same_text,
    text_of, the_first_match_is_found, to_lowercase,
};

verus! {

/// Inputs of at least this size are converted unless they can be streamed,
/// because parsing them whole would exhaust memory.
pub const LARGE_FILE_BYTES: u64 = 1_073_741_824;

/// How many bytes of a text input are searched for a coordinate reference system.
pub const CRS_SCAN_BYTES: usize = 65_536;

/// A temporary file that is deleted after baking.
pub struct TempFile {
    file: String,
}

impl TempFile {
    pub closed spec fn name(&self) -> Seq<char> {
        self.file@
    }

    pub fn new(file: String) -> (t: TempFile)
        ensures
            t.name() == file@,
    {
        TempFile { file }
    }

    pub fn path(&self) -> (r: &str)
        ensures
            r@ == self.name(),
    {
        self.file.as_str()
    }
}

/// Result of preparing an input.
pub struct Prepared {
    /// The input itself, or the converted file.
    pub path: String,
    /// Set when `path` is a file that was made here.
    pub temp: Option<TempFile>,
}

/// The formats that can be baked.
#[derive(Debug, Clone, Copy, PartialEq, Eq)]
pub enum InputFormat {
    GeoJsonSeq,
    GeoJson,
    Csv,
    Shapefile,
    Mbtiles,
    Unsupported,
}

/// The format that goes with a file extension in lower case.
pub open spec fn format_of(ext: Seq<char>) -> InputFormat {
    if ext == "geojsonl"@ || ext == "geojsons"@ || ext == "ndjson"@ {
        InputFormat::GeoJsonSeq
    } else if ext == "geojson"@ || ext == "json"@ {
        InputFormat::GeoJson
    } else if ext == "csv"@ {
        InputFormat::Csv
    } else if ext == "shp"@ {
        InputFormat::Shapefile
    } else if ext == "mbtiles"@ {
        InputFormat::Mbtiles
    } else {
        InputFormat::Unsupported
    }
}

/// The format that goes with a file extension in lower case.
pub fn format_named(ext: &str) -> (f: InputFormat)
    ensures
        f == format_of(ext@),
{
    if same_text(ext, "geojsonl") || same_text(ext, "geojsons") || same_text(ext, "ndjson") {
        InputFormat::GeoJsonSeq
    } else if same_text(ext, "geojson") || same_text(ext, "json") {
        InputFormat::GeoJson
    } else if same_text(ext, "csv") {
        InputFormat::Csv
    } else if same_text(ext, "shp") {
        InputFormat::Shapefile
    } else if same_text(ext, "mbtiles") {
        InputFormat::Mbtiles
    } else {
        InputFormat::Unsupported
    }
}

/// The format of a file by its extension; the case does not matter.
pub fn input_format(ext: &str) -> (f: InputFormat)
    ensures
        f == format_of(lowercase_of(ext@)),
{
    let lower = to_lowercase(ext);
    format_named(lower.as_str())
}

/// How inputs are baked.
#[derive(Debug, Clone, Copy, PartialEq, Eq)]
pub enum BakeRoute {
    /// One input, a line at a time.
    Streaming,
    /// One input, read as a whole.
    InMemory,
    /// The tiles of one input are taken over.
    Import,
    /// Several inputs become the layers of one archive.
    Merge,
}

/// How `count` inputs are baked, of which the first has the given format.
pub fn bake_route(count: usize, format: InputFormat) -> (r: BakeRoute)
    ensures
        r == (if count != 1 {
            BakeRoute::Merge
        } else if format is GeoJsonSeq {
            BakeRoute::Streaming
        } else if format is Mbtiles {
            BakeRoute::Import
        } else {
            BakeRoute::InMemory
        }),
{
    if count != 1 {
        return BakeRoute::Merge;
    }
    match format {
        InputFormat::GeoJsonSeq => BakeRoute::Streaming,
        InputFormat::Mbtiles => BakeRoute::Import,
        _ => BakeRoute::InMemory,
    }
}

/// The error for an input in a format that cannot be baked. `several` tells
/// whether there are other inputs.
pub open spec fn unsupported_text(ext: Seq<char>, several: bool) -> Seq<char> {
    "unsupported format '."@ + ext
        + "' — supported: geojson, geojsonl, csv, shp\nTip: convert first with `ogr2ogr -f "@ + (
    if several {
        "GeoJSON out.geojson"@
    } else {
        "GeoJSONSeq out.geojsonl"@
    }) + " input."@ + ext + "`"@
}

/// The error for an input in a format that cannot be baked.
pub fn unsupported_message(ext: &str, several: bool) -> (r: String)
    ensures
        r@ == unsupported_text(lowercase_of(ext@), several),
{
    let ext = to_lowercase(ext);
    let mut r = "unsupported format '.".to_owned();
    push_text(&mut r, ext.as_str());
    push_text(
        &mut r,
        "' — supported: geojson, geojsonl, csv, shp\nTip: convert first with `ogr2ogr -f ",
    );
    push_text(
        &mut r,
        if several {
            "GeoJSON out.geojson"
        } else {
            "GeoJSONSeq out.geojsonl"
        },
    );
    push_text(&mut r, " input.");
    push_text(&mut r, ext.as_str());
    push_text(&mut r, "`");
    r
}

/// An ASCII letter in upper case; other characters as they are.
pub open spec fn ascii_upper(c: char) -> char {
    if 'a' <= c && c <= 'z' {
        (c as u32 - 32) as char
    } else {
        c
    }
}

fn upper(c: char) -> (r: char)
    ensures
        r == ascii_upper(c),
{
    if 'a' <= c && c <= 'z' {
        (c as u8 - 32) as char
    } else {
        c
    }
}

/// The text with its ASCII letters in upper case.
pub open spec fn ascii_uppercase(s: Seq<char>) -> Seq<char> {
    s.map_values(|c: char| ascii_upper(c))
}

fn to_ascii_upper(s: &str) -> (r: String)
    ensures
        r@ == ascii_uppercase(s@),
{
    let v = chars_of(s);
    let mut r = String::new();
    let mut i: usize = 0;
    while i < v.len()
        invariant
            i <= v.len(),
            v@ == s@,
            r@ == ascii_uppercase(s@.take(i as int)),
        decreases v.len() - i,
    {
        r.push(upper(v[i]));
        i = i + 1;
        assert(r@ =~= ascii_uppercase(s@.take(i as int)));
    }
    assert(s@.take(i as int) =~= s@);
    r
}

/// The code names WGS84, in either order of the axes.
pub open spec fn names_wgs84(code: Seq<char>) -> bool {
    let c = ascii_uppercase(code);
    c == "EPSG:4326"@ || c == "OGC:CRS84"@ || c == "CRS84"@
}

/// Whether the code names WGS84.
pub fn is_wgs84(code: &str) -> (r: bool)
    ensures
        r == names_wgs84(code@),
{
    let c = to_ascii_upper(code);
    same_text(c.as_str(), "EPSG:4326") || same_text(c.as_str(), "OGC:CRS84") || same_text(
        c.as_str(),
        "CRS84",
    )
}

/// Where the run of characters `c` that starts at `from` ends.
pub open spec fn run_end(s: Seq<char>, c: char, from: int) -> int
    decreases s.len() - from,
{
    if 0 <= from < s.len() && s[from] == c {
        run_end(s, c, from + 1)
    } else {
        from
    }
}

/// Where the run of digits that starts at `from` ends.
pub open spec fn digits_end(s: Seq<char>, from: int) -> int
    decreases s.len() - from,
{
    if 0 <= from < s.len() && is_digit(s[from]) {
        digits_end(s, from + 1)
    } else {
        from
    }
}

/// The code spelt by the digits at `from`, if there are any.
pub open spec fn code_at(s: Seq<char>, from: int) -> Option<Seq<char>> {
    let end = digits_end(s, from);
    if end > from {
        Some("EPSG:"@ + s.subrange(from, end))
    } else {
        None
    }
}

fn read_code(v: &Vec<char>, from: usize) -> (r: Option<String>)
    requires
        from <= v.len(),
    ensures
        text_option(r) == code_at(v@, from as int),
{
    let mut end: usize = from;
    while end < v.len() && '0' <= v[end] && v[end] <= '9'
        invariant
            from <= end <= v.len(),
            digits_end(v@, from as int) == digits_end(v@, end as int),
        decreases v.len() - end,
    {
        end = end + 1;
    }
    if end == from {
        return None;
    }
    let mut r = "EPSG:".to_owned();
    let digits = text_of(v, from, end);
    push_text(&mut r, digits.as_str());
    Some(r)
}

/// The reference system that GeoJSON text declares in a `crs` member: the digits
/// behind the first `EPSG:` in it, further colons skipped.
pub open spec fn crs_declared(s: Seq<char>) -> Option<Seq<char>> {
    match find_from(s, "\"crs\""@, 0) {
        None => None,
        Some(p) => match find_from(s, "EPSG:"@, p) {
            None => None,
            Some(q) => code_at(s, run_end(s, ':', q + 5)),
        },
    }
}

/// The reference system that GeoJSON text declares.
pub fn crs_in_text(text: &str) -> (r: Option<String>)
    ensures
        text_option(r) == crs_declared(text@),
{
    let v = chars_of(text);
    let member = chars_of("\"crs\"");
    let prefix = chars_of("EPSG:");
    proof {
        reveal_strlit("EPSG:");
    }
    match find(&v, &member, 0) {
        None => None,
        Some(p) => match find(&v, &prefix, p) {
            None => None,
            Some(q) => {
                let mut at: usize = q + 5;
                while at < v.len() && v[at] == ':'
                    invariant
                        q + 5 <= at <= v.len(),
                        run_end(v@, ':', q + 5) == run_end(v@, ':', at as int),
                    decreases v.len() - at,
                {
                    at = at + 1;
                }
                read_code(&v, at)
            },
        },
    }
}

/// The reference system in a report of `ogrinfo`: the digits behind the first
/// `"EPSG",`.
pub open spec fn crs_reported(s: Seq<char>) -> Option<Seq<char>> {
    match find_from(s, "\"EPSG\","@, 0) {
        None => None,
        Some(p) => code_at(s, p + 7),
    }
}

/// The reference system in a report of `ogrinfo`.
pub fn crs_in_report(text: &str) -> (r: Option<String>)
    ensures
        text_option(r) == crs_reported(text@),
{
    let v = chars_of(text);
    let key = chars_of("\"EPSG\",");
    proof {
        reveal_strlit("\"EPSG\",");
    }
    match find(&v, &key, 0) {
        None => None,
        Some(p) => read_code(&v, p + 7),
    }
}

/// The text in the bytes, with what is not UTF-8 replaced.
pub uninterp spec fn lossy_text(bytes: Seq<u8>) -> Seq<char>;

/// Calls `String::from_utf8_lossy`.
///
/// Claimed: the text depends on the bytes alone.
#[verifier::external_body]
fn from_utf8_lossy(bytes: &[u8]) -> (r: String)
    ensures
        r@ == lossy_text(bytes@),
{
    String::from_utf8_lossy(bytes).into_owned()
}

/// The reference system declared in the first bytes of a GeoJSON file.
pub fn detect_crs_text(head: &[u8]) -> (r: Option<String>)
    ensures
        text_option(r) == crs_declared(lossy_text(head@)),
{
    let text = from_utf8_lossy(head);
    crs_in_text(text.as_str())
}

/// The reference system in what `ogrinfo` printed; nothing where it failed.
pub fn detect_crs_ogrinfo(success: bool, printed: &[u8]) -> (r: Option<String>)
    ensures
        text_option(r) == (if success {
            crs_reported(lossy_text(printed@))
        } else {
            None
        }),
{
    if !success {
        return None;
    }
    let text = from_utf8_lossy(printed);
    crs_in_report(text.as_str())
}

/// Whether the reference system of an input stands in its text.
pub fn is_text_format(ext: &str) -> (r: bool)
    ensures
        r == (format_of(lowercase_of(ext@)) is GeoJsonSeq || format_of(
            lowercase_of(ext@),
        ) is GeoJson),
{
    match input_format(ext) {
        InputFormat::GeoJsonSeq => true,
        InputFormat::GeoJson => true,
        _ => false,
    }
}

/// What is done with an input.
pub enum InputPlan {
    /// It is baked as it is.
    Direct,
    /// It is converted: it is in another reference system, or too large.
    Convert { crs: Option<String>, large: bool },
}

/// The input is in a reference system other than WGS84.
pub open spec fn is_foreign(crs: Option<Seq<char>>) -> bool {
    crs matches Some(code) && !names_wgs84(code)
}

/// The input is baked as it is. Tiles are imported directly, whatever system they are
/// reported in; anything else must be in WGS84, and small unless it can be streamed.
pub open spec fn is_direct(format: InputFormat, size: u64, crs: Option<Seq<char>>) -> bool {
    format is Mbtiles || !is_foreign(crs) && (format is GeoJsonSeq || size < LARGE_FILE_BYTES)
}

/// Decide whether an input needs conversion: one in another reference system
/// does, and a large one that cannot be streamed. Tiles never do.
pub fn plan_input(format: InputFormat, size: u64, crs: Option<String>) -> (p: InputPlan)
    ensures
        match p {
            InputPlan::Direct => is_direct(format, size, text_option(crs)),
            InputPlan::Convert { crs: c, large } => {
                &&& !is_direct(format, size, text_option(crs))
                &&& large == (size >= LARGE_FILE_BYTES)
                &&& text_option(c) == text_option(crs)
            },
        },
{
    let (tiles, streamable): (bool, bool) = match format {
        InputFormat::Mbtiles => (true, false),
        InputFormat::GeoJsonSeq => (false, true),
        _ => (false, false),
    };
    let large: bool = size >= LARGE_FILE_BYTES;
    let foreign: bool = match &crs {
        Some(code) => !is_wgs84(code.as_str()),
        None => false,
    };
    if tiles || !foreign && (streamable || !large) {
        return InputPlan::Direct;
    }
    InputPlan::Convert { crs, large }
}

/// ASCII letters and digits.
pub open spec fn is_alphanumeric(c: char) -> bool {
    ('a' <= c && c <= 'z') || ('A' <= c && c <= 'Z') || ('0' <= c && c <= '9')
}

/// The name with everything but ASCII letters and digits replaced.
pub open spec fn safe_name(s: Seq<char>) -> Seq<char> {
    s.map_values(
        |c: char|
            if is_alphanumeric(c) {
                c
            } else {
                '_'
            },
    )
}

fn push_safe(out: &mut String, s: &str)
    ensures
        final(out)@ == old(out)@ + safe_name(s@),
{
    let v = chars_of(s);
    let mut i: usize = 0;
    assert(out@ =~= old(out)@ + safe_name(s@.take(0)));
    while i < v.len()
        invariant
            i <= v.len(),
            v@ == s@,
            out@ == old(out)@ + safe_name(s@.take(i as int)),
        decreases v.len() - i,
    {
        let c: char = v[i];
        let keep: bool = ('a' <= c && c <= 'z') || ('A' <= c && c <= 'Z') || ('0' <= c && c <= '9');
        out.push(
            if keep {
                c
            } else {
                '_'
            },
        );
        i = i + 1;
        assert(out@ =~= old(out)@ + safe_name(s@.take(i as int)));
    }
    assert(s@.take(i as int) =~= s@);
}

/// The name of the file that a layer is converted to. The process and the time
/// make it unique.
pub fn temp_geojsonl_name(layer_name: &str, pid: u32, nanos: &str) -> (r: String)
    ensures
        r@ == "lm-bake-"@ + safe_name(layer_name@) + "-"@ + decimal(pid as nat) + "-"@ + nanos@
            + ".geojsonl"@,
{
    let mut r = "lm-bake-".to_owned();
    push_safe(&mut r, layer_name);
    push_text(&mut r, "-");
    push_decimal(&mut r, pid as u64);
    push_text(&mut r, "-");
    push_text(&mut r, nanos);
    push_text(&mut r, ".geojsonl");
    r
}

/// The name of a scratch file of the streaming bake.
pub fn scratch_name(layer_name: &str, kind: &str, pid: u32, nanos: &str) -> (r: String)
    ensures
        r@ == "lm-bake-"@ + kind@ + "-"@ + safe_name(layer_name@) + "-"@ + decimal(pid as nat)
            + "-"@ + nanos@ + ".bin"@,
{
    let mut r = "lm-bake-".to_owned();
    push_text(&mut r, kind);
    push_text(&mut r, "-");
    push_safe(&mut r, layer_name);
    push_text(&mut r, "-");
    push_decimal(&mut r, pid as u64);
    push_text(&mut r, "-");
    push_text(&mut r, nanos);
    push_text(&mut r, ".bin");
    r
}

/// The exit code of a process in a message.
pub open spec fn exit_text(code: Option<i32>) -> Seq<char> {
    match code {
        None => "None"@,
        Some(c) => if c < 0 {
            "Some(-"@ + decimal((-c) as nat) + ")"@
        } else {
            "Some("@ + decimal(c as nat) + ")"@
        },
    }
}

/// What went wrong with a conversion, if anything: the process failed, or its
/// output is empty.
pub fn conversion_error(success: bool, code: Option<i32>, produced: u64) -> (r: Option<String>)
    ensures
        text_option(r) == (if !success {
            Some("ogr2ogr conversion failed (exit "@ + exit_text(code) + ")"@)
        } else if produced == 0 {
            Some(
                "ogr2ogr produced an empty file — is the input a recognised geodata format?"@,
            )
        } else {
            None
        }),
{
    if !success {
        let mut r = "ogr2ogr conversion failed (exit ".to_owned();
        match code {
            None => {
                push_text(&mut r, "None");
            },
            Some(c) => {
                if c < 0 {
                    push_text(&mut r, "Some(-");
                    push_decimal(&mut r, (-(c as i64)) as u64);
                } else {
                    push_text(&mut r, "Some(");
                    push_decimal(&mut r, c as u64);
                }
                push_text(&mut r, ")");
            },
        }
        push_text(&mut r, ")");
        proof {
            assert(r@ =~= "ogr2ogr conversion failed (exit "@ + exit_text(code) + ")"@);
        }
        return Some(r);
    }
    if produced == 0 {
        return Some(
            "ogr2ogr produced an empty file — is the input a recognised geodata format?".to_owned(),
        );
    }
    None
}

/// The formats go by these extensions, and no others.
pub proof fn formats_go_by_their_extensions(ext: Seq<char>)
    ensures
        format_of(ext) is GeoJsonSeq <==> ext == "geojsonl"@ || ext == "geojsons"@ || ext
            == "ndjson"@,
        format_of(ext) is GeoJson <==> ext == "geojson"@ || ext == "json"@,
        format_of(ext) is Csv <==> ext == "csv"@,
        format_of(ext) is Shapefile <==> ext == "shp"@,
        format_of(ext) is Mbtiles <==> ext == "mbtiles"@,
{
    reveal_strlit("geojsonl");
    reveal_strlit("geojsons");
    reveal_strlit("ndjson");
    reveal_strlit("geojson");
    reveal_strlit("json");
    reveal_strlit("csv");
    reveal_strlit("shp");
    reveal_strlit("mbtiles");
    assert("geojsonl"@.len() == 8 && "geojsons"@.len() == 8 && "ndjson"@.len() == 6);
    assert("geojson"@.len() == 7 && "json"@.len() == 4 && "csv"@.len() == 3 && "shp"@.len() == 3);
    assert("mbtiles"@.len() == 7 && "mbtiles"@[0] == 'm' && "geojson"@[0] == 'g');
    assert("csv"@[0] == 'c' && "shp"@[0] == 's');
}

/// Tiles are taken as they are, whatever their size and system. An input in another
/// system is never baked as it is. One in WGS84, or that names no system, is if it can
/// be streamed, or if it is smaller than a gibibyte.
pub proof fn inputs_are_converted_when_they_must(
    format: InputFormat,
    size: u64,
    crs: Option<Seq<char>>,
)
    ensures
        format is Mbtiles ==> is_direct(format, size, crs),
        !(format is Mbtiles) && crs is Some && !names_wgs84(crs->0) ==> !is_direct(
            format,
            size,
            crs,
        ),
        format is GeoJsonSeq && (crs is None || names_wgs84(crs->0)) ==> is_direct(
            format,
            size,
            crs,
        ),
        !(format is Mbtiles) && !(format is GeoJsonSeq) && (crs is None || names_wgs84(crs->0))
            ==> (is_direct(format, size, crs) <==> size < 1_073_741_824),
{
}

/// WGS84 has these three names, in any case of their letters.
pub proof fn wgs84_is_known_in_any_case(code: Seq<char>)
    ensures
        names_wgs84(code) <==> ascii_uppercase(code) == "EPSG:4326"@ || ascii_uppercase(code)
            == "OGC:CRS84"@ || ascii_uppercase(code) == "CRS84"@,
        names_wgs84("EPSG:4326"@),
        names_wgs84("OGC:CRS84"@),
        names_wgs84("CRS84"@),
        ascii_uppercase(code).len() == code.len(),
        forall|i: int|
            0 <= i < code.len() ==> {
                let c = #[trigger] ascii_uppercase(code)[i];
                if 'a' <= code[i] && code[i] <= 'z' {
                    c as u32 + 32 == code[i] as u32
                } else {
                    c == code[i]
                }
            },
{
    reveal_strlit("EPSG:4326");
    reveal_strlit("OGC:CRS84");
    reveal_strlit("CRS84");
    assert(ascii_uppercase("EPSG:4326"@) =~= "EPSG:4326"@);
    assert(ascii_uppercase("OGC:CRS84"@) =~= "OGC:CRS84"@);
    assert(ascii_uppercase("CRS84"@) =~= "CRS84"@);
}

proof fn lemma_run_end(s: Seq<char>, c: char, from: int)
    requires
        0 <= from <= s.len(),
    ensures
        from <= run_end(s, c, from) <= s.len(),
        forall|i: int| from <= i < run_end(s, c, from) ==> #[trigger] s[i] == c,
        run_end(s, c, from) < s.len() ==> s[run_end(s, c, from)] != c,
    decreases s.len() - from,
{
    if from < s.len() && s[from] == c {
        lemma_run_end(s, c, from + 1);
    }
}

proof fn lemma_digits_end(s: Seq<char>, from: int)
    requires
        0 <= from <= s.len(),
    ensures
        from <= digits_end(s, from) <= s.len(),
        forall|i: int| from <= i < digits_end(s, from) ==> is_digit(#[trigger] s[i]),
        digits_end(s, from) < s.len() ==> !is_digit(s[digits_end(s, from)]),
    decreases s.len() - from,
{
    if from < s.len() && is_digit(s[from]) {
        lemma_digits_end(s, from + 1);
    }
}

/// A code is spelt by all the digits that stand at a place, and by nothing else; where
/// no digit stands there is none.
pub proof fn codes_are_all_digits_at_a_place(s: Seq<char>, from: int, n: int)
    requires
        0 <= from,
        0 <= n,
        from + n <= s.len(),
        forall|i: int| from <= i < from + n ==> is_digit(#[trigger] s[i]),
        from + n < s.len() ==> !is_digit(s[from + n]),
    ensures
        code_at(s, from) == (if n > 0 {
            Some("EPSG:"@ + s.subrange(from, from + n))
        } else {
            None
        }),
{
    lemma_digits_end(s, from);
    let end = digits_end(s, from);
    if end < from + n {
        assert(is_digit(s[end]));
    }
    if end > from + n {
        assert(is_digit(s[from + n]));
    }
}

/// The reference system that a text declares is the code behind the first `EPSG:` that
/// follows the first `"crs"`, colons in front of the code skipped: for `p` and `q` where
/// these stand, and `d` where the colons end.
pub proof fn the_declared_system_is_found(s: Seq<char>, p: int, q: int, d: int)
    requires
        0 <= p <= q,
        p + 5 <= s.len() && q + 5 <= d <= s.len(),
        s.subrange(p, p + 5) == "\"crs\""@,
        forall|k: int| 0 <= k < p ==> #[trigger] s.subrange(k, k + 5) != "\"crs\""@,
        s.subrange(q, q + 5) == "EPSG:"@,
        forall|k: int| p <= k < q ==> #[trigger] s.subrange(k, k + 5) != "EPSG:"@,
        forall|k: int| q + 5 <= k < d ==> #[trigger] s[k] == ':',
        d < s.len() ==> s[d] != ':',
    ensures
        crs_declared(s) == code_at(s, d),
{
    reveal_strlit("\"crs\"");
    reveal_strlit("EPSG:");
    the_first_match_is_found(s, "\"crs\""@, 0);
    let i = find_from(s, "\"crs\""@, 0);
    match i {
        Some(x) => {
            if x < p {
                assert(s.subrange(x, x + 5) != "\"crs\""@);
            }
            if x > p {
                assert(s.subrange(p, p + 5) != "\"crs\""@);
            }
        },
        None => {
            assert(s.subrange(p, p + 5) != "\"crs\""@);
        },
    }
    the_first_match_is_found(s, "EPSG:"@, p);
    match find_from(s, "EPSG:"@, p) {
        Some(x) => {
            if x < q {
                assert(s.subrange(x, x + 5) != "EPSG:"@);
            }
            if x > q {
                assert(s.subrange(q, q + 5) != "EPSG:"@);
            }
        },
        None => {
            assert(s.subrange(q, q + 5) != "EPSG:"@);
        },
    }
    lemma_run_end(s, ':', q + 5);
    let e = run_end(s, ':', q + 5);
    if e < d {
        assert(s[e] == ':');
    }
    if e > d {
        assert(s[d] == ':');
    }
}

/// The reference system in a report is the code behind the first `"EPSG",` in it.
pub proof fn the_reported_system_is_found(s: Seq<char>, p: int)
    requires
        0 <= p,
        p + 7 <= s.len(),
        s.subrange(p, p + 7) == "\"EPSG\","@,
        forall|k: int| 0 <= k < p ==> #[trigger] s.subrange(k, k + 7) != "\"EPSG\","@,
    ensures
        crs_reported(s) == code_at(s, p + 7),
{
    reveal_strlit("\"EPSG\",");
    the_first_match_is_found(s, "\"EPSG\","@, 0);
    match find_from(s, "\"EPSG\","@, 0) {
        Some(x) => {
            if x < p {
                assert(s.subrange(x, x + 7) != "\"EPSG\","@);
            }
            if x > p {
                assert(s.subrange(p, p + 7) != "\"EPSG\","@);
            }
        },
        None => {
            assert(s.subrange(p, p + 7) != "\"EPSG\","@);
        },
    }
}

/// In the name of a file every ASCII letter and digit stays, and everything else becomes
/// an underscore.
pub proof fn file_names_keep_letters_and_digits(s: Seq<char>, i: int)
    requires
        0 <= i < s.len(),
    ensures
        safe_name(s).len() == s.len(),
        ('a' <= s[i] && s[i] <= 'z') || ('A' <= s[i] && s[i] <= 'Z') || ('0' <= s[i] && s[i] <= '9')
            ==> safe_name(s)[i] == s[i],
        !(('a' <= s[i] && s[i] <= 'z') || ('A' <= s[i] && s[i] <= 'Z') || ('0' <= s[i] && s[i]
            <= '9')) ==> safe_name(s)[i] == '_',
{
}

/// An exit code is told as a number with its sign, and its absence as such.
pub proof fn exit_codes_are_told(c: i32)
    ensures
        exit_text(None) == "None"@,
        0 <= c ==> exit_text(Some(c)) == "Some("@ + decimal(c as nat) + ")"@,
        c < 0 ==> exit_text(Some(c)) == "Some(-"@ + decimal(-c as nat) + ")"@,
{
}

/// The message on a format that cannot be baked names it twice, and the format to convert
/// to goes by whether there are other inputs.
pub proof fn unsupported_formats_are_named(ext: Seq<char>)
    ensures
        unsupported_text(ext, true) == "unsupported format '."@ + ext
            + "' — supported: geojson, geojsonl, csv, shp\nTip: convert first with `ogr2ogr -f "@
            + "GeoJSON out.geojson"@ + " input."@ + ext + "`"@,
        unsupported_text(ext, false) == "unsupported format '."@ + ext
            + "' — supported: geojson, geojsonl, csv, shp\nTip: convert first with `ogr2ogr -f "@
            + "GeoJSONSeq out.geojsonl"@ + " input."@ + ext + "`"@,
{
}

} // verus!
