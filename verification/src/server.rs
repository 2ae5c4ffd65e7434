//! How requests for tiles are answered.

use vstd::prelude::*;
use vstd::utf8::encode_utf8;

use crate::archive::archive_holds;
use crate::auth::constant_time_eq;
use crate::directory::Entry;
use crate::header::{Compression, Header};
use crate::pmtiles::{bytes_held, opened, tile_read, PmtError, PmtErrorView, PmtReader};
use crate::text::{
    all_digits, chars_of, decimal, decimal_reads_back, ends_with, is_digit, listed_text,
    parse_unsigned, push_decimal, push_text, same_text, stands_at, text_of, text_views,
    unsigned_value,
};
use crate::tile_encode::{lemma_place_found, lemma_place_push, place};
use crate::tile_id::{side, tile_id};
use crate::tiling::grid_side;

verus! {

/// The media type of tiles.
pub const TILE_TYPE: &'static str = "application/vnd.mapbox-vector-tile";

/// How long tiles may be cached.
pub const TILE_CACHING: &'static str = "public, max-age=86400, immutable";

/// Which cross-origin requests are allowed.
pub enum CorsPolicy {
    /// None.
    DenyAll,
    /// All.
    AllowAll,
    /// Those from the origins in the list.
    Origins(Vec<String>),
}

/// Which cross-origin requests are allowed: none unless origins are configured,
/// and all if one of them is `*`.
pub fn cors_policy(origins: &Vec<String>) -> (p: CorsPolicy)
    ensures
        if origins@.len() == 0 {
            p is DenyAll
        } else if text_views(origins@).contains("*"@) {
            p is AllowAll
        } else {
            p matches CorsPolicy::Origins(v) && text_views(v@) == text_views(origins@)
        },
{
    if origins.len() == 0 {
        return CorsPolicy::DenyAll;
    }
    let any: bool = listed_text(origins, "*");
    proof {
        if any {
            let k = choose|k: int| 0 <= k < origins.len() && (#[trigger] origins@[k])@ == "*"@;
            assert(text_views(origins@)[k] == "*"@);
        } else if text_views(origins@).contains("*"@) {
            let k = choose|k: int| 0 <= k < origins.len() && text_views(origins@)[k] == "*"@;
            assert(origins@[k]@ == "*"@);
        }
    }
    if any {
        return CorsPolicy::AllowAll;
    }
    CorsPolicy::Origins(crate::fields::copy_texts(origins))
}

/// The entity tag of an archive.
pub open spec fn etag_text(min_zoom: u8, max_zoom: u8, tiles: u64) -> Seq<char> {
    "\"lm-"@ + decimal(min_zoom as nat) + "-"@ + decimal(max_zoom as nat) + "-"@ + decimal(
        tiles as nat,
    ) + "\""@
}

/// An archive that is served.
pub struct Tileset<'a> {
    reader: PmtReader<'a>,
    etag: String,
}

impl<'a> Tileset<'a> {
    /// The archive.
    pub closed spec fn archive(&self) -> PmtReader<'a> {
        self.reader
    }

    /// The entity tag of its tiles.
    pub closed spec fn tag(&self) -> Seq<char> {
        self.etag@
    }

    /// The entity tag is that of the archive.
    pub open spec fn wf(&self) -> bool {
        self.tag() == etag_text(
            self.archive().header().min_zoom,
            self.archive().header().max_zoom,
            self.archive().header().tile_entries,
        )
    }

    pub fn new(reader: PmtReader<'a>) -> (t: Tileset<'a>)
        ensures
            t.archive() == reader,
            t.wf(),
    {
        let mut etag = "\"lm-".to_owned();
        push_decimal(&mut etag, reader.min_zoom() as u64);
        push_text(&mut etag, "-");
        push_decimal(&mut etag, reader.max_zoom() as u64);
        push_text(&mut etag, "-");
        push_decimal(&mut etag, reader.tile_count());
        push_text(&mut etag, "\"");
        Tileset { reader, etag }
    }

    pub fn reader(&self) -> (r: &PmtReader<'a>)
        ensures
            *r == self.archive(),
    {
        &self.reader
    }

    pub fn etag(&self) -> (r: &str)
        ensures
            r@ == self.tag(),
    {
        self.etag.as_str()
    }
}

/// The names of the loaded archives.
pub open spec fn set_names<'a>(sets: Seq<(Seq<char>, Tileset<'a>)>) -> Seq<Seq<char>> {
    Seq::new(sets.len(), |i: int| sets[i].0)
}

/// The archives after one more has been loaded: one of the same name is replaced.
pub open spec fn with_set<'a>(
    sets: Seq<(Seq<char>, Tileset<'a>)>,
    name: Seq<char>,
    t: Tileset<'a>,
) -> Seq<(Seq<char>, Tileset<'a>)> {
    match place(set_names(sets), name) {
        Some(i) => sets.update(i, (name, t)),
        None => sets.push((name, t)),
    }
}

/// The archive with the given name.
pub open spec fn set_named<'a>(sets: Seq<(Seq<char>, Tileset<'a>)>, name: Seq<char>) -> Option<
    Tileset<'a>,
> {
    match place(set_names(sets), name) {
        Some(i) => Some(sets[i].1),
        None => None,
    }
}

/// A loaded archive is found under its name, and the others stay as they were.
pub proof fn loaded_sets_are_found<'a>(
    sets: Seq<(Seq<char>, Tileset<'a>)>,
    name: Seq<char>,
    t: Tileset<'a>,
    other: Seq<char>,
)
    ensures
        set_named(with_set(sets, name, t), name) == Some(t),
        other != name ==> set_named(with_set(sets, name, t), other) == set_named(sets, other),
{
    let names = set_names(sets);
    let next = with_set(sets, name, t);
    lemma_place_found(names, name);
    lemma_place_found(names, other);
    match place(names, name) {
        Some(i) => {
            assert(set_names(next) =~= names);
        },
        None => {
            assert(set_names(next) =~= names.push(name));
            lemma_place_push(names, name, name);
            lemma_place_push(names, name, other);
        },
    }
}

/// The loaded archives, in the order in which they were loaded.
pub struct Registry<'a> {
    names: Vec<String>,
    sets: Vec<Tileset<'a>>,
}

impl<'a> Registry<'a> {
    pub closed spec fn sets(&self) -> Seq<(Seq<char>, Tileset<'a>)> {
        Seq::new(self.names@.len(), |i: int| (self.names@[i]@, self.sets@[i]))
    }

    pub closed spec fn wf(&self) -> bool {
        self.names@.len() == self.sets@.len()
    }

    pub fn new() -> (r: Registry<'a>)
        ensures
            r.wf(),
            r.sets() == Seq::<(Seq<char>, Tileset<'a>)>::empty(),
    {
        let r = Registry { names: Vec::new(), sets: Vec::new() };
        assert(r.sets() =~= Seq::<(Seq<char>, Tileset<'a>)>::empty());
        r
    }

    fn position(&self, name: &str) -> (r: Option<usize>)
        requires
            self.wf(),
        ensures
            match place(set_names(self.sets()), name@) {
                Some(i) => r matches Some(k) && k == i && i < self.names@.len()
                    && self.names@[i]@ == name@,
                None => r is None,
            },
    {
        let ghost names = set_names(self.sets());
        proof {
            lemma_place_found(names, name@);
        }
        let mut i: usize = 0;
        while i < self.names.len()
            invariant
                i <= self.names.len(),
                names == set_names(self.sets()),
                forall|k: int| 0 <= k < i ==> names[k] != name@,
                match place(names, name@) {
                    Some(p) => 0 <= p < names.len() && names[p] == name@ && forall|q: int|
                        0 <= q < p ==> #[trigger] names[q] != name@,
                    None => forall|p: int| 0 <= p < names.len() ==> #[trigger] names[p] != name@,
                },
            decreases self.names.len() - i,
        {
            assert(names[i as int] == self.names@[i as int]@);
            if same_text(self.names[i].as_str(), name) {
                return Some(i);
            }
            i = i + 1;
        }
        None
    }

    /// Load an archive under a name; one of the same name is replaced.
    pub fn insert(&mut self, name: String, set: Tileset<'a>)
        requires
            old(self).wf(),
        ensures
            final(self).wf(),
            final(self).sets() == with_set(old(self).sets(), name@, set),
    {
        let ghost before = self.sets();
        match self.position(name.as_str()) {
            Some(i) => {
                self.sets.set(i, set);
                assert(self.sets() =~= before.update(i as int, (name@, set)));
            },
            None => {
                let ghost added = name@;
                self.names.push(name);
                self.sets.push(set);
                assert(self.sets() =~= before.push((added, set)));
            },
        }
    }

    /// The archive with the given name.
    pub fn get(&self, name: &str) -> (r: Option<&Tileset<'a>>)
        requires
            self.wf(),
        ensures
            match set_named(self.sets(), name@) {
                Some(t) => r matches Some(x) && *x == t,
                None => r is None,
            },
    {
        match self.position(name) {
            Some(i) => Some(&self.sets[i]),
            None => None,
        }
    }

    /// The names of the archives.
    pub fn names(&self) -> (r: &Vec<String>)
        requires
            self.wf(),
        ensures
            text_views(r@) == set_names(self.sets()),
    {
        assert(text_views(self.names@) =~= set_names(self.sets()));
        &self.names
    }

    /// The name of the archive that was loaded first; empty where there is none.
    pub fn first(&self) -> (r: String)
        requires
            self.wf(),
        ensures
            r@ == (if self.sets().len() == 0 {
                Seq::empty()
            } else {
                self.sets()[0].0
            }),
    {
        if self.names.len() == 0 {
            let r = String::new();
            assert(r@ =~= Seq::<char>::empty());
            r
        } else {
            self.names[0].clone()
        }
    }
}

/// The address of the tiles of an archive, with places for the zoom level, the
/// column and the row.
pub fn tiles_url(base: &str, set: &str) -> (r: String)
    ensures
        r@ == base@ + "/tiles/"@ + set@ + "/{z}/{x}/{y}.mvt"@,
{
    let mut r = base.to_owned();
    push_text(&mut r, "/tiles/");
    push_text(&mut r, set);
    push_text(&mut r, "/{z}/{x}/{y}.mvt");
    r
}

/// The row as it is asked for, without the extension `.mvt`.
pub open spec fn without_extension(raw: Seq<char>) -> Seq<char> {
    if ends_with(raw, ".mvt"@) {
        raw.take(raw.len() - 4)
    } else {
        raw
    }
}

/// The row that is asked for.
pub open spec fn requested_row(raw: Seq<char>) -> Option<int> {
    unsigned_value(without_extension(raw), u32::MAX as int)
}

/// The row that is asked for, with or without the extension `.mvt`.
pub fn parse_row(raw: &str) -> (r: Option<u32>)
    ensures
        match requested_row(raw@) {
            Some(y) => r matches Some(v) && v == y,
            None => r is None,
        },
{
    let v = chars_of(raw);
    let ext = chars_of(".mvt");
    proof {
        reveal_strlit(".mvt");
    }
    let end: usize = if v.len() >= 4 && stands_at(&v, &ext, v.len() - 4) {
        v.len() - 4
    } else {
        v.len()
    };
    proof {
        if v.len() >= 4 {
            assert(v@.subrange(v.len() - 4, v.len() as int) =~= raw@.skip(raw@.len() - 4));
        }
        assert(v@.subrange(0, end as int) =~= without_extension(raw@));
    }
    let digits = text_of(&v, 0, end);
    match parse_unsigned(digits.as_str(), 0xffff_ffff) {
        Some(y) => Some(y as u32),
        None => None,
    }
}

/// The number of columns and rows that can be asked for at a zoom level.
pub open spec fn grid_limit(z: u8) -> int {
    if z <= 31 {
        side(z as nat)
    } else {
        0
    }
}

/// The tile can be asked for.
pub open spec fn is_valid_request(max_zoom: u8, z: u8, x: u32, y: int) -> bool {
    z <= max_zoom && x < grid_limit(z) && y < grid_limit(z)
}

/// The content encoding that goes with a compression.
pub open spec fn encoding_label(c: Compression) -> Option<Seq<char>> {
    match c {
        Compression::Gzip => Some("gzip"@),
        Compression::Brotli => Some("br"@),
        _ => None,
    }
}

/// The content encoding that goes with a compression.
pub fn content_encoding(c: Compression) -> (r: Option<&'static str>)
    ensures
        match encoding_label(c) {
            Some(s) => r matches Some(x) && x@ == s,
            None => r is None,
        },
{
    match c {
        Compression::Gzip => Some("gzip"),
        Compression::Brotli => Some("br"),
        _ => None,
    }
}

/// The answer to a request for a tile.
pub enum TileAnswer {
    /// The request is malformed or out of range.
    BadRequest,
    /// There is no such archive.
    UnknownSet,
    /// The client has the tile; with its entity tag.
    NotModified { etag: String },
    /// The tile, its content encoding and its entity tag.
    Tile { data: bytes::Bytes, encoding: Option<&'static str>, etag: String },
    /// The archive has no such tile; with the entity tag of the archive.
    NoContent { etag: String },
    /// The archive could not be read.
    Failed(PmtError),
}

/// An answer as mathematical values.
pub enum AnswerView {
    BadRequest,
    UnknownSet,
    NotModified { etag: Seq<char> },
    Tile { data: Seq<u8>, encoding: Option<Seq<char>>, etag: Seq<char> },
    NoContent { etag: Seq<char> },
    Failed(PmtErrorView),
}

impl View for TileAnswer {
    type V = AnswerView;

    open spec fn view(&self) -> AnswerView {
        match *self {
            TileAnswer::BadRequest => AnswerView::BadRequest,
            TileAnswer::UnknownSet => AnswerView::UnknownSet,
            TileAnswer::NotModified { etag } => AnswerView::NotModified { etag: etag@ },
            TileAnswer::Tile { data, encoding, etag } => AnswerView::Tile {
                data: bytes_held(data),
                encoding: match encoding {
                    Some(s) => Some(s@),
                    None => None,
                },
                etag: etag@,
            },
            TileAnswer::NoContent { etag } => AnswerView::NoContent { etag: etag@ },
            TileAnswer::Failed(e) => AnswerView::Failed(e@),
        }
    }
}

/// The answer to what reading a tile gave.
pub open spec fn reading_answered(
    read: Result<Seq<u8>, PmtErrorView>,
    compression: Compression,
    etag: Seq<char>,
) -> AnswerView {
    match read {
        Ok(data) => AnswerView::Tile { data, encoding: encoding_label(compression), etag },
        Err(PmtErrorView::TileNotFound { .. }) => AnswerView::NoContent { etag },
        Err(e) => AnswerView::Failed(e),
    }
}

/// The answer to a request for a tile of `set`; nothing where the archive points
/// outside itself or at a number beyond 64 bits.
pub open spec fn answered<'a>(
    set: Option<Tileset<'a>>,
    max_zoom: u8,
    z: u8,
    x: u32,
    y_raw: Seq<char>,
    if_none_match: Option<Seq<u8>>,
) -> Option<AnswerView> {
    match requested_row(y_raw) {
        None => Some(AnswerView::BadRequest),
        Some(y) => if !is_valid_request(max_zoom, z, x, y) {
            Some(AnswerView::BadRequest)
        } else {
            match set {
                None => Some(AnswerView::UnknownSet),
                Some(t) => if if_none_match == Some(encode_utf8(t.tag())) {
                    Some(AnswerView::NotModified { etag: t.tag() })
                } else {
                    let r = t.archive();
                    match tile_read(r.archive(), r.header(), r.root(), z, x, y as u32) {
                        None => None,
                        Some(read) => Some(
                            reading_answered(read, r.header().tile_compression, t.tag()),
                        ),
                    }
                },
            }
        },
    }
}

/// The row that is asked for by its number in decimal, with the extension or without,
/// is that row.
pub proof fn rows_are_asked_for_by_number(y: u32)
    ensures
        requested_row(decimal(y as nat)) == Some(y as int),
        requested_row(decimal(y as nat) + ".mvt"@) == Some(y as int),
{
    reveal_strlit(".mvt");
    let digits = decimal(y as nat);
    let named = digits + ".mvt"@;
    decimal_reads_back(y as nat, u32::MAX as int);
    assert(named.skip(named.len() - 4) =~= ".mvt"@);
    assert(named.take(named.len() - 4) =~= digits);
    if ends_with(digits, ".mvt"@) {
        let end = digits.skip(digits.len() - 4);
        assert(end[0] == '.');
        assert(is_digit(digits[digits.len() - 4]));
    }
}

/// The tile that is served for a zoom, a column and a row, in this order, is the one
/// that the archive holds under the identifier of these: a valid request without the
/// entity tag of the archive is answered with just that tile, and with no content if
/// the archive holds none. The content encoding is that of the archive's tiles.
pub proof fn the_tile_that_was_put_in_is_served<'a>(
    set: Tileset<'a>,
    text: Seq<char>,
    tile: spec_fn(u64) -> Option<Seq<u8>>,
    max_zoom: u8,
    z: u8,
    x: u32,
    y: u32,
    y_raw: Seq<char>,
    if_none_match: Option<Seq<u8>>,
)
    requires
        opened(set.archive().archive()) == Some(
            Ok::<(Header, Seq<Entry>), PmtErrorView>(
                (set.archive().header(), set.archive().root()),
            ),
        ),
        archive_holds(set.archive().archive(), set.archive().header(), text, tile),
        y_raw == decimal(y as nat) || y_raw == decimal(y as nat) + ".mvt"@,
        z <= max_zoom && z <= 31 && x < side(z as nat) && y < side(z as nat),
        if_none_match != Some(encode_utf8(set.tag())),
    ensures
        match tile(tile_id(z as nat, x as int, y as int) as u64) {
            Some(data) => answered(Some(set), max_zoom, z, x, y_raw, if_none_match) == Some(
                AnswerView::Tile {
                    data,
                    encoding: if set.archive().header().tile_compression == Compression::Gzip {
                        Some("gzip"@)
                    } else if set.archive().header().tile_compression == Compression::Brotli {
                        Some("br"@)
                    } else {
                        None
                    },
                    etag: set.tag(),
                },
            ),
            None => answered(Some(set), max_zoom, z, x, y_raw, if_none_match) == Some(
                AnswerView::NoContent { etag: set.tag() },
            ),
        },
{
    rows_are_asked_for_by_number(y);
    let r = set.archive();
    assert(tile_read(r.archive(), r.header(), r.root(), z, x, y) is Some);
}

/// A request is refused exactly if its row is no number, its zoom is beyond the deepest
/// one, or its column or row does not exist at that zoom, whatever archive it is for
/// and whatever tag comes with it; an archive is unknown only to a request that is not
/// refused.
pub proof fn only_requests_off_the_grid_are_refused<'a>(
    set: Option<Tileset<'a>>,
    max_zoom: u8,
    z: u8,
    x: u32,
    y_raw: Seq<char>,
    if_none_match: Option<Seq<u8>>,
)
    ensures
        ({
            let a = answered(set, max_zoom, z, x, y_raw, if_none_match);
            let off = requested_row(y_raw) is None || z > max_zoom || z > 31 || x >= side(
                z as nat,
            ) || requested_row(y_raw)->0 >= side(z as nat);
            &&& a == Some(AnswerView::BadRequest) <==> off
            &&& a == Some(AnswerView::UnknownSet) <==> !off && set is None
        }),
{
}

proof fn lemma_digits_then_dash(a: Seq<char>, r: Seq<char>, b: Seq<char>, t: Seq<char>)
    requires
        all_digits(a),
        all_digits(b),
        a + seq!['-'] + r == b + seq!['-'] + t,
    ensures
        a == b,
        r == t,
{
    let x = a + seq!['-'] + r;
    let y = b + seq!['-'] + t;
    assert(x[a.len() as int] == '-');
    assert(y[b.len() as int] == '-');
    if a.len() < b.len() {
        assert(y[a.len() as int] == b[a.len() as int]);
        assert(is_digit(b[a.len() as int]));
    }
    if b.len() < a.len() {
        assert(x[b.len() as int] == a[b.len() as int]);
        assert(is_digit(a[b.len() as int]));
    }
    assert(a =~= x.take(a.len() as int));
    assert(b =~= y.take(b.len() as int));
    assert(r =~= x.skip(a.len() as int + 1));
    assert(t =~= y.skip(b.len() as int + 1));
}

/// Entity tags tell archives apart that differ in their zooms or in their number of
/// tiles.
pub proof fn entity_tags_tell_archives_apart(
    min: u8,
    max: u8,
    tiles: u64,
    other_min: u8,
    other_max: u8,
    other_tiles: u64,
)
    requires
        etag_text(min, max, tiles) == etag_text(other_min, other_max, other_tiles),
    ensures
        min == other_min && max == other_max && tiles == other_tiles,
{
    reveal_strlit("\"lm-");
    reveal_strlit("-");
    reveal_strlit("\"");
    assert("-"@ =~= seq!['-']);
    assert("\""@ =~= seq!['"']);
    let (a, b, c) = (decimal(min as nat), decimal(max as nat), decimal(tiles as nat));
    let (d, e, f) = (
        decimal(other_min as nat),
        decimal(other_max as nat),
        decimal(other_tiles as nat),
    );
    decimal_reads_back(min as nat, 0);
    decimal_reads_back(max as nat, 0);
    decimal_reads_back(tiles as nat, 0);
    decimal_reads_back(other_min as nat, 0);
    decimal_reads_back(other_max as nat, 0);
    decimal_reads_back(other_tiles as nat, 0);
    let x = etag_text(min, max, tiles);
    let y = etag_text(other_min, other_max, other_tiles);
    let n = "\"lm-"@.len() as int;
    assert(x.skip(n) =~= a + seq!['-'] + (b + seq!['-'] + (c + seq!['"'])));
    assert(y.skip(n) =~= d + seq!['-'] + (e + seq!['-'] + (f + seq!['"'])));
    lemma_digits_then_dash(
        a,
        b + seq!['-'] + (c + seq!['"']),
        d,
        e + seq!['-'] + (f + seq!['"']),
    );
    lemma_digits_then_dash(b, c + seq!['"'], e, f + seq!['"']);
    assert((c + seq!['"']).drop_last() =~= c);
    assert((f + seq!['"']).drop_last() =~= f);
}

/// A client that sends back the entity tag of a tile it was given is told that the
/// tile has not changed.
pub proof fn served_etag_revalidates<'a>(
    set: Option<Tileset<'a>>,
    max_zoom: u8,
    z: u8,
    x: u32,
    y_raw: Seq<char>,
    if_none_match: Option<Seq<u8>>,
)
    requires
        answered(set, max_zoom, z, x, y_raw, if_none_match) matches Some(AnswerView::Tile { .. }),
    ensures
        answered(set, max_zoom, z, x, y_raw, if_none_match) matches Some(
            AnswerView::Tile { etag, .. },
        ) && answered(set, max_zoom, z, x, y_raw, Some(encode_utf8(etag))) == Some(
            AnswerView::NotModified { etag },
        ),
{
}

/// Answer a request for a tile.
pub fn answer_tile<'a>(
    set: Option<&Tileset<'a>>,
    max_zoom: u8,
    z: u8,
    x: u32,
    y_raw: &str,
    if_none_match: Option<&[u8]>,
) -> (r: Option<TileAnswer>)
    requires
        max_zoom <= 63,
    ensures
        match answered(
            match set {
                Some(t) => Some(*t),
                None => None,
            },
            max_zoom,
            z,
            x,
            y_raw@,
            match if_none_match {
                Some(b) => Some(b@),
                None => None,
            },
        ) {
            Some(a) => r matches Some(v) && v@ == a,
            None => r is None,
        },
{
    let y: u32 = match parse_row(y_raw) {
        Some(y) => y,
        None => {
            return Some(TileAnswer::BadRequest);
        },
    };
    if z > max_zoom || z > 31 {
        return Some(TileAnswer::BadRequest);
    }
    let limit: u32 = grid_side(z);
    if x >= limit || y >= limit {
        return Some(TileAnswer::BadRequest);
    }
    match set {
        None => Some(TileAnswer::UnknownSet),
        Some(t) => {
            let etag = t.etag.as_str().as_bytes();
            if let Some(tag) = if_none_match {
                if constant_time_eq(tag, etag) {
                    return Some(TileAnswer::NotModified { etag: t.etag.clone() });
                }
            }
            match t.reader.try_get_tile(z, x, y) {
                None => None,
                Some(Ok(tile)) => Some(
                    TileAnswer::Tile {
                        data: tile.data,
                        encoding: content_encoding(tile.compression),
                        etag: t.etag.clone(),
                    },
                ),
                Some(Err(e)) => Some(answer_error(e, t.etag.as_str())),
            }
        },
    }
}

fn answer_error(e: PmtError, etag: &str) -> (r: TileAnswer)
    ensures
        r@ == (match e@ {
            PmtErrorView::TileNotFound { .. } => AnswerView::NoContent { etag: etag@ },
            x => AnswerView::Failed(x),
        }),
{
    let missing: bool = match &e {
        PmtError::TileNotFound { .. } => true,
        _ => false,
    };
    if missing {
        TileAnswer::NoContent { etag: etag.to_owned() }
    } else {
        TileAnswer::Failed(e)
    }
}

/// The status code of an answer.
pub open spec fn status_of(a: AnswerView) -> u16 {
    match a {
        AnswerView::BadRequest => 400,
        AnswerView::UnknownSet => 404,
        AnswerView::NotModified { .. } => 304,
        AnswerView::Tile { .. } => 200,
        AnswerView::NoContent { .. } => 204,
        AnswerView::Failed(_) => 500,
    }
}

/// The headers by which an answer is cached.
pub struct CachingHeaders {
    pub cache_control: &'static str,
    pub etag: String,
    pub vary: &'static str,
}

/// The headers by which an answer is cached, as sequences.
#[verifier::ext_equal]
pub struct CachingView {
    pub cache_control: Seq<char>,
    pub etag: Seq<char>,
    pub vary: Seq<char>,
}

impl View for CachingHeaders {
    type V = CachingView;

    open spec fn view(&self) -> CachingView {
        CachingView {
            cache_control: self.cache_control@,
            etag: self.etag@,
            vary: self.vary@,
        }
    }
}

/// The caching headers of what an archive with the given entity tag answers.
pub open spec fn caching_for(etag: Seq<char>) -> CachingView {
    CachingView {
        cache_control: "public, max-age=86400, immutable"@,
        etag,
        vary: "Accept-Encoding"@,
    }
}

/// The caching headers of an answer. A refused request has none, nor has a failure.
pub open spec fn caching_of(a: AnswerView) -> Option<CachingView> {
    match a {
        AnswerView::NotModified { etag } => Some(caching_for(etag)),
        AnswerView::Tile { etag, .. } => Some(caching_for(etag)),
        AnswerView::NoContent { etag } => Some(caching_for(etag)),
        _ => None,
    }
}

/// Every answer of an archive carries the caching headers with the entity tag of the
/// archive, whether the tile is given, missing or known to the client.
pub proof fn tile_answers_are_cached<'a>(
    set: Tileset<'a>,
    max_zoom: u8,
    z: u8,
    x: u32,
    y_raw: Seq<char>,
    if_none_match: Option<Seq<u8>>,
)
    ensures
        answered(Some(set), max_zoom, z, x, y_raw, if_none_match) matches Some(a) ==> {
            status_of(a) == 200 || status_of(a) == 204 || status_of(a) == 304
        } ==> caching_of(a) == Some(caching_for(set.tag())),
{
}

impl TileAnswer {
    /// The headers by which the answer is cached.
    pub fn caching(&self) -> (r: Option<CachingHeaders>)
        ensures
            match caching_of(self@) {
                Some(h) => r matches Some(v) && v@ == h,
                None => r is None,
            },
    {
        let etag: &String = match self {
            TileAnswer::NotModified { etag } => etag,
            TileAnswer::Tile { etag, .. } => etag,
            TileAnswer::NoContent { etag } => etag,
            _ => {
                return None;
            },
        };
        Some(
            CachingHeaders {
                cache_control: TILE_CACHING,
                etag: etag.clone(),
                vary: "Accept-Encoding",
            },
        )
    }

    /// The status code of the answer.
    pub fn status(&self) -> (r: u16)
        ensures
            r == status_of(self@),
    {
        match self {
            TileAnswer::BadRequest => 400,
            TileAnswer::UnknownSet => 404,
            TileAnswer::NotModified { .. } => 304,
            TileAnswer::Tile { .. } => 200,
            TileAnswer::NoContent { .. } => 204,
            TileAnswer::Failed(_) => 500,
        }
    }

    /// Whether the answer counts in the metrics: those that reached the archive.
    pub fn is_counted(&self) -> (r: bool)
        ensures
            r == !(self@ is BadRequest || self@ is UnknownSet),
    {
        match self {
            TileAnswer::BadRequest => false,
            TileAnswer::UnknownSet => false,
            _ => true,
        }
    }
}

/// Answers have the status codes of their kinds, and those that come from an archive may
/// be cached for a day, each under its entity tag.
pub proof fn answers_have_their_status(a: AnswerView, etag: Seq<char>)
    ensures
        status_of(a) == (if a is Tile {
            200u16
        } else if a is NoContent {
            204
        } else if a is NotModified {
            304
        } else if a is BadRequest {
            400
        } else if a is UnknownSet {
            404
        } else {
            500
        }),
        caching_of(a) is Some <==> a is Tile || a is NoContent || a is NotModified,
        caching_for(etag) == (CachingView {
            cache_control: "public, max-age=86400, immutable"@,
            etag,
            vary: "Accept-Encoding"@,
        }),
{
}

/// Only what is gzipped or compressed with Brotli is served with a content encoding, each
/// with its own; what an archive says of a tile that it lacks is answered with no content.
pub proof fn encodings_are_named(
    c: Compression,
    data: Seq<u8>,
    etag: Seq<char>,
    z: u8,
    x: u32,
    y: u32,
)
    ensures
        encoding_label(c) is Some <==> c == Compression::Gzip || c == Compression::Brotli,
        c == Compression::Gzip ==> encoding_label(c) == Some("gzip"@),
        c == Compression::Brotli ==> encoding_label(c) == Some("br"@),
        reading_answered(Ok(data), c, etag) == (AnswerView::Tile {
            data,
            encoding: encoding_label(c),
            etag,
        }),
        reading_answered(Err(PmtErrorView::TileNotFound { z, x, y }), c, etag) == (
        AnswerView::NoContent { etag }),
{
}

/// A row is a number with or without its extension, and nothing else is one.
pub proof fn rows_are_numbers(raw: Seq<char>)
    ensures
        requested_row(raw + ".mvt"@) == unsigned_value(raw, u32::MAX as int),
        !(raw.len() >= 4 && raw.skip(raw.len() - 4) == seq!['.', 'm', 'v', 't'])
            ==> requested_row(raw) == unsigned_value(raw, u32::MAX as int),
{
    reveal_strlit(".mvt");
    assert(".mvt"@ =~= seq!['.', 'm', 'v', 't']);
    let full = raw + ".mvt"@;
    assert(full.skip(full.len() - 4) =~= ".mvt"@);
    assert(full.take(full.len() - 4) =~= raw);
}

/// Of a set that is known, exactly those who name its entity tag are told that nothing has
/// changed, whichever tile on the grid they ask for.
pub proof fn only_known_tags_are_not_modified<'a>(
    set: Tileset<'a>,
    max_zoom: u8,
    z: u8,
    x: u32,
    y: u32,
    if_none_match: Option<Seq<u8>>,
)
    requires
        z <= max_zoom && z <= 31 && x < side(z as nat) && y < side(z as nat),
    ensures
        answered(Some(set), max_zoom, z, x, decimal(y as nat), if_none_match) == Some(
            AnswerView::NotModified { etag: set.tag() },
        ) <==> if_none_match == Some(encode_utf8(set.tag())),
        answered(Some(set), max_zoom, z, x, decimal(y as nat), if_none_match) matches Some(
            AnswerView::NotModified { etag },
        ) ==> etag == set.tag(),
{
    rows_are_asked_for_by_number(y);
}

} // verus!
