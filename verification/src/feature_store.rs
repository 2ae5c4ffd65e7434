//! The feature store: features as records in one byte sequence, found through
//! a small index entry each.
//!
//! A record is a tag for the kind of geometry, the coordinates with their
//! counts, and the properties as JSON with their length in front.

use vstd::prelude::*;
use vstd::utf8::encode_utf8;

use crate::error::{BakeError, BakeErrorView};
use crate::geometry::{
    line_shapes, polygon_shapes, shape_of, storable_shape, Coord, Geometry, Polygon, PolygonShape,
    Shape,
};
use crate::ingest::prop_pairs;
use crate::json_text::{
    are_plain, object_parsed, object_text, parse_object, props_read, read_props,
};
use crate::le::{
    le_bytes, lemma_le_bytes_len, lemma_u32_at, lemma_u64_at, low32, read_u32_le, read_u64_le,
    u32_at, u64_at, write_u32_le, write_u64_le,
};
use crate::number::{equal, same};
use crate::props::PropValue;
use crate::text::{decimal, push_decimal};

verus! {

pub open spec fn coord_bytes(c: Coord) -> Seq<u8> {
    le_bytes(c.x as int, 8) + le_bytes(c.y as int, 8)
}

pub open spec fn coords_bytes(cs: Seq<Coord>) -> Seq<u8>
    decreases cs.len(),
{
    if cs.len() == 0 {
        Seq::empty()
    } else {
        coords_bytes(cs.drop_last()) + coord_bytes(cs.last())
    }
}

pub open spec fn count_bytes(n: nat) -> Seq<u8> {
    le_bytes(low32(n as int) as int, 4)
}

/// A counted row of coordinates.
pub open spec fn line_bytes(cs: Seq<Coord>) -> Seq<u8> {
    count_bytes(cs.len()) + coords_bytes(cs)
}

pub open spec fn lines_bytes(ls: Seq<Seq<Coord>>) -> Seq<u8>
    decreases ls.len(),
{
    if ls.len() == 0 {
        Seq::empty()
    } else {
        lines_bytes(ls.drop_last()) + line_bytes(ls.last())
    }
}

/// The outer ring, then the counted holes.
pub open spec fn polygon_bytes(p: PolygonShape<Coord>) -> Seq<u8> {
    line_bytes(p.exterior) + count_bytes(p.interiors.len()) + lines_bytes(p.interiors)
}

pub open spec fn polygons_bytes(ps: Seq<PolygonShape<Coord>>) -> Seq<u8>
    decreases ps.len(),
{
    if ps.len() == 0 {
        Seq::empty()
    } else {
        polygons_bytes(ps.drop_last()) + polygon_bytes(ps.last())
    }
}

/// The stored form of a shape.
pub open spec fn shape_bytes(s: Shape<Coord>) -> Seq<u8> {
    match s {
        Shape::Point(c) => seq![1u8] + coord_bytes(c),
        Shape::LineString(cs) => seq![2u8] + line_bytes(cs),
        Shape::Polygon(p) => seq![3u8] + polygon_bytes(p),
        Shape::MultiPoint(cs) => seq![4u8] + line_bytes(cs),
        Shape::MultiLineString(ls) => seq![5u8] + count_bytes(ls.len()) + lines_bytes(ls),
        Shape::MultiPolygon(ps) => seq![6u8] + count_bytes(ps.len()) + polygons_bytes(ps),
    }
}

/// The point that stands for a geometry without any.
pub open spec fn origin() -> Coord {
    Coord { x: 0, y: 0 }
}

pub open spec fn count_read(b: Seq<u8>, pos: int) -> Option<(int, int)> {
    if pos + 4 <= b.len() {
        Some((u32_at(b, pos) as int, pos + 4))
    } else {
        None
    }
}

pub open spec fn coord_read(b: Seq<u8>, pos: int) -> Option<(Coord, int)> {
    if pos + 16 <= b.len() {
        Some((Coord { x: u64_at(b, pos), y: u64_at(b, pos + 8) }, pos + 16))
    } else {
        None
    }
}

pub open spec fn coords_read(b: Seq<u8>, pos: int, n: int) -> Option<(Seq<Coord>, int)>
    decreases n,
{
    if n <= 0 {
        Some((Seq::empty(), pos))
    } else {
        match coords_read(b, pos, n - 1) {
            None => None,
            Some((cs, p)) => match coord_read(b, p) {
                None => None,
                Some((c, q)) => Some((cs.push(c), q)),
            },
        }
    }
}

pub open spec fn line_read(b: Seq<u8>, pos: int) -> Option<(Seq<Coord>, int)> {
    match count_read(b, pos) {
        None => None,
        Some((n, p)) => coords_read(b, p, n),
    }
}

pub open spec fn lines_read(b: Seq<u8>, pos: int, n: int) -> Option<(Seq<Seq<Coord>>, int)>
    decreases n,
{
    if n <= 0 {
        Some((Seq::empty(), pos))
    } else {
        match lines_read(b, pos, n - 1) {
            None => None,
            Some((ls, p)) => match line_read(b, p) {
                None => None,
                Some((l, q)) => Some((ls.push(l), q)),
            },
        }
    }
}

/// The ring ends where it starts. An empty one counts as closed.
pub open spec fn is_closed(cs: Seq<Coord>) -> bool {
    cs.len() == 0 || equal(cs[0].x, cs.last().x) && equal(cs[0].y, cs.last().y)
}

/// The ring, closed where it is open.
pub open spec fn closed_ring(cs: Seq<Coord>) -> Seq<Coord> {
    if is_closed(cs) {
        cs
    } else {
        cs.push(cs[0])
    }
}

/// The rings, closed where they are open.
pub open spec fn closed_rings(ls: Seq<Seq<Coord>>) -> Seq<Seq<Coord>> {
    Seq::new(ls.len(), |i: int| closed_ring(ls[i]))
}

/// The polygon with closed rings.
pub open spec fn closed_polygon(p: PolygonShape<Coord>) -> PolygonShape<Coord> {
    PolygonShape { exterior: closed_ring(p.exterior), interiors: closed_rings(p.interiors) }
}

/// The shape, its polygons with closed rings.
pub open spec fn closed_shape(s: Shape<Coord>) -> Shape<Coord> {
    match s {
        Shape::Polygon(p) => Shape::Polygon(closed_polygon(p)),
        Shape::MultiPolygon(ps) => Shape::MultiPolygon(
            Seq::new(ps.len(), |i: int| closed_polygon(ps[i])),
        ),
        _ => s,
    }
}

/// All rings of the polygon are closed.
pub open spec fn polygon_is_closed(p: PolygonShape<Coord>) -> bool {
    is_closed(p.exterior) && forall|i: int|
        0 <= i < p.interiors.len() ==> is_closed(#[trigger] p.interiors[i])
}

/// All rings of the shape's polygons are closed.
pub open spec fn shape_is_closed(s: Shape<Coord>) -> bool {
    match s {
        Shape::Polygon(p) => polygon_is_closed(p),
        Shape::MultiPolygon(ps) => forall|i: int|
            0 <= i < ps.len() ==> polygon_is_closed(#[trigger] ps[i]),
        _ => true,
    }
}

proof fn lemma_closed_polygon(p: PolygonShape<Coord>)
    requires
        polygon_is_closed(p),
    ensures
        closed_polygon(p) == p,
{
    assert(closed_rings(p.interiors) =~= p.interiors);
}

/// Closed rings stay as they are.
pub proof fn closed_shapes_stay(s: Shape<Coord>)
    requires
        shape_is_closed(s),
    ensures
        closed_shape(s) == s,
{
    match s {
        Shape::Polygon(p) => {
            lemma_closed_polygon(p);
        },
        Shape::MultiPolygon(ps) => {
            let closed = Seq::new(ps.len(), |i: int| closed_polygon(ps[i]));
            assert forall|i: int| 0 <= i < ps.len() implies closed[i] == ps[i] by {
                lemma_closed_polygon(ps[i]);
            }
            assert(closed =~= ps);
        },
        _ => {},
    }
}

/// Closing a ring adds at most its first point at the end, and nothing to a ring that
/// ends where it starts; a ring of numbers is closed then.
pub proof fn closing_adds_the_first_point(cs: Seq<Coord>)
    ensures
        cs.len() == 0 ==> closed_ring(cs) == cs,
        cs.len() > 0 && cs[0] == cs.last() && equal(cs[0].x, cs[0].x) && equal(cs[0].y, cs[0].y)
            ==> closed_ring(cs) == cs,
        closed_ring(cs) == cs || closed_ring(cs) == cs.push(cs[0]),
        cs.len() > 0 && equal(cs[0].x, cs[0].x) && equal(cs[0].y, cs[0].y) ==> equal(
            closed_ring(cs)[0].x,
            closed_ring(cs).last().x,
        ) && equal(closed_ring(cs)[0].y, closed_ring(cs).last().y),
{
}

/// The polygon at `pos`, and where it ends. Open rings are closed.
pub open spec fn polygon_read(b: Seq<u8>, pos: int) -> Option<(PolygonShape<Coord>, int)> {
    match line_read(b, pos) {
        None => None,
        Some((exterior, p)) => match count_read(b, p) {
            None => None,
            Some((n, q)) => match lines_read(b, q, n) {
                None => None,
                Some((interiors, e)) => Some(
                    (closed_polygon(PolygonShape { exterior, interiors }), e),
                ),
            },
        },
    }
}

pub open spec fn polygons_read(b: Seq<u8>, pos: int, n: int) -> Option<
    (Seq<PolygonShape<Coord>>, int),
>
    decreases n,
{
    if n <= 0 {
        Some((Seq::empty(), pos))
    } else {
        match polygons_read(b, pos, n - 1) {
            None => None,
            Some((ps, p)) => match polygon_read(b, p) {
                None => None,
                Some((g, q)) => Some((ps.push(g), q)),
            },
        }
    }
}

/// The body of a shape with the given tag.
pub open spec fn body_read(b: Seq<u8>, pos: int, tag: u8) -> Option<(Shape<Coord>, int)> {
    if tag == 1 {
        match coord_read(b, pos) {
            None => None,
            Some((c, p)) => Some((Shape::Point(c), p)),
        }
    } else if tag == 2 {
        match line_read(b, pos) {
            None => None,
            Some((cs, p)) => Some((Shape::LineString(cs), p)),
        }
    } else if tag == 3 {
        match polygon_read(b, pos) {
            None => None,
            Some((g, p)) => Some((Shape::Polygon(g), p)),
        }
    } else if tag == 4 {
        match line_read(b, pos) {
            None => None,
            Some((cs, p)) => Some((Shape::MultiPoint(cs), p)),
        }
    } else {
        match count_read(b, pos) {
            None => None,
            Some((n, p)) => if tag == 5 {
                match lines_read(b, p, n) {
                    None => None,
                    Some((ls, q)) => Some((Shape::MultiLineString(ls), q)),
                }
            } else {
                match polygons_read(b, p, n) {
                    None => None,
                    Some((ps, q)) => Some((Shape::MultiPolygon(ps), q)),
                }
            },
        }
    }
}

/// The error for bytes that break off.
pub open spec fn underrun() -> BakeErrorView {
    BakeErrorView::Encode("store underrun"@)
}

/// What reading a shape at `pos` gives: the shape and the position behind it.
pub open spec fn shape_read(b: Seq<u8>, pos: int) -> Result<(Shape<Coord>, int), BakeErrorView> {
    if pos >= b.len() {
        Err(underrun())
    } else if b[pos] < 1 || b[pos] > 6 {
        Err(BakeErrorView::Encode("bad geometry tag "@ + decimal(b[pos] as nat)))
    } else {
        match body_read(b, pos + 1, b[pos]) {
            None => Err(underrun()),
            Some(r) => Ok(r),
        }
    }
}

/// `part` stands in `b` at `pos`.
pub open spec fn stands(b: Seq<u8>, pos: int, part: Seq<u8>) -> bool {
    0 <= pos && pos + part.len() <= b.len() && b.subrange(pos, pos + part.len()) == part
}

pub(crate) proof fn lemma_stands_split(b: Seq<u8>, pos: int, x: Seq<u8>, y: Seq<u8>)
    requires
        stands(b, pos, x + y),
    ensures
        stands(b, pos, x),
        stands(b, pos + x.len(), y),
{
    let w = b.subrange(pos, pos + x.len() + y.len());
    assert(b.subrange(pos, pos + x.len()) =~= x) by {
        assert forall|i: int| 0 <= i < x.len() implies b.subrange(pos, pos + x.len())[i] == x[i] by {
            assert(w[i] == (x + y)[i]);
        }
    }
    let p = pos + x.len();
    assert(b.subrange(p, p + y.len()) =~= y) by {
        assert forall|i: int| 0 <= i < y.len() implies b.subrange(p, p + y.len())[i] == y[i] by {
            assert(w[x.len() + i] == (x + y)[x.len() + i]);
        }
    }
}

pub(crate) proof fn lemma_count_read(b: Seq<u8>, pos: int, n: nat)
    requires
        stands(b, pos, count_bytes(n)),
        n <= u32::MAX,
    ensures
        count_read(b, pos) == Some((n as int, pos + 4)),
        count_bytes(n).len() == 4,
{
    lemma_le_bytes_len(low32(n as int) as int, 4);
    lemma_u32_at(b, pos, n as u32);
}

pub(crate) proof fn lemma_coord_read(b: Seq<u8>, pos: int, c: Coord)
    requires
        stands(b, pos, coord_bytes(c)),
    ensures
        coord_read(b, pos) == Some((c, pos + coord_bytes(c).len())),
{
    lemma_le_bytes_len(c.x as int, 8);
    lemma_le_bytes_len(c.y as int, 8);
    lemma_stands_split(b, pos, le_bytes(c.x as int, 8), le_bytes(c.y as int, 8));
    lemma_u64_at(b, pos, c.x);
    lemma_u64_at(b, pos + 8, c.y);
}

proof fn lemma_coords_read(b: Seq<u8>, pos: int, cs: Seq<Coord>)
    requires
        stands(b, pos, coords_bytes(cs)),
    ensures
        coords_read(b, pos, cs.len() as int) == Some((cs, pos + coords_bytes(cs).len())),
    decreases cs.len(),
{
    if cs.len() > 0 {
        let rest = cs.drop_last();
        lemma_stands_split(b, pos, coords_bytes(rest), coord_bytes(cs.last()));
        lemma_coords_read(b, pos, rest);
        lemma_coord_read(b, pos + coords_bytes(rest).len(), cs.last());
        assert(rest.push(cs.last()) =~= cs);
    } else {
        assert(cs =~= Seq::<Coord>::empty());
    }
}

pub(crate) proof fn lemma_line_read(b: Seq<u8>, pos: int, cs: Seq<Coord>)
    requires
        stands(b, pos, line_bytes(cs)),
        cs.len() <= u32::MAX,
    ensures
        line_read(b, pos) == Some((cs, pos + line_bytes(cs).len())),
{
    lemma_stands_split(b, pos, count_bytes(cs.len()), coords_bytes(cs));
    lemma_count_read(b, pos, cs.len());
    lemma_coords_read(b, pos + 4, cs);
}

/// Every count fits in 32 bits.
pub open spec fn lines_fit(ls: Seq<Seq<Coord>>) -> bool {
    ls.len() <= u32::MAX && forall|i: int| 0 <= i < ls.len() ==> (#[trigger] ls[i]).len()
        <= u32::MAX
}

pub open spec fn polygon_fits(p: PolygonShape<Coord>) -> bool {
    p.exterior.len() <= u32::MAX && lines_fit(p.interiors)
}

pub open spec fn shape_fits(s: Shape<Coord>) -> bool {
    match s {
        Shape::Point(_) => true,
        Shape::LineString(cs) => cs.len() <= u32::MAX,
        Shape::Polygon(p) => polygon_fits(p),
        Shape::MultiPoint(cs) => cs.len() <= u32::MAX,
        Shape::MultiLineString(ls) => lines_fit(ls),
        Shape::MultiPolygon(ps) => ps.len() <= u32::MAX && forall|i: int|
            0 <= i < ps.len() ==> polygon_fits(#[trigger] ps[i]),
    }
}

pub(crate) proof fn lemma_lines_read(b: Seq<u8>, pos: int, ls: Seq<Seq<Coord>>)
    requires
        stands(b, pos, lines_bytes(ls)),
        lines_fit(ls),
    ensures
        lines_read(b, pos, ls.len() as int) == Some((ls, pos + lines_bytes(ls).len())),
    decreases ls.len(),
{
    if ls.len() > 0 {
        let rest = ls.drop_last();
        lemma_stands_split(b, pos, lines_bytes(rest), line_bytes(ls.last()));
        assert(lines_fit(rest)) by {
            assert forall|i: int| 0 <= i < rest.len() implies (#[trigger] rest[i]).len()
                <= u32::MAX by {
                assert(ls[i].len() <= u32::MAX);
            }
        }
        assert(ls[ls.len() - 1].len() <= u32::MAX);
        lemma_lines_read(b, pos, rest);
        lemma_line_read(b, pos + lines_bytes(rest).len(), ls.last());
        assert(rest.push(ls.last()) =~= ls);
    } else {
        assert(ls =~= Seq::<Seq<Coord>>::empty());
    }
}

proof fn lemma_polygon_read(b: Seq<u8>, pos: int, p: PolygonShape<Coord>)
    requires
        stands(b, pos, polygon_bytes(p)),
        polygon_fits(p),
    ensures
        polygon_read(b, pos) == Some((closed_polygon(p), pos + polygon_bytes(p).len())),
{
    let x = line_bytes(p.exterior);
    let y = count_bytes(p.interiors.len());
    let z = lines_bytes(p.interiors);
    lemma_stands_split(b, pos, x + y, z);
    lemma_stands_split(b, pos, x, y);
    lemma_line_read(b, pos, p.exterior);
    lemma_count_read(b, pos + x.len(), p.interiors.len());
    lemma_lines_read(b, pos + x.len() + 4, p.interiors);
}

proof fn lemma_polygons_read(b: Seq<u8>, pos: int, ps: Seq<PolygonShape<Coord>>)
    requires
        stands(b, pos, polygons_bytes(ps)),
        forall|i: int| 0 <= i < ps.len() ==> polygon_fits(#[trigger] ps[i]),
    ensures
        polygons_read(b, pos, ps.len() as int) == Some(
            (
                Seq::new(ps.len(), |i: int| closed_polygon(ps[i])),
                pos + polygons_bytes(ps).len(),
            ),
        ),
    decreases ps.len(),
{
    if ps.len() > 0 {
        let rest = ps.drop_last();
        lemma_stands_split(b, pos, polygons_bytes(rest), polygon_bytes(ps.last()));
        assert forall|i: int| 0 <= i < rest.len() implies polygon_fits(#[trigger] rest[i]) by {
            assert(polygon_fits(ps[i]));
        }
        assert(polygon_fits(ps[ps.len() - 1]));
        lemma_polygons_read(b, pos, rest);
        lemma_polygon_read(b, pos + polygons_bytes(rest).len(), ps.last());
        assert(Seq::new(rest.len(), |i: int| closed_polygon(rest[i])).push(
            closed_polygon(ps.last()),
        ) =~= Seq::new(ps.len(), |i: int| closed_polygon(ps[i])));
    } else {
        assert(Seq::new(ps.len(), |i: int| closed_polygon(ps[i])) =~= Seq::<
            PolygonShape<Coord>,
        >::empty());
    }
}

/// A stored shape is read back from wherever it stands, with closed rings.
pub proof fn shape_reads_back(b: Seq<u8>, pos: int, s: Shape<Coord>)
    requires
        stands(b, pos, shape_bytes(s)),
        shape_fits(s),
    ensures
        shape_read(b, pos) == Ok::<(Shape<Coord>, int), BakeErrorView>(
            (closed_shape(s), pos + shape_bytes(s).len()),
        ),
        shape_is_closed(s) ==> shape_read(b, pos) == Ok::<(Shape<Coord>, int), BakeErrorView>(
            (s, pos + shape_bytes(s).len()),
        ),
{
    if shape_is_closed(s) {
        closed_shapes_stay(s);
    }
    match s {
        Shape::Point(c) => {
            lemma_stands_split(b, pos, seq![1u8], coord_bytes(c));
            lemma_coord_read(b, pos + 1, c);
            assert(b.subrange(pos, pos + 1)[0] == b[pos]);
        },
        Shape::LineString(cs) => {
            lemma_stands_split(b, pos, seq![2u8], line_bytes(cs));
            lemma_line_read(b, pos + 1, cs);
            assert(b.subrange(pos, pos + 1)[0] == b[pos]);
        },
        Shape::Polygon(p) => {
            lemma_stands_split(b, pos, seq![3u8], polygon_bytes(p));
            lemma_polygon_read(b, pos + 1, p);
            assert(b.subrange(pos, pos + 1)[0] == b[pos]);
        },
        Shape::MultiPoint(cs) => {
            lemma_stands_split(b, pos, seq![4u8], line_bytes(cs));
            lemma_line_read(b, pos + 1, cs);
            assert(b.subrange(pos, pos + 1)[0] == b[pos]);
        },
        Shape::MultiLineString(ls) => {
            lemma_stands_split(b, pos, seq![5u8] + count_bytes(ls.len()), lines_bytes(ls));
            lemma_stands_split(b, pos, seq![5u8], count_bytes(ls.len()));
            lemma_count_read(b, pos + 1, ls.len());
            lemma_lines_read(b, pos + 5, ls);
            assert(b.subrange(pos, pos + 1)[0] == b[pos]);
        },
        Shape::MultiPolygon(ps) => {
            lemma_stands_split(b, pos, seq![6u8] + count_bytes(ps.len()), polygons_bytes(ps));
            lemma_stands_split(b, pos, seq![6u8], count_bytes(ps.len()));
            lemma_count_read(b, pos + 1, ps.len());
            lemma_polygons_read(b, pos + 5, ps);
            assert(b.subrange(pos, pos + 1)[0] == b[pos]);
        },
    }
}

// ── encoding ────────────────────────────────────────────────────────────────

fn write_coord(out: &mut Vec<u8>, c: Coord)
    ensures
        final(out)@ == old(out)@ + coord_bytes(c),
{
    write_u64_le(out, c.x);
    write_u64_le(out, c.y);
    assert(out@ =~= old(out)@ + coord_bytes(c));
}

fn write_count(out: &mut Vec<u8>, n: usize)
    ensures
        final(out)@ == old(out)@ + count_bytes(n as nat),
{
    write_u32_le(out, (n as u64 % 0x1_0000_0000) as u32);
}

fn write_line(out: &mut Vec<u8>, cs: &Vec<Coord>)
    ensures
        final(out)@ == old(out)@ + line_bytes(cs@),
{
    write_count(out, cs.len());
    let ghost start = out@;
    let mut i: usize = 0;
    assert(out@ =~= start + coords_bytes(cs@.take(0)));
    while i < cs.len()
        invariant
            i <= cs.len(),
            out@ == start + coords_bytes(cs@.take(i as int)),
        decreases cs.len() - i,
    {
        write_coord(out, cs[i]);
        i = i + 1;
        proof {
            assert(cs@.take(i as int).drop_last() =~= cs@.take(i - 1));
            assert(out@ =~= start + coords_bytes(cs@.take(i as int)));
        }
    }
    proof {
        assert(cs@.take(i as int) =~= cs@);
        assert(out@ =~= old(out)@ + line_bytes(cs@));
    }
}

fn write_lines(out: &mut Vec<u8>, ls: &Vec<Vec<Coord>>)
    ensures
        final(out)@ == old(out)@ + lines_bytes(line_shapes(ls@)),
{
    let ghost all = line_shapes(ls@);
    let mut i: usize = 0;
    assert(out@ =~= old(out)@ + lines_bytes(all.take(0)));
    while i < ls.len()
        invariant
            i <= ls.len(),
            all == line_shapes(ls@),
            out@ == old(out)@ + lines_bytes(all.take(i as int)),
        decreases ls.len() - i,
    {
        write_line(out, &ls[i]);
        i = i + 1;
        proof {
            assert(all.take(i as int).drop_last() =~= all.take(i - 1));
            assert(out@ =~= old(out)@ + lines_bytes(all.take(i as int)));
        }
    }
    assert(all.take(i as int) =~= all);
}

fn write_polygon(out: &mut Vec<u8>, p: &Polygon<Coord>)
    ensures
        final(out)@ == old(out)@ + polygon_bytes(p.shape()),
{
    write_line(out, &p.exterior);
    write_count(out, p.interiors.len());
    write_lines(out, &p.interiors);
    assert(out@ =~= old(out)@ + polygon_bytes(p.shape()));
}

fn write_polygons(out: &mut Vec<u8>, ps: &Vec<Polygon<Coord>>)
    ensures
        final(out)@ == old(out)@ + polygons_bytes(polygon_shapes(ps@)),
{
    let ghost all = polygon_shapes(ps@);
    let mut i: usize = 0;
    assert(out@ =~= old(out)@ + polygons_bytes(all.take(0)));
    while i < ps.len()
        invariant
            i <= ps.len(),
            all == polygon_shapes(ps@),
            out@ == old(out)@ + polygons_bytes(all.take(i as int)),
        decreases ps.len() - i,
    {
        write_polygon(out, &ps[i]);
        i = i + 1;
        proof {
            assert(all.take(i as int).drop_last() =~= all.take(i - 1));
            assert(out@ =~= old(out)@ + polygons_bytes(all.take(i as int)));
        }
    }
    assert(all.take(i as int) =~= all);
}

/// Append the stored form of a geometry.
pub fn encode_geometry(geom: &Geometry<Coord>, out: &mut Vec<u8>)
    ensures
        final(out)@ == old(out)@ + shape_bytes(storable_shape(*geom, origin())),
    decreases geom,
{
    match geom {
        Geometry::Point(c) => {
            out.push(1);
            write_coord(out, *c);
        },
        Geometry::Line(a, b) => {
            let ends: Vec<Coord> = vec![*a, *b];
            assert(ends@ =~= seq![*a, *b]);
            out.push(2);
            write_line(out, &ends);
        },
        Geometry::LineString(cs) => {
            out.push(2);
            write_line(out, cs);
        },
        Geometry::Polygon(p) => {
            out.push(3);
            write_polygon(out, p);
        },
        Geometry::MultiPoint(cs) => {
            out.push(4);
            write_line(out, cs);
        },
        Geometry::MultiLineString(ls) => {
            out.push(5);
            write_count(out, ls.len());
            write_lines(out, ls);
        },
        Geometry::MultiPolygon(ps) => {
            out.push(6);
            write_count(out, ps.len());
            write_polygons(out, ps);
        },
        Geometry::GeometryCollection(members) => {
            if members.len() > 0 {
                encode_geometry(&members[0], out);
                return;
            }
            out.push(1);
            write_coord(out, Coord { x: 0, y: 0 });
        },
        Geometry::Other => {
            out.push(1);
            write_coord(out, Coord { x: 0, y: 0 });
        },
    }
    assert(out@ =~= old(out)@ + shape_bytes(storable_shape(*geom, origin())));
}

// ── decoding ────────────────────────────────────────────────────────────────

pub(crate) fn read_count(b: &[u8], pos: usize) -> (r: Option<(u32, usize)>)
    requires
        pos <= b.len(),
    ensures
        match count_read(b@, pos as int) {
            None => r is None,
            Some((n, p)) => r matches Some((m, q)) && m == n && q == p && q <= b.len(),
        },
{
    if b.len() - pos < 4 {
        return None;
    }
    Some((read_u32_le(b, pos), pos + 4))
}

pub(crate) fn read_coord(b: &[u8], pos: usize) -> (r: Option<(Coord, usize)>)
    requires
        pos <= b.len(),
    ensures
        match coord_read(b@, pos as int) {
            None => r is None,
            Some((c, p)) => r matches Some((d, q)) && d == c && q == p && q <= b.len(),
        },
{
    if b.len() - pos < 16 {
        return None;
    }
    let x: u64 = read_u64_le(b, pos);
    let y: u64 = read_u64_le(b, pos + 8);
    Some((Coord { x, y }, pos + 16))
}

proof fn lemma_coords_read_stuck(b: Seq<u8>, pos: int, m: int, n: int)
    requires
        0 <= m <= n,
        coords_read(b, pos, m) is None,
    ensures
        coords_read(b, pos, n) is None,
    decreases n,
{
    if m < n {
        lemma_coords_read_stuck(b, pos, m, n - 1);
    }
}

proof fn lemma_lines_read_stuck(b: Seq<u8>, pos: int, m: int, n: int)
    requires
        0 <= m <= n,
        lines_read(b, pos, m) is None,
    ensures
        lines_read(b, pos, n) is None,
    decreases n,
{
    if m < n {
        lemma_lines_read_stuck(b, pos, m, n - 1);
    }
}

proof fn lemma_polygons_read_stuck(b: Seq<u8>, pos: int, m: int, n: int)
    requires
        0 <= m <= n,
        polygons_read(b, pos, m) is None,
    ensures
        polygons_read(b, pos, n) is None,
    decreases n,
{
    if m < n {
        lemma_polygons_read_stuck(b, pos, m, n - 1);
    }
}

pub(crate) fn read_line(b: &[u8], pos: usize) -> (r: Option<(Vec<Coord>, usize)>)
    requires
        pos <= b.len(),
    ensures
        match line_read(b@, pos as int) {
            None => r is None,
            Some((cs, p)) => r matches Some((v, q)) && v@ == cs && q == p && pos <= q <= b.len(),
        },
{
    let (n, start) = match read_count(b, pos) {
        Some(r) => r,
        None => return None,
    };
    let mut at: usize = start;
    let mut cs: Vec<Coord> = Vec::new();
    let mut i: u32 = 0;
    while i < n
        invariant
            i <= n,
            start <= at <= b.len(),
            count_read(b@, pos as int) == Some((n as int, start as int)),
            coords_read(b@, start as int, i as int) == Some((cs@, at as int)),
        decreases n - i,
    {
        match read_coord(b, at) {
            Some((c, next)) => {
                cs.push(c);
                at = next;
            },
            None => {
                proof {
                    lemma_coords_read_stuck(b@, start as int, i + 1, n as int);
                }
                return None;
            },
        }
        i = i + 1;
    }
    Some((cs, at))
}

pub(crate) fn read_lines(b: &[u8], pos: usize, n: u32) -> (r: Option<(Vec<Vec<Coord>>, usize)>)
    requires
        pos <= b.len(),
    ensures
        match lines_read(b@, pos as int, n as int) {
            None => r is None,
            Some((ls, p)) => r matches Some((v, q)) && line_shapes(v@) == ls && q == p && pos <= q
                <= b.len(),
        },
{
    let mut at: usize = pos;
    let mut ls: Vec<Vec<Coord>> = Vec::new();
    let mut i: u32 = 0;
    assert(line_shapes(ls@) =~= Seq::<Seq<Coord>>::empty());
    while i < n
        invariant
            i <= n,
            pos <= at <= b.len(),
            lines_read(b@, pos as int, i as int) == Some((line_shapes(ls@), at as int)),
        decreases n - i,
    {
        match read_line(b, at) {
            Some((l, next)) => {
                let ghost before = line_shapes(ls@);
                ls.push(l);
                assert(line_shapes(ls@) =~= before.push(l@));
                at = next;
            },
            None => {
                proof {
                    lemma_lines_read_stuck(b@, pos as int, i + 1, n as int);
                }
                return None;
            },
        }
        i = i + 1;
    }
    Some((ls, at))
}

fn close_ring(cs: &mut Vec<Coord>)
    ensures
        final(cs)@ == closed_ring(old(cs)@),
{
    if cs.len() > 0 {
        let first: Coord = cs[0];
        let last: Coord = cs[cs.len() - 1];
        if !(same(first.x, last.x) && same(first.y, last.y)) {
            cs.push(first);
        }
    }
}

fn close_rings(ls: &mut Vec<Vec<Coord>>)
    ensures
        line_shapes(final(ls)@) == closed_rings(line_shapes(old(ls)@)),
{
    let ghost all = line_shapes(ls@);
    let mut i: usize = 0;
    while i < ls.len()
        invariant
            i <= ls.len(),
            ls.len() == all.len(),
            forall|k: int| 0 <= k < i ==> (#[trigger] ls@[k])@ == closed_ring(all[k]),
            forall|k: int| i <= k < ls.len() ==> (#[trigger] ls@[k])@ == all[k],
        decreases ls.len() - i,
    {
        close_ring(&mut ls[i]);
        i = i + 1;
    }
    assert(line_shapes(ls@) =~= closed_rings(all));
}

fn read_polygon(b: &[u8], pos: usize) -> (r: Option<(Polygon<Coord>, usize)>)
    requires
        pos <= b.len(),
    ensures
        match polygon_read(b@, pos as int) {
            None => r is None,
            Some((g, p)) => r matches Some((v, q)) && v.shape() == g && q == p && q <= b.len(),
        },
{
    let (mut exterior, p) = match read_line(b, pos) {
        Some(r) => r,
        None => return None,
    };
    let (n, q) = match read_count(b, p) {
        Some(r) => r,
        None => return None,
    };
    match read_lines(b, q, n) {
        Some((mut interiors, end)) => {
            close_ring(&mut exterior);
            close_rings(&mut interiors);
            Some((Polygon { exterior, interiors }, end))
        },
        None => None,
    }
}

fn read_polygons(b: &[u8], pos: usize, n: u32) -> (r: Option<(Vec<Polygon<Coord>>, usize)>)
    requires
        pos <= b.len(),
    ensures
        match polygons_read(b@, pos as int, n as int) {
            None => r is None,
            Some((ps, p)) => r matches Some((v, q)) && polygon_shapes(v@) == ps && q == p && q
                <= b.len(),
        },
{
    let mut at: usize = pos;
    let mut ps: Vec<Polygon<Coord>> = Vec::new();
    let mut i: u32 = 0;
    assert(polygon_shapes(ps@) =~= Seq::<PolygonShape<Coord>>::empty());
    while i < n
        invariant
            i <= n,
            at <= b.len(),
            polygons_read(b@, pos as int, i as int) == Some((polygon_shapes(ps@), at as int)),
        decreases n - i,
    {
        match read_polygon(b, at) {
            Some((g, next)) => {
                let ghost before = polygon_shapes(ps@);
                ps.push(g);
                assert(polygon_shapes(ps@) =~= before.push(g.shape()));
                at = next;
            },
            None => {
                proof {
                    lemma_polygons_read_stuck(b@, pos as int, i + 1, n as int);
                }
                return None;
            },
        }
        i = i + 1;
    }
    Some((ps, at))
}

fn read_body(b: &[u8], pos: usize, tag: u8) -> (r: Option<(Geometry<Coord>, usize)>)
    requires
        pos <= b.len(),
        1 <= tag <= 6,
    ensures
        match body_read(b@, pos as int, tag) {
            None => r is None,
            Some((s, p)) => r matches Some((g, q)) && shape_of(g) == Some(s) && q == p && q
                <= b.len(),
        },
{
    if tag == 1 {
        return match read_coord(b, pos) {
            Some((c, p)) => Some((Geometry::Point(c), p)),
            None => None,
        };
    }
    if tag == 2 {
        return match read_line(b, pos) {
            Some((cs, p)) => Some((Geometry::LineString(cs), p)),
            None => None,
        };
    }
    if tag == 3 {
        return match read_polygon(b, pos) {
            Some((g, p)) => Some((Geometry::Polygon(g), p)),
            None => None,
        };
    }
    if tag == 4 {
        return match read_line(b, pos) {
            Some((cs, p)) => Some((Geometry::MultiPoint(cs), p)),
            None => None,
        };
    }
    let (n, p) = match read_count(b, pos) {
        Some(r) => r,
        None => return None,
    };
    if tag == 5 {
        match read_lines(b, p, n) {
            Some((ls, q)) => Some((Geometry::MultiLineString(ls), q)),
            None => None,
        }
    } else {
        match read_polygons(b, p, n) {
            Some((ps, q)) => Some((Geometry::MultiPolygon(ps), q)),
            None => None,
        }
    }
}

/// Decode the geometry at `*cur`, advancing `*cur` behind it.
pub fn decode_geometry(b: &[u8], cur: &mut usize) -> (r: Result<Geometry<Coord>, BakeError>)
    ensures
        match shape_read(b@, *old(cur) as int) {
            Ok((s, p)) => r matches Ok(g) && shape_of(g) == Some(s) && *final(cur) == p
                && *final(cur) <= b.len(),
            Err(e) => r matches Err(x) && x@ == e,
        },
{
    let pos: usize = *cur;
    if pos >= b.len() {
        return Err(BakeError::Encode("store underrun".to_owned()));
    }
    let tag: u8 = b[pos];
    if tag < 1 || tag > 6 {
        let mut text = "bad geometry tag ".to_owned();
        push_decimal(&mut text, tag as u64);
        return Err(BakeError::Encode(text));
    }
    match read_body(b, pos + 1, tag) {
        Some((g, p)) => {
            *cur = p;
            Ok(g)
        },
        None => Err(BakeError::Encode("store underrun".to_owned())),
    }
}

// ── records ─────────────────────────────────────────────────────────────────

/// Index entry for one stored feature.
#[derive(Debug, Clone, Copy)]
pub struct FeatureMeta {
    /// Bounding box (min_x, min_y, max_x, max_y) as bit patterns.
    pub bbox: [u64; 4],
    /// Byte offset of the record in the store.
    pub offset: u64,
    /// Byte length of the record.
    pub len: u32,
}

/// The record of a feature: its shape, then its properties with their length.
pub open spec fn record_bytes(s: Shape<Coord>, props: Seq<u8>) -> Seq<u8> {
    shape_bytes(s) + count_bytes(props.len()) + props
}

/// The record that an index entry points at, if it lies within the store.
pub open spec fn stored_record(store: Seq<u8>, offset: u64, len: u32) -> Option<Seq<u8>> {
    if offset + len <= store.len() {
        Some(store.subrange(offset as int, offset + len))
    } else {
        None
    }
}

/// What a record holds: the shape and the properties. Nothing where the
/// properties go on behind the end of the record.
pub open spec fn record_read(rec: Seq<u8>) -> Option<
    Result<(Shape<Coord>, Seq<u8>), BakeErrorView>,
> {
    match shape_read(rec, 0) {
        Err(e) => Some(Err(e)),
        Ok((s, p)) => match count_read(rec, p) {
            None => Some(Err(underrun())),
            Some((n, q)) => if q + n <= rec.len() {
                Some(Ok((s, rec.subrange(q, q + n))))
            } else {
                None
            },
        },
    }
}

/// What reading a feature gives; nothing where its record lies outside the
/// store or its properties outside the record.
pub open spec fn feature_read(store: Seq<u8>, offset: u64, len: u32) -> Option<
    Result<(Shape<Coord>, Seq<u8>), BakeErrorView>,
> {
    match stored_record(store, offset, len) {
        None => None,
        Some(rec) => record_read(rec),
    }
}

/// A record gives back the shape it was made of, with closed rings, and the
/// properties.
pub proof fn record_reads_back(s: Shape<Coord>, props: Seq<u8>)
    requires
        shape_fits(s),
        props.len() <= u32::MAX,
    ensures
        record_read(record_bytes(s, props)) == Some(
            Ok::<(Shape<Coord>, Seq<u8>), BakeErrorView>((closed_shape(s), props)),
        ),
        shape_is_closed(s) ==> closed_shape(s) == s,
{
    if shape_is_closed(s) {
        closed_shapes_stay(s);
    }
    let rec = record_bytes(s, props);
    let x = shape_bytes(s);
    let y = count_bytes(props.len());
    let p = x.len() as int;
    let n = props.len() as int;
    assert(rec =~= x + (y + props));
    assert(rec.subrange(0, x.len() as int) =~= x);
    shape_reads_back(rec, 0, s);
    lemma_le_bytes_len(low32(props.len() as int) as int, 4);
    assert(rec.subrange(p, p + 4) =~= y);
    lemma_count_read(rec, x.len() as int, props.len());
    assert(rec.subrange(p + 4, p + 4 + n) =~= props);
}

/// A feature is read back from a store that holds its record where the index
/// entry says, whatever stands around it; with closed rings.
pub proof fn feature_reads_back(
    front: Seq<u8>,
    s: Shape<Coord>,
    props: Seq<u8>,
    back: Seq<u8>,
)
    requires
        shape_fits(s),
        record_bytes(s, props).len() <= u32::MAX,
        front.len() <= u64::MAX,
    ensures
        feature_read(
            front + record_bytes(s, props) + back,
            front.len() as u64,
            record_bytes(s, props).len() as u32,
        ) == Some(Ok::<(Shape<Coord>, Seq<u8>), BakeErrorView>((closed_shape(s), props))),
        shape_is_closed(s) ==> closed_shape(s) == s,
{
    let rec = record_bytes(s, props);
    let store = front + rec + back;
    let p = front.len() as int;
    assert(store.subrange(p, p + rec.len()) =~= rec);
    record_reads_back(s, props);
}

/// `r` is the feature in a record: its properties are read, and properties that are
/// no JSON object are an error.
pub open spec fn comes_to_feature(
    r: Result<(Geometry<Coord>, Vec<(String, PropValue)>), BakeError>,
    f: Result<(Shape<Coord>, Seq<u8>), BakeErrorView>,
) -> bool {
    match f {
        Err(e) => r matches Err(x) && x@ == e,
        Ok((s, json)) => match object_parsed(json) {
            Err(t) => r matches Err(x) && x@ == BakeErrorView::Encode(t),
            Ok(m) => r matches Ok((g, props)) && shape_of(g) == Some(s) && prop_pairs(props@)
                == props_read(m),
        },
    }
}

/// The properties of a record were written from the given members, and their values
/// are plain.
pub open spec fn holds_plain(
    f: Option<Result<(Shape<Coord>, Seq<u8>), BakeErrorView>>,
    m: Seq<(Seq<char>, Seq<char>)>,
) -> bool {
    f matches Some(Ok((_, json))) && json == encode_utf8(object_text(m)) && are_plain(m)
}

/// `r` is the feature in a record, with the properties of the given members.
pub open spec fn is_feature_of(
    r: Result<(Geometry<Coord>, Vec<(String, PropValue)>), BakeError>,
    f: Option<Result<(Shape<Coord>, Seq<u8>), BakeErrorView>>,
    m: Seq<(Seq<char>, Seq<char>)>,
) -> bool {
    &&& f matches Some(Ok((s, _)))
    &&& r matches Ok((g, props))
    &&& shape_of(g) == Some(s)
    &&& prop_pairs(props@) == props_read(m)
}

/// A record that was written with plain properties holds them, wherever it stands.
pub proof fn plain_properties_are_held(
    front: Seq<u8>,
    s: Shape<Coord>,
    m: Seq<(Seq<char>, Seq<char>)>,
    back: Seq<u8>,
)
    requires
        shape_fits(s),
        are_plain(m),
        record_bytes(s, encode_utf8(object_text(m))).len() <= u32::MAX,
        front.len() <= u64::MAX,
    ensures
        holds_plain(
            feature_read(
                front + record_bytes(s, encode_utf8(object_text(m))) + back,
                front.len() as u64,
                record_bytes(s, encode_utf8(object_text(m))).len() as u32,
            ),
            m,
        ),
{
    feature_reads_back(front, s, encode_utf8(object_text(m)), back);
}

/// Random access to the records of a feature store.
#[derive(Clone, Copy)]
pub struct StoreReader<'a> {
    store: &'a [u8],
}

impl<'a> StoreReader<'a> {
    /// The bytes of the store.
    pub closed spec fn content(&self) -> Seq<u8> {
        self.store@
    }

    /// A reader of the store held in `store`.
    pub fn open(store: &'a [u8]) -> (r: StoreReader<'a>)
        ensures
            r.content() == store@,
    {
        StoreReader { store }
    }

    /// Read one feature: its geometry and its properties as JSON; `None` where the
    /// record lies outside the store or the properties outside the record.
    pub fn read_record(&self, meta: &FeatureMeta) -> (r: Option<
        Result<(Geometry<Coord>, Vec<u8>), BakeError>,
    >)
        ensures
            match feature_read(self.content(), meta.offset, meta.len) {
                None => r is None,
                Some(Ok((s, props))) => r matches Some(Ok((g, p))) && shape_of(g) == Some(s) && p@
                    == props,
                Some(Err(e)) => r matches Some(Err(x)) && x@ == e,
            },
    {
        let size: u64 = self.store.len() as u64;
        let end: u64 = match meta.offset.checked_add(meta.len as u64) {
            Some(end) => end,
            None => return None,
        };
        if end > size {
            return None;
        }
        let rec = vstd::slice::slice_subrange(self.store, meta.offset as usize, end as usize);
        let mut cur: usize = 0;
        let geom = match decode_geometry(rec, &mut cur) {
            Ok(g) => g,
            Err(e) => return Some(Err(e)),
        };
        let (n, start) = match read_count(rec, cur) {
            Some(r) => r,
            None => return Some(Err(BakeError::Encode("store underrun".to_owned()))),
        };
        if n as u64 > (rec.len() - start) as u64 {
            return None;
        }
        let props = vstd::slice::slice_to_vec(
            vstd::slice::slice_subrange(rec, start, start + n as usize),
        );
        Some(Ok((geom, props)))
    }

    /// Read one feature: its geometry and its properties; `None` where the record
    /// lies outside the store or the properties outside the record.
    pub fn try_read(&self, meta: &FeatureMeta) -> (r: Option<
        Result<(Geometry<Coord>, Vec<(String, PropValue)>), BakeError>,
    >)
        ensures
            match feature_read(self.content(), meta.offset, meta.len) {
                None => r is None,
                Some(f) => r matches Some(x) && comes_to_feature(x, f),
            },
            forall|m: Seq<(Seq<char>, Seq<char>)>| #[trigger]
                holds_plain(feature_read(self.content(), meta.offset, meta.len), m) ==> r is Some
                    && is_feature_of(
                    r->0,
                    feature_read(self.content(), meta.offset, meta.len),
                    m,
                ),
    {
        match self.read_record(meta) {
            None => None,
            Some(Err(e)) => Some(Err(e)),
            Some(Ok((g, json))) => match parse_object(json.as_slice()) {
                Err(t) => Some(Err(BakeError::Encode(t))),
                Ok(members) => Some(Ok((g, read_props(&members)))),
            },
        }
    }

    /// Read one feature: its geometry and its properties.
    pub fn read(&self, meta: &FeatureMeta) -> (r: Result<
        (Geometry<Coord>, Vec<(String, PropValue)>),
        BakeError,
    >)
        requires
            feature_read(self.content(), meta.offset, meta.len) is Some,
        ensures
            comes_to_feature(r, feature_read(self.content(), meta.offset, meta.len)->0),
            forall|m: Seq<(Seq<char>, Seq<char>)>| #[trigger]
                holds_plain(feature_read(self.content(), meta.offset, meta.len), m)
                    ==> is_feature_of(
                    r,
                    feature_read(self.content(), meta.offset, meta.len),
                    m,
                ),
    {
        self.try_read(meta).unwrap()
    }

    /// The bytes of one record.
    pub fn read_raw(&self, meta: &FeatureMeta) -> (r: &'a [u8])
        requires
            meta.offset + meta.len <= self.content().len(),
        ensures
            stored_record(self.content(), meta.offset, meta.len) == Some(r@),
    {
        assert(self.store.len() <= u64::MAX);
        vstd::slice::slice_subrange(
            self.store,
            meta.offset as usize,
            (meta.offset + meta.len as u64) as usize,
        )
    }
}

/// Append-only writer for the feature store: it makes the records and keeps
/// track of where they go.
pub struct StoreWriter {
    pos: u64,
}

impl StoreWriter {
    /// Where the next record goes.
    pub closed spec fn end(&self) -> int {
        self.pos as int
    }

    /// A writer for an empty store.
    pub fn create() -> (w: StoreWriter)
        ensures
            w.end() == 0,
    {
        StoreWriter { pos: 0 }
    }

    /// Where the next record goes.
    pub fn position(&self) -> (r: u64)
        ensures
            r == self.end(),
    {
        self.pos
    }

    /// Make the record of one feature. Returns the bytes to be appended to the
    /// store, and the index entry.
    pub fn append(&mut self, geom: &Geometry<Coord>, bbox: [u64; 4], props_json: &[u8]) -> (r: (
        Vec<u8>,
        FeatureMeta,
    ))
        requires
            old(self).end() + low32(
                record_bytes(storable_shape(*geom, origin()), props_json@).len() as int,
            ) <= u64::MAX,
        ensures
            r.0@ == record_bytes(storable_shape(*geom, origin()), props_json@),
            r.1.bbox == bbox,
            r.1.offset == old(self).end(),
            r.1.len == low32(r.0.len() as int),
            final(self).end() == old(self).end() + r.1.len,
    {
        let mut rec: Vec<u8> = Vec::new();
        encode_geometry(geom, &mut rec);
        write_count(&mut rec, props_json.len());
        rec.extend_from_slice(props_json);
        assert(rec@ =~= record_bytes(storable_shape(*geom, origin()), props_json@));
        let meta = self.append_raw(bbox, rec.as_slice());
        (rec, meta)
    }

    /// Take over a record as it is. Returns the index entry.
    pub fn append_raw(&mut self, bbox: [u64; 4], raw: &[u8]) -> (meta: FeatureMeta)
        requires
            old(self).end() + low32(raw.len() as int) <= u64::MAX,
        ensures
            meta.bbox == bbox,
            meta.offset == old(self).end(),
            meta.len == low32(raw.len() as int),
            final(self).end() == old(self).end() + meta.len,
    {
        let offset: u64 = self.pos;
        let len: u32 = (raw.len() as u64 % 0x1_0000_0000) as u32;
        self.pos = self.pos + len as u64;
        FeatureMeta { bbox, offset, len }
    }
}

/// Closing the rings of a shape keeps all of its polygons and rings, each closed on its
/// own; points and lines stay as they are.
pub proof fn closing_keeps_every_ring(s: Shape<Coord>)
    ensures
        match (s, closed_shape(s)) {
            (Shape::Polygon(p), Shape::Polygon(q)) => q.exterior == closed_ring(p.exterior)
                && q.interiors.len() == p.interiors.len() && forall|i: int|
                0 <= i < p.interiors.len() ==> #[trigger] q.interiors[i] == closed_ring(
                    p.interiors[i],
                ),
            (Shape::MultiPolygon(ps), Shape::MultiPolygon(qs)) => qs.len() == ps.len() && forall|
                k: int,
            |
                0 <= k < ps.len() ==> (#[trigger] qs[k]).exterior == closed_ring(ps[k].exterior)
                    && qs[k].interiors.len() == ps[k].interiors.len() && forall|i: int|
                    0 <= i < ps[k].interiors.len() ==> #[trigger] qs[k].interiors[i] == closed_ring(
                        ps[k].interiors[i],
                    ),
            (_, t) => t == s,
        },
{
}

} // verus!
