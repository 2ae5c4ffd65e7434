//! Well-known binary: geometries as bytes, little-endian, in two dimensions.

use vstd::prelude::*;

use crate::feature_store::{
    coord_bytes, coord_read, count_bytes, count_read, lemma_coord_read, lemma_count_read,
    lemma_line_read, lemma_lines_read, lemma_stands_split, line_bytes, line_read, lines_bytes,
    lines_fit, lines_read, read_coord, read_count, read_line, read_lines, stands,
};
use crate::geometry::{
    geometry_view, lemma_same_members, line_shapes, member_views, polygon_shapes, Coord, Geometry,
    GeometryView, Polygon, PolygonShape,
};
use crate::le::{le_bytes, lemma_le_bytes_len, lemma_u32_at, read_u32_le, u32_at};

verus! {

/// The kind of the geometry at `pos`, and where its body starts.
pub open spec fn head_read(b: Seq<u8>, pos: int) -> Option<(int, int)> {
    if 0 <= pos && pos + 5 <= b.len() && b[pos] == 1 {
        Some((u32_at(b, pos + 1) as int, pos + 5))
    } else {
        None
    }
}

/// Where the body of the geometry at `pos` starts, if it is of the given kind.
pub open spec fn tagged(b: Seq<u8>, pos: int, kind: int) -> Option<int> {
    match head_read(b, pos) {
        Some((k, p)) => if k == kind {
            Some(p)
        } else {
            None
        },
        None => None,
    }
}

/// The rings of a polygon: the outer one first.
pub open spec fn rings_read(b: Seq<u8>, pos: int) -> Option<(PolygonShape<Coord>, int)> {
    match count_read(b, pos) {
        None => None,
        Some((n, p)) => match lines_read(b, p, n) {
            None => None,
            Some((rings, q)) => Some((polygon_of(rings), q)),
        },
    }
}

/// The polygon with the given rings.
pub open spec fn polygon_of(rings: Seq<Seq<Coord>>) -> PolygonShape<Coord> {
    if rings.len() == 0 {
        PolygonShape { exterior: Seq::empty(), interiors: Seq::empty() }
    } else {
        PolygonShape { exterior: rings[0], interiors: rings.skip(1) }
    }
}

/// The next `n` points, each with a head of its own.
pub open spec fn points_read(b: Seq<u8>, pos: int, n: int) -> Option<(Seq<Coord>, int)>
    decreases n,
{
    if n <= 0 {
        Some((Seq::empty(), pos))
    } else {
        match points_read(b, pos, n - 1) {
            None => None,
            Some((cs, p)) => match tagged(b, p, 1) {
                None => None,
                Some(q) => match coord_read(b, q) {
                    None => None,
                    Some((c, e)) => Some((cs.push(c), e)),
                },
            },
        }
    }
}

/// The next `n` lines, each with a head of its own.
pub open spec fn tagged_lines_read(b: Seq<u8>, pos: int, n: int) -> Option<(Seq<Seq<Coord>>, int)>
    decreases n,
{
    if n <= 0 {
        Some((Seq::empty(), pos))
    } else {
        match tagged_lines_read(b, pos, n - 1) {
            None => None,
            Some((ls, p)) => match tagged(b, p, 2) {
                None => None,
                Some(q) => match line_read(b, q) {
                    None => None,
                    Some((l, e)) => Some((ls.push(l), e)),
                },
            },
        }
    }
}

/// The next `n` polygons, each with a head of its own.
pub open spec fn tagged_polygons_read(b: Seq<u8>, pos: int, n: int) -> Option<
    (Seq<PolygonShape<Coord>>, int),
>
    decreases n,
{
    if n <= 0 {
        Some((Seq::empty(), pos))
    } else {
        match tagged_polygons_read(b, pos, n - 1) {
            None => None,
            Some((ps, p)) => match tagged(b, p, 3) {
                None => None,
                Some(q) => match rings_read(b, q) {
                    None => None,
                    Some((g, e)) => Some((ps.push(g), e)),
                },
            },
        }
    }
}

/// The geometry at `pos`, and where it ends.
pub open spec fn wkb_read(b: Seq<u8>, pos: int) -> Option<(GeometryView<Coord>, int)>
    decreases b.len() - pos, 0nat,
{
    match head_read(b, pos) {
        None => None,
        Some((kind, p)) => if kind == 1 {
            match coord_read(b, p) {
                None => None,
                Some((c, e)) => Some((GeometryView::Point(c), e)),
            }
        } else if kind == 2 {
            match line_read(b, p) {
                None => None,
                Some((cs, e)) => Some((GeometryView::LineString(cs), e)),
            }
        } else if kind == 3 {
            match rings_read(b, p) {
                None => None,
                Some((g, e)) => Some((GeometryView::Polygon(g), e)),
            }
        } else {
            match count_read(b, p) {
                None => None,
                Some((n, q)) => if kind == 4 {
                    match points_read(b, q, n) {
                        None => None,
                        Some((cs, e)) => Some((GeometryView::MultiPoint(cs), e)),
                    }
                } else if kind == 5 {
                    match tagged_lines_read(b, q, n) {
                        None => None,
                        Some((ls, e)) => Some((GeometryView::MultiLineString(ls), e)),
                    }
                } else if kind == 6 {
                    match tagged_polygons_read(b, q, n) {
                        None => None,
                        Some((ps, e)) => Some((GeometryView::MultiPolygon(ps), e)),
                    }
                } else if kind == 7 {
                    match members_read(b, q, n as nat) {
                        None => None,
                        Some((gs, e)) => Some((GeometryView::GeometryCollection(gs), e)),
                    }
                } else {
                    None
                },
            }
        },
    }
}

/// The next `n` geometries.
pub open spec fn members_read(b: Seq<u8>, pos: int, n: nat) -> Option<
    (Seq<GeometryView<Coord>>, int),
>
    decreases b.len() - pos, n,
{
    if n == 0 {
        Some((Seq::empty(), pos))
    } else {
        match members_read(b, pos, (n - 1) as nat) {
            None => None,
            Some((gs, p)) => if pos <= p <= b.len() {
                match wkb_read(b, p) {
                    None => None,
                    Some((g, e)) => Some((gs.push(g), e)),
                }
            } else {
                None
            },
        }
    }
}

/// The head of a geometry of the given kind: the byte order, then the kind.
pub open spec fn head_bytes(kind: int) -> Seq<u8> {
    seq![1u8] + le_bytes(kind, 4)
}

/// A polygon: its counted rings, the outer one first.
pub open spec fn rings_bytes(p: PolygonShape<Coord>) -> Seq<u8> {
    count_bytes(1 + p.interiors.len()) + lines_bytes(seq![p.exterior] + p.interiors)
}

/// Points, each with a head of its own.
pub open spec fn points_bytes(cs: Seq<Coord>) -> Seq<u8>
    decreases cs.len(),
{
    if cs.len() == 0 {
        Seq::empty()
    } else {
        points_bytes(cs.drop_last()) + (head_bytes(1) + coord_bytes(cs.last()))
    }
}

/// Lines, each with a head of its own.
pub open spec fn tagged_lines_bytes(ls: Seq<Seq<Coord>>) -> Seq<u8>
    decreases ls.len(),
{
    if ls.len() == 0 {
        Seq::empty()
    } else {
        tagged_lines_bytes(ls.drop_last()) + (head_bytes(2) + line_bytes(ls.last()))
    }
}

/// Polygons, each with a head of its own.
pub open spec fn tagged_polygons_bytes(ps: Seq<PolygonShape<Coord>>) -> Seq<u8>
    decreases ps.len(),
{
    if ps.len() == 0 {
        Seq::empty()
    } else {
        tagged_polygons_bytes(ps.drop_last()) + (head_bytes(3) + rings_bytes(ps.last()))
    }
}

/// A geometry as well-known binary. There is none for a single segment, which is
/// written as a line, nor for other shapes.
pub open spec fn wkb_bytes(g: GeometryView<Coord>) -> Seq<u8>
    decreases g, 0nat,
{
    match g {
        GeometryView::Point(c) => head_bytes(1) + coord_bytes(c),
        GeometryView::LineString(cs) => head_bytes(2) + line_bytes(cs),
        GeometryView::Polygon(p) => head_bytes(3) + rings_bytes(p),
        GeometryView::MultiPoint(cs) => head_bytes(4) + (count_bytes(cs.len()) + points_bytes(cs)),
        GeometryView::MultiLineString(ls) => head_bytes(5) + (count_bytes(ls.len())
            + tagged_lines_bytes(ls)),
        GeometryView::MultiPolygon(ps) => head_bytes(6) + (count_bytes(ps.len())
            + tagged_polygons_bytes(ps)),
        GeometryView::GeometryCollection(gs) => head_bytes(7) + (count_bytes(gs.len())
            + members_bytes(gs, gs.len())),
        _ => Seq::empty(),
    }
}

/// The first `n` members of a collection.
pub open spec fn members_bytes(gs: Seq<GeometryView<Coord>>, n: nat) -> Seq<u8>
    decreases gs, n,
{
    if n == 0 || n > gs.len() {
        Seq::empty()
    } else {
        members_bytes(gs, (n - 1) as nat) + wkb_bytes(gs[n - 1])
    }
}

/// The geometry can be written: every count fits in 32 bits.
pub open spec fn wkb_fits(g: GeometryView<Coord>) -> bool
    decreases g,
{
    match g {
        GeometryView::Point(_) => true,
        GeometryView::LineString(cs) => cs.len() <= u32::MAX,
        GeometryView::Polygon(p) => lines_fit(seq![p.exterior] + p.interiors),
        GeometryView::MultiPoint(cs) => cs.len() <= u32::MAX,
        GeometryView::MultiLineString(ls) => lines_fit(ls),
        GeometryView::MultiPolygon(ps) => ps.len() <= u32::MAX && forall|i: int|
            0 <= i < ps.len() ==> lines_fit(
                seq![(#[trigger] ps[i]).exterior] + ps[i].interiors,
            ),
        GeometryView::GeometryCollection(gs) => gs.len() <= u32::MAX && forall|i: int|
            0 <= i < gs.len() ==> wkb_fits(#[trigger] gs[i]),
        _ => false,
    }
}

proof fn lemma_head_read(b: Seq<u8>, pos: int, kind: int)
    requires
        stands(b, pos, head_bytes(kind)),
        0 <= kind <= u32::MAX,
    ensures
        head_read(b, pos) == Some((kind, pos + 5)),
        head_bytes(kind).len() == 5,
{
    lemma_le_bytes_len(kind, 4);
    lemma_stands_split(b, pos, seq![1u8], le_bytes(kind, 4));
    lemma_u32_at(b, pos + 1, kind as u32);
    assert(b.subrange(pos, pos + 1)[0] == b[pos]);
}

proof fn lemma_rings_read(b: Seq<u8>, pos: int, p: PolygonShape<Coord>)
    requires
        stands(b, pos, rings_bytes(p)),
        lines_fit(seq![p.exterior] + p.interiors),
    ensures
        rings_read(b, pos) == Some((p, pos + rings_bytes(p).len())),
{
    let rings = seq![p.exterior] + p.interiors;
    lemma_stands_split(b, pos, count_bytes(rings.len()), lines_bytes(rings));
    lemma_count_read(b, pos, rings.len());
    lemma_lines_read(b, pos + 4, rings);
    assert(polygon_of(rings) =~= p) by {
        assert(rings.skip(1) =~= p.interiors);
    }
}

proof fn lemma_points_read(b: Seq<u8>, pos: int, cs: Seq<Coord>)
    requires
        stands(b, pos, points_bytes(cs)),
    ensures
        points_read(b, pos, cs.len() as int) == Some((cs, pos + points_bytes(cs).len())),
    decreases cs.len(),
{
    if cs.len() > 0 {
        let rest = cs.drop_last();
        let at = pos + points_bytes(rest).len();
        lemma_stands_split(b, pos, points_bytes(rest), head_bytes(1) + coord_bytes(cs.last()));
        lemma_stands_split(b, at, head_bytes(1), coord_bytes(cs.last()));
        lemma_points_read(b, pos, rest);
        lemma_head_read(b, at, 1);
        lemma_coord_read(b, at + 5, cs.last());
        assert(rest.push(cs.last()) =~= cs);
    } else {
        assert(cs =~= Seq::<Coord>::empty());
    }
}

proof fn lemma_tagged_lines_read(b: Seq<u8>, pos: int, ls: Seq<Seq<Coord>>)
    requires
        stands(b, pos, tagged_lines_bytes(ls)),
        lines_fit(ls),
    ensures
        tagged_lines_read(b, pos, ls.len() as int) == Some(
            (ls, pos + tagged_lines_bytes(ls).len()),
        ),
    decreases ls.len(),
{
    if ls.len() > 0 {
        let rest = ls.drop_last();
        let at = pos + tagged_lines_bytes(rest).len();
        lemma_stands_split(b, pos, tagged_lines_bytes(rest), head_bytes(2) + line_bytes(ls.last()));
        lemma_stands_split(b, at, head_bytes(2), line_bytes(ls.last()));
        assert(lines_fit(rest)) by {
            assert forall|i: int| 0 <= i < rest.len() implies (#[trigger] rest[i]).len()
                <= u32::MAX by {
                assert(ls[i].len() <= u32::MAX);
            }
        }
        assert(ls[ls.len() - 1].len() <= u32::MAX);
        lemma_tagged_lines_read(b, pos, rest);
        lemma_head_read(b, at, 2);
        lemma_line_read(b, at + 5, ls.last());
        assert(rest.push(ls.last()) =~= ls);
    } else {
        assert(ls =~= Seq::<Seq<Coord>>::empty());
    }
}

proof fn lemma_tagged_polygons_read(b: Seq<u8>, pos: int, ps: Seq<PolygonShape<Coord>>)
    requires
        stands(b, pos, tagged_polygons_bytes(ps)),
        forall|i: int|
            0 <= i < ps.len() ==> lines_fit(seq![(#[trigger] ps[i]).exterior] + ps[i].interiors),
    ensures
        tagged_polygons_read(b, pos, ps.len() as int) == Some(
            (ps, pos + tagged_polygons_bytes(ps).len()),
        ),
    decreases ps.len(),
{
    if ps.len() > 0 {
        let rest = ps.drop_last();
        let at = pos + tagged_polygons_bytes(rest).len();
        lemma_stands_split(
            b,
            pos,
            tagged_polygons_bytes(rest),
            head_bytes(3) + rings_bytes(ps.last()),
        );
        lemma_stands_split(b, at, head_bytes(3), rings_bytes(ps.last()));
        assert forall|i: int| 0 <= i < rest.len() implies lines_fit(
            seq![(#[trigger] rest[i]).exterior] + rest[i].interiors,
        ) by {
            assert(rest[i] == ps[i]);
        }
        assert(ps.last() == ps[ps.len() - 1]);
        lemma_tagged_polygons_read(b, pos, rest);
        lemma_head_read(b, at, 3);
        lemma_rings_read(b, at + 5, ps.last());
        assert(rest.push(ps.last()) =~= ps);
    } else {
        assert(ps =~= Seq::<PolygonShape<Coord>>::empty());
    }
}

/// A geometry that stands somewhere as well-known binary is read back whole: all of its
/// points, lines, rings and members, in their order.
pub proof fn written_geometries_are_read_back(b: Seq<u8>, pos: int, g: GeometryView<Coord>)
    requires
        stands(b, pos, wkb_bytes(g)),
        wkb_fits(g),
    ensures
        wkb_read(b, pos) == Some((g, pos + wkb_bytes(g).len())),
    decreases g, 0nat,
{
    match g {
        GeometryView::Point(c) => {
            lemma_stands_split(b, pos, head_bytes(1), coord_bytes(c));
            lemma_head_read(b, pos, 1);
            lemma_coord_read(b, pos + 5, c);
        },
        GeometryView::LineString(cs) => {
            lemma_stands_split(b, pos, head_bytes(2), line_bytes(cs));
            lemma_head_read(b, pos, 2);
            lemma_line_read(b, pos + 5, cs);
        },
        GeometryView::Polygon(p) => {
            lemma_stands_split(b, pos, head_bytes(3), rings_bytes(p));
            lemma_head_read(b, pos, 3);
            lemma_rings_read(b, pos + 5, p);
        },
        GeometryView::MultiPoint(cs) => {
            lemma_stands_split(b, pos, head_bytes(4), count_bytes(cs.len()) + points_bytes(cs));
            lemma_head_read(b, pos, 4);
            lemma_stands_split(b, pos + 5, count_bytes(cs.len()), points_bytes(cs));
            lemma_count_read(b, pos + 5, cs.len());
            lemma_points_read(b, pos + 9, cs);
        },
        GeometryView::MultiLineString(ls) => {
            lemma_stands_split(
                b,
                pos,
                head_bytes(5),
                count_bytes(ls.len()) + tagged_lines_bytes(ls),
            );
            lemma_head_read(b, pos, 5);
            lemma_stands_split(b, pos + 5, count_bytes(ls.len()), tagged_lines_bytes(ls));
            lemma_count_read(b, pos + 5, ls.len());
            lemma_tagged_lines_read(b, pos + 9, ls);
        },
        GeometryView::MultiPolygon(ps) => {
            lemma_stands_split(
                b,
                pos,
                head_bytes(6),
                count_bytes(ps.len()) + tagged_polygons_bytes(ps),
            );
            lemma_head_read(b, pos, 6);
            lemma_stands_split(b, pos + 5, count_bytes(ps.len()), tagged_polygons_bytes(ps));
            lemma_count_read(b, pos + 5, ps.len());
            lemma_tagged_polygons_read(b, pos + 9, ps);
        },
        GeometryView::GeometryCollection(gs) => {
            lemma_stands_split(
                b,
                pos,
                head_bytes(7),
                count_bytes(gs.len()) + members_bytes(gs, gs.len()),
            );
            lemma_head_read(b, pos, 7);
            lemma_stands_split(b, pos + 5, count_bytes(gs.len()), members_bytes(gs, gs.len()));
            lemma_count_read(b, pos + 5, gs.len());
            lemma_members_read(b, pos + 9, gs, gs.len());
            assert(gs.take(gs.len() as int) =~= gs);
        },
        _ => {},
    }
}

proof fn lemma_members_read(b: Seq<u8>, pos: int, gs: Seq<GeometryView<Coord>>, n: nat)
    requires
        n <= gs.len(),
        stands(b, pos, members_bytes(gs, n)),
        forall|i: int| 0 <= i < gs.len() ==> wkb_fits(#[trigger] gs[i]),
    ensures
        members_read(b, pos, n) == Some((gs.take(n as int), pos + members_bytes(gs, n).len())),
    decreases gs, n,
{
    if n > 0 {
        let head = members_bytes(gs, (n - 1) as nat);
        lemma_stands_split(b, pos, head, wkb_bytes(gs[n - 1]));
        lemma_members_read(b, pos, gs, (n - 1) as nat);
        assert(wkb_fits(gs[n - 1]));
        written_geometries_are_read_back(b, pos + head.len(), gs[n - 1]);
        assert(gs.take(n - 1).push(gs[n - 1]) =~= gs.take(n as int));
    } else {
        assert(gs.take(0) =~= Seq::<GeometryView<Coord>>::empty());
    }
}

proof fn lemma_points_stuck(b: Seq<u8>, pos: int, m: int, n: int)
    requires
        1 <= m <= n,
        points_read(b, pos, m) is None,
    ensures
        points_read(b, pos, n) is None,
    decreases n,
{
    if m < n {
        lemma_points_stuck(b, pos, m, n - 1);
    }
}

proof fn lemma_tagged_lines_stuck(b: Seq<u8>, pos: int, m: int, n: int)
    requires
        1 <= m <= n,
        tagged_lines_read(b, pos, m) is None,
    ensures
        tagged_lines_read(b, pos, n) is None,
    decreases n,
{
    if m < n {
        lemma_tagged_lines_stuck(b, pos, m, n - 1);
    }
}

proof fn lemma_tagged_polygons_stuck(b: Seq<u8>, pos: int, m: int, n: int)
    requires
        1 <= m <= n,
        tagged_polygons_read(b, pos, m) is None,
    ensures
        tagged_polygons_read(b, pos, n) is None,
    decreases n,
{
    if m < n {
        lemma_tagged_polygons_stuck(b, pos, m, n - 1);
    }
}

proof fn lemma_members_stuck(b: Seq<u8>, pos: int, m: nat, n: nat)
    requires
        1 <= m <= n,
        members_read(b, pos, m) is None,
    ensures
        members_read(b, pos, n) is None,
    decreases n,
{
    if m < n {
        lemma_members_stuck(b, pos, m, (n - 1) as nat);
    }
}

fn read_head(b: &[u8], pos: usize) -> (r: Option<(u32, usize)>)
    requires
        pos <= b.len(),
    ensures
        match head_read(b@, pos as int) {
            None => r is None,
            Some((k, p)) => r matches Some((m, q)) && m == k && q == p && q <= b.len(),
        },
{
    if b.len() - pos < 5 || b[pos] != 1 {
        return None;
    }
    Some((read_u32_le(b, pos + 1), pos + 5))
}

fn read_rings(b: &[u8], pos: usize) -> (r: Option<(Polygon<Coord>, usize)>)
    requires
        pos <= b.len(),
    ensures
        match rings_read(b@, pos as int) {
            None => r is None,
            Some((g, p)) => r matches Some((v, q)) && v.shape() == g && q == p && pos <= q <= b.len(),
        },
{
    let (n, start) = match read_count(b, pos) {
        Some(r) => r,
        None => return None,
    };
    let (rings, end) = match read_lines(b, start, n) {
        Some(r) => r,
        None => return None,
    };
    let ghost shapes = line_shapes(rings@);
    let mut rings = rings;
    if rings.len() == 0 {
        let p: Polygon<Coord> = Polygon { exterior: Vec::new(), interiors: Vec::new() };
        assert(p.shape() =~= polygon_of(shapes));
        return Some((p, end));
    }
    let exterior = rings.remove(0);
    let p = Polygon { exterior, interiors: rings };
    proof {
        assert(line_shapes(p.interiors@) =~= shapes.skip(1));
        assert(p.shape() =~= polygon_of(shapes));
    }
    Some((p, end))
}

fn read_points(b: &[u8], pos: usize, n: u32) -> (r: Option<(Vec<Coord>, usize)>)
    requires
        pos <= b.len(),
    ensures
        match points_read(b@, pos as int, n as int) {
            None => r is None,
            Some((cs, p)) => r matches Some((v, q)) && v@ == cs && q == p && pos <= q <= b.len(),
        },
{
    let mut at: usize = pos;
    let mut cs: Vec<Coord> = Vec::new();
    let mut i: u32 = 0;
    while i < n
        invariant
            i <= n,
            pos <= at <= b.len(),
            points_read(b@, pos as int, i as int) == Some((cs@, at as int)),
        decreases n - i,
    {
        let next: Option<(Coord, usize)> = match read_head(b, at) {
            Some((k, p)) => if k == 1 {
                read_coord(b, p)
            } else {
                None
            },
            None => None,
        };
        match next {
            Some((c, e)) => {
                cs.push(c);
                at = e;
            },
            None => {
                proof {
                    lemma_points_stuck(b@, pos as int, i + 1, n as int);
                }
                return None;
            },
        }
        i = i + 1;
    }
    Some((cs, at))
}

fn read_tagged_lines(b: &[u8], pos: usize, n: u32) -> (r: Option<(Vec<Vec<Coord>>, usize)>)
    requires
        pos <= b.len(),
    ensures
        match tagged_lines_read(b@, pos as int, n as int) {
            None => r is None,
            Some((ls, p)) => r matches Some((v, q)) && line_shapes(v@) == ls && q == p && pos <= q
                <= b.len(),
        },
{
    let mut at: usize = pos;
    let mut ls: Vec<Vec<Coord>> = Vec::new();
    let mut i: u32 = 0;
    assert(line_shapes(ls@) =~= Seq::<Seq<Coord>>::empty());
    while i < n
        invariant
            i <= n,
            pos <= at <= b.len(),
            tagged_lines_read(b@, pos as int, i as int) == Some((line_shapes(ls@), at as int)),
        decreases n - i,
    {
        let next: Option<(Vec<Coord>, usize)> = match read_head(b, at) {
            Some((k, p)) => if k == 2 {
                read_line(b, p)
            } else {
                None
            },
            None => None,
        };
        match next {
            Some((l, e)) => {
                let ghost before = line_shapes(ls@);
                ls.push(l);
                assert(line_shapes(ls@) =~= before.push(l@));
                at = e;
            },
            None => {
                proof {
                    lemma_tagged_lines_stuck(b@, pos as int, i + 1, n as int);
                }
                return None;
            },
        }
        i = i + 1;
    }
    Some((ls, at))
}

fn read_tagged_polygons(b: &[u8], pos: usize, n: u32) -> (r: Option<(Vec<Polygon<Coord>>, usize)>)
    requires
        pos <= b.len(),
    ensures
        match tagged_polygons_read(b@, pos as int, n as int) {
            None => r is None,
            Some((ps, p)) => r matches Some((v, q)) && polygon_shapes(v@) == ps && q == p && pos <= q
                <= b.len(),
        },
{
    let mut at: usize = pos;
    let mut ps: Vec<Polygon<Coord>> = Vec::new();
    let mut i: u32 = 0;
    assert(polygon_shapes(ps@) =~= Seq::<PolygonShape<Coord>>::empty());
    while i < n
        invariant
            i <= n,
            pos <= at <= b.len(),
            tagged_polygons_read(b@, pos as int, i as int) == Some((polygon_shapes(ps@), at as int)),
        decreases n - i,
    {
        let next: Option<(Polygon<Coord>, usize)> = match read_head(b, at) {
            Some((k, p)) => if k == 3 {
                read_rings(b, p)
            } else {
                None
            },
            None => None,
        };
        match next {
            Some((g, e)) => {
                let ghost before = polygon_shapes(ps@);
                ps.push(g);
                assert(polygon_shapes(ps@) =~= before.push(g.shape()));
                at = e;
            },
            None => {
                proof {
                    lemma_tagged_polygons_stuck(b@, pos as int, i + 1, n as int);
                }
                return None;
            },
        }
        i = i + 1;
    }
    Some((ps, at))
}

fn read_members(b: &[u8], pos: usize, n: u32) -> (r: Option<(Vec<Geometry<Coord>>, usize)>)
    requires
        pos <= b.len(),
    ensures
        match members_read(b@, pos as int, n as nat) {
            None => r is None,
            Some((gs, p)) => r matches Some((v, q)) && member_views(v, v@.len()) == gs && q == p
                && pos <= q <= b.len(),
        },
    decreases b.len() - pos, 1nat,
{
    let mut at: usize = pos;
    let mut gs: Vec<Geometry<Coord>> = Vec::new();
    let mut i: u32 = 0;
    while i < n
        invariant
            i <= n,
            pos <= at <= b.len(),
            members_read(b@, pos as int, i as nat) == Some(
                (member_views(gs, gs@.len()), at as int),
            ),
        decreases n - i,
    {
        match read_geometry(b, at) {
            Some((g, e)) => {
                let ghost before = gs;
                gs.push(g);
                proof {
                    lemma_same_members(gs, before, before@.len());
                }
                at = e;
            },
            None => {
                proof {
                    lemma_members_stuck(b@, pos as int, (i + 1) as nat, n as nat);
                }
                return None;
            },
        }
        i = i + 1;
    }
    Some((gs, at))
}

/// Read the geometry at `pos`; also returns where it ends.
pub fn read_geometry(b: &[u8], pos: usize) -> (r: Option<(Geometry<Coord>, usize)>)
    requires
        pos <= b.len(),
    ensures
        match wkb_read(b@, pos as int) {
            None => r is None,
            Some((v, p)) => r matches Some((g, q)) && geometry_view(g) == v && q == p && pos <= q
                <= b.len(),
        },
    decreases b.len() - pos, 0nat,
{
    let (kind, body) = match read_head(b, pos) {
        Some(r) => r,
        None => return None,
    };
    if kind == 1 {
        return match read_coord(b, body) {
            Some((c, e)) => Some((Geometry::Point(c), e)),
            None => None,
        };
    }
    if kind == 2 {
        return match read_line(b, body) {
            Some((cs, e)) => Some((Geometry::LineString(cs), e)),
            None => None,
        };
    }
    if kind == 3 {
        return match read_rings(b, body) {
            Some((g, e)) => Some((Geometry::Polygon(g), e)),
            None => None,
        };
    }
    let (n, start) = match read_count(b, body) {
        Some(r) => r,
        None => return None,
    };
    if kind == 4 {
        return match read_points(b, start, n) {
            Some((cs, e)) => Some((Geometry::MultiPoint(cs), e)),
            None => None,
        };
    }
    if kind == 5 {
        return match read_tagged_lines(b, start, n) {
            Some((ls, e)) => Some((Geometry::MultiLineString(ls), e)),
            None => None,
        };
    }
    if kind == 6 {
        return match read_tagged_polygons(b, start, n) {
            Some((ps, e)) => Some((Geometry::MultiPolygon(ps), e)),
            None => None,
        };
    }
    if kind == 7 {
        return match read_members(b, start, n) {
            Some((gs, e)) => Some((Geometry::GeometryCollection(gs), e)),
            None => None,
        };
    }
    None
}

} // verus!
