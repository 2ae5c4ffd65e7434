//! Clipping geometries to a tile: which points stay, how a line is cut, and what
//! the pieces become.

use vstd::prelude::*;

use crate::extent::{
    all_numbers, bounding_box, every_part_counts, nothing_held, outline, stretched_box_holds_all,
    stretched_box_is_tight, stretched_over,
};
use crate::geometry::{
    geometry_view, lemma_same_members, line_shapes, member_views, polygon_shapes, Coord, Geometry,
    GeometryView, Polygon, PolygonShape,
};
use crate::number::{at_most, below, is_nan, less, less_or_equal};
use crate::order::lemma_filter_push;

verus! {

/// A box, as bit patterns.
#[derive(Debug, Clone, Copy)]
pub struct Bounds {
    pub min_x: u64,
    pub min_y: u64,
    pub max_x: u64,
    pub max_y: u64,
}

/// The point is in the box or on its edge.
pub open spec fn holds(b: Bounds, p: Coord) -> bool {
    at_most(b.min_x, p.x) && at_most(b.min_y, p.y) && at_most(p.x, b.max_x) && at_most(p.y, b.max_y)
}

/// The boxes have a point in common.
pub open spec fn meets(a: Bounds, b: Bounds) -> bool {
    !below(a.max_x, b.min_x) && !below(a.max_y, b.min_y) && !below(b.max_x, a.min_x) && !below(
        b.max_y,
        a.min_y,
    )
}

/// Two boxes meet exactly if some point lies in both.
pub proof fn boxes_meet_in_a_point(a: Bounds, b: Bounds)
    requires
        at_most(a.min_x, a.max_x) && at_most(a.min_y, a.max_y),
        at_most(b.min_x, b.max_x) && at_most(b.min_y, b.max_y),
    ensures
        meets(a, b) <==> exists|p: Coord| #[trigger] holds(a, p) && holds(b, p),
{
    if meets(a, b) {
        let p = Coord {
            x: if below(a.min_x, b.min_x) {
                b.min_x
            } else {
                a.min_x
            },
            y: if below(a.min_y, b.min_y) {
                b.min_y
            } else {
                a.min_y
            },
        };
        assert(holds(a, p) && holds(b, p));
    }
}

impl Bounds {
    /// Whether the point is in the box or on its edge.
    pub fn contains(&self, p: Coord) -> (r: bool)
        ensures
            r == holds(*self, p),
    {
        less_or_equal(self.min_x, p.x) && less_or_equal(self.min_y, p.y) && less_or_equal(
            p.x,
            self.max_x,
        ) && less_or_equal(p.y, self.max_y)
    }

    /// Whether the boxes have a point in common.
    pub fn intersects(&self, other: &Bounds) -> (r: bool)
        ensures
            r == meets(*self, *other),
    {
        !less(self.max_x, other.min_x) && !less(self.max_y, other.min_y) && !less(
            other.max_x,
            self.min_x,
        ) && !less(other.max_y, self.min_y)
    }
}

/// Where a point lies: 1 left of the box, 2 right of it, 4 below, 8 above, and
/// their sums.
pub open spec fn region(p: Coord, b: Bounds) -> u8 {
    let across: u8 = if below(p.x, b.min_x) {
        1
    } else if below(b.max_x, p.x) {
        2
    } else {
        0
    };
    let along: u8 = if below(p.y, b.min_y) {
        4
    } else if below(b.max_y, p.y) {
        8
    } else {
        0
    };
    (across + along) as u8
}

/// Where a point lies.
pub fn outcode(p: Coord, tile: &Bounds) -> (code: u8)
    ensures
        code == region(p, *tile),
{
    let across: u8 = if less(p.x, tile.min_x) {
        1
    } else if less(tile.max_x, p.x) {
        2
    } else {
        0
    };
    let along: u8 = if less(p.y, tile.min_y) {
        4
    } else if less(tile.max_y, p.y) {
        8
    } else {
        0
    };
    across + along
}

/// A point lies in the region 0 just if the tile holds it.
pub proof fn inside_is_held(p: Coord, b: Bounds)
    requires
        !is_nan(p.x),
        !is_nan(p.y),
        !is_nan(b.min_x),
        !is_nan(b.min_y),
        !is_nan(b.max_x),
        !is_nan(b.max_y),
    ensures
        (region(p, b) == 0) == holds(b, p),
{
}

/// An edge of the tile.
#[derive(Debug, Clone, Copy, PartialEq, Eq)]
pub enum Edge {
    Left,
    Right,
    Bottom,
    Top,
}

/// What is done next with a segment.
#[derive(Debug, Clone, Copy, PartialEq, Eq)]
pub enum ClipStep {
    /// It is inside.
    Keep,
    /// Both ends are beyond the same edge.
    Discard,
    /// One end is moved to where the segment crosses the line of an edge.
    Cut { start: bool, edge: Edge },
}

/// The edge that a point beyond the tile is moved to.
pub open spec fn edge_for(code: u8) -> Edge {
    if code / 4 == 2 {
        Edge::Top
    } else if code / 4 == 1 {
        Edge::Bottom
    } else if code % 4 == 2 {
        Edge::Right
    } else {
        Edge::Left
    }
}

/// Both points lie beyond the same edge.
pub open spec fn same_side(a: u8, b: u8) -> bool {
    (a % 4 != 0 && a % 4 == b % 4) || (a / 4 != 0 && a / 4 == b / 4)
}

/// The next step on a segment whose ends lie in the given regions.
pub open spec fn next_step(start: u8, end: u8) -> ClipStep {
    if start == 0 && end == 0 {
        ClipStep::Keep
    } else if same_side(start, end) {
        ClipStep::Discard
    } else if start != 0 {
        ClipStep::Cut { start: true, edge: edge_for(start) }
    } else {
        ClipStep::Cut { start: false, edge: edge_for(end) }
    }
}

fn edge_of(code: u8) -> (e: Edge)
    ensures
        e == edge_for(code),
{
    if code / 4 == 2 {
        Edge::Top
    } else if code / 4 == 1 {
        Edge::Bottom
    } else if code % 4 == 2 {
        Edge::Right
    } else {
        Edge::Left
    }
}

/// The next step on a segment.
pub fn clip_step(a: Coord, b: Coord, tile: &Bounds) -> (s: ClipStep)
    ensures
        s == next_step(region(a, *tile), region(b, *tile)),
{
    let start: u8 = outcode(a, tile);
    let end: u8 = outcode(b, tile);
    if start == 0 && end == 0 {
        return ClipStep::Keep;
    }
    if (start % 4 != 0 && start % 4 == end % 4) || (start / 4 != 0 && start / 4 == end / 4) {
        return ClipStep::Discard;
    }
    if start != 0 {
        ClipStep::Cut { start: true, edge: edge_of(start) }
    } else {
        ClipStep::Cut { start: false, edge: edge_of(end) }
    }
}

/// Both ends lie beyond one edge.
pub open spec fn beyond_one_edge(a: Coord, b: Coord, t: Bounds) -> bool {
    (below(a.x, t.min_x) && below(b.x, t.min_x)) || (below(t.max_x, a.x) && below(t.max_x, b.x))
        || (below(a.y, t.min_y) && below(b.y, t.min_y)) || (below(t.max_y, a.y) && below(
        t.max_y,
        b.y,
    ))
}

/// A segment is kept as it is just if both ends are inside, it is discarded just
/// if both ends are beyond one edge, and an end is cut only if it is outside, at
/// an edge that it is beyond.
pub proof fn steps_are_right(a: Coord, b: Coord, t: Bounds)
    requires
        !below(t.max_x, t.min_x),
        !below(t.max_y, t.min_y),
    ensures
        ({
            let s = next_step(region(a, t), region(b, t));
            &&& s is Keep <==> region(a, t) == 0 && region(b, t) == 0
            &&& s is Discard <==> !(s is Keep) && beyond_one_edge(a, b, t)
            &&& s matches ClipStep::Cut { start, edge } ==> {
                let p = if start {
                    a
                } else {
                    b
                };
                match edge {
                    Edge::Left => below(p.x, t.min_x),
                    Edge::Right => below(t.max_x, p.x),
                    Edge::Bottom => below(p.y, t.min_y),
                    Edge::Top => below(t.max_y, p.y),
                }
            }
        }),
{
}

/// What clipping has left of a segment.
#[derive(Debug, Clone, Copy)]
pub struct Piece {
    /// The part within the tile, if any.
    pub segment: Option<(Coord, Coord)>,
    /// Whether it starts away from the end of the piece before it.
    pub gap: bool,
}

/// A line that is put together from clipped segments: the finished lines, and the
/// points of the current one.
#[verifier::ext_equal]
pub struct Joining {
    pub lines: Seq<Seq<Coord>>,
    pub current: Seq<Coord>,
}

/// The current line is finished; one without a segment is dropped.
pub open spec fn finished(j: Joining) -> Joining {
    Joining {
        lines: if j.current.len() >= 2 {
            j.lines.push(j.current)
        } else {
            j.lines
        },
        current: Seq::empty(),
    }
}

/// The lines after the first `n` segments. A discarded segment ends a line, and so
/// does a gap between a segment and the one before it.
pub open spec fn joined(pieces: Seq<Piece>, n: int) -> Joining
    decreases n,
{
    if n <= 0 {
        Joining { lines: Seq::empty(), current: Seq::empty() }
    } else {
        let j = joined(pieces, n - 1);
        match pieces[n - 1].segment {
            None => finished(j),
            Some((a, b)) => if j.current.len() > 0 && !pieces[n - 1].gap {
                Joining { lines: j.lines, current: j.current.push(b) }
            } else {
                Joining { lines: finished(j).lines, current: seq![a, b] }
            },
        }
    }
}

/// The lines that the clipped segments of a line form.
pub open spec fn joined_lines(pieces: Seq<Piece>) -> Seq<Seq<Coord>> {
    finished(joined(pieces, pieces.len() as int)).lines
}

/// The point is an end of one of the segments.
pub open spec fn comes_from(pieces: Seq<Piece>, p: Coord) -> bool {
    exists|k: int|
        0 <= k < pieces.len() && (#[trigger] pieces[k].segment matches Some((a, b)) && (p == a || p
            == b))
}

proof fn lemma_joined_sound(pieces: Seq<Piece>, n: int)
    requires
        0 <= n <= pieces.len(),
    ensures
        ({
            let j = joined(pieces, n);
            &&& j.current.len() == 0 || j.current.len() >= 2
            &&& forall|k: int|
                0 <= k < j.current.len() ==> comes_from(pieces, #[trigger] j.current[k])
            &&& forall|i: int| 0 <= i < j.lines.len() ==> (#[trigger] j.lines[i]).len() >= 2
            &&& forall|i: int, k: int|
                0 <= i < j.lines.len() && 0 <= k < j.lines[i].len() ==> comes_from(
                    pieces,
                    #[trigger] j.lines[i][k],
                )
        }),
    decreases n,
{
    if n > 0 {
        lemma_joined_sound(pieces, n - 1);
        let j = joined(pieces, n - 1);
        let next = joined(pieces, n);
        if let Some((a, b)) = pieces[n - 1].segment {
            assert(comes_from(pieces, a) && comes_from(pieces, b));
        }
        assert forall|k: int| 0 <= k < next.current.len() implies comes_from(
            pieces,
            #[trigger] next.current[k],
        ) by {
            if k < j.current.len() && next.current.len() > j.current.len() && j.current.len() > 0
                && !pieces[n - 1].gap {
                assert(next.current[k] == j.current[k]);
            }
        }
        assert forall|i: int| 0 <= i < next.lines.len() implies (#[trigger] next.lines[i]).len()
            >= 2 by {
            if i < j.lines.len() {
                assert(next.lines[i] == j.lines[i]);
            }
        }
        assert forall|i: int, k: int|
            0 <= i < next.lines.len() && 0 <= k < next.lines[i].len() implies comes_from(
            pieces,
            #[trigger] next.lines[i][k],
        ) by {
            if i < j.lines.len() {
                assert(next.lines[i] == j.lines[i]);
                assert(comes_from(pieces, j.lines[i][k]));
            } else {
                assert(next.lines[i] == j.current);
                assert(comes_from(pieces, j.current[k]));
            }
        }
    }
}

/// Every line that comes out has at least two points, and all its points are ends
/// of clipped segments.
pub proof fn joined_lines_are_sound(pieces: Seq<Piece>)
    ensures
        forall|i: int|
            0 <= i < joined_lines(pieces).len() ==> (#[trigger] joined_lines(pieces)[i]).len() >= 2,
        forall|i: int, k: int|
            0 <= i < joined_lines(pieces).len() && 0 <= k < joined_lines(pieces)[i].len()
                ==> comes_from(pieces, #[trigger] joined_lines(pieces)[i][k]),
{
    lemma_joined_sound(pieces, pieces.len() as int);
    let j = joined(pieces, pieces.len() as int);
    let lines = joined_lines(pieces);
    assert forall|i: int| 0 <= i < lines.len() implies (#[trigger] lines[i]).len() >= 2 by {
        if i < j.lines.len() {
            assert(lines[i] == j.lines[i]);
        }
    }
    assert forall|i: int, k: int|
        0 <= i < lines.len() && 0 <= k < lines[i].len() implies comes_from(
        pieces,
        #[trigger] lines[i][k],
    ) by {
        if i < j.lines.len() {
            assert(lines[i] == j.lines[i]);
            assert(comes_from(pieces, j.lines[i][k]));
        } else {
            assert(lines[i] == j.current);
            assert(comes_from(pieces, j.current[k]));
        }
    }
}

fn finish_line(lines: &mut Vec<Vec<Coord>>, current: &mut Vec<Coord>)
    ensures
        final(current)@ == Seq::<Coord>::empty(),
        line_shapes(final(lines)@) == finished(
            Joining { lines: line_shapes(old(lines)@), current: old(current)@ },
        ).lines,
{
    let ghost before = line_shapes(lines@);
    let mut line: Vec<Coord> = Vec::new();
    std::mem::swap(current, &mut line);
    if line.len() >= 2 {
        let ghost added = line@;
        lines.push(line);
        assert(line_shapes(lines@) =~= before.push(added));
    }
}

/// Put clipped segments together to lines.
pub fn join_pieces(pieces: &Vec<Piece>) -> (lines: Vec<Vec<Coord>>)
    ensures
        line_shapes(lines@) == joined_lines(pieces@),
{
    let mut lines: Vec<Vec<Coord>> = Vec::new();
    let mut current: Vec<Coord> = Vec::new();
    let mut i: usize = 0;
    assert(line_shapes(lines@) =~= Seq::<Seq<Coord>>::empty());
    while i < pieces.len()
        invariant
            i <= pieces.len(),
            joined(pieces@, i as int) == (Joining {
                lines: line_shapes(lines@),
                current: current@,
            }),
        decreases pieces.len() - i,
    {
        let piece = pieces[i];
        match piece.segment {
            None => {
                finish_line(&mut lines, &mut current);
            },
            Some((a, b)) => {
                if current.len() > 0 && !piece.gap {
                    current.push(b);
                } else {
                    finish_line(&mut lines, &mut current);
                    current.push(a);
                    current.push(b);
                    assert(current@ =~= seq![a, b]);
                }
            },
        }
        i = i + 1;
    }
    finish_line(&mut lines, &mut current);
    lines
}

/// What floating-point arithmetic finds out about a geometry: the clipped segments
/// of its lines, or the intersection of its polygons with the tile.
pub enum Cut {
    /// Nothing is needed.
    Nothing,
    /// The segments of a line.
    Line(Vec<Piece>),
    /// The segments of several lines.
    Lines(Vec<Vec<Piece>>),
    /// The polygons of the intersection.
    Polygons(Vec<Polygon<Coord>>),
    /// What is found out about each member of a collection.
    Members(Vec<Cut>),
}

/// The segments of a line.
pub open spec fn line_pieces(cut: Cut) -> Seq<Piece> {
    match cut {
        Cut::Line(v) => v@,
        _ => Seq::empty(),
    }
}

/// The lines that the first `n` lines are cut into.
pub open spec fn cut_lines(v: Seq<Vec<Piece>>, n: int) -> Seq<Seq<Coord>>
    decreases n,
{
    if n <= 0 {
        Seq::empty()
    } else {
        cut_lines(v, n - 1) + joined_lines(v[n - 1]@)
    }
}

/// The lines that several lines are cut into.
pub open spec fn all_cut_lines(cut: Cut) -> Seq<Seq<Coord>> {
    match cut {
        Cut::Lines(v) => cut_lines(v@, v@.len() as int),
        _ => Seq::empty(),
    }
}

/// The polygons of the intersection.
pub open spec fn cut_polygons(cut: Cut) -> Seq<PolygonShape<Coord>> {
    match cut {
        Cut::Polygons(v) => polygon_shapes(v@),
        _ => Seq::empty(),
    }
}

/// The geometry may reach into the tile: its bounding box does.
pub open spec fn may_reach(g: Geometry<Coord>, tile: Bounds) -> bool {
    outline(g).len() > 0 && meets(stretched_over(nothing_held(), outline(g)), tile)
}

/// What is left of a geometry in a tile.
pub open spec fn clipped(g: Geometry<Coord>, tile: Bounds, cut: Cut) -> Option<GeometryView<Coord>>
    decreases g, 0nat,
{
    if !may_reach(g, tile) {
        None
    } else {
        match g {
            Geometry::Point(p) => if holds(tile, p) {
                Some(GeometryView::Point(p))
            } else {
                None
            },
            Geometry::MultiPoint(v) => {
                let kept = v@.filter(|p: Coord| holds(tile, p));
                if kept.len() == 0 {
                    None
                } else {
                    Some(GeometryView::MultiPoint(kept))
                }
            },
            Geometry::LineString(_) => {
                let lines = joined_lines(line_pieces(cut));
                if lines.len() == 0 {
                    None
                } else if lines.len() == 1 {
                    Some(GeometryView::LineString(lines[0]))
                } else {
                    Some(GeometryView::MultiLineString(lines))
                }
            },
            Geometry::Line(_, _) => {
                let lines = joined_lines(line_pieces(cut));
                if lines.len() == 0 {
                    None
                } else {
                    Some(GeometryView::MultiLineString(lines))
                }
            },
            Geometry::MultiLineString(_) => {
                let lines = all_cut_lines(cut);
                if lines.len() == 0 {
                    None
                } else {
                    Some(GeometryView::MultiLineString(lines))
                }
            },
            Geometry::Polygon(_) => {
                let parts = cut_polygons(cut);
                if parts.len() == 0 {
                    None
                } else if parts.len() == 1 {
                    Some(GeometryView::Polygon(parts[0]))
                } else {
                    Some(GeometryView::MultiPolygon(parts))
                }
            },
            Geometry::MultiPolygon(_) => {
                let parts = cut_polygons(cut);
                if parts.len() == 0 {
                    None
                } else {
                    Some(GeometryView::MultiPolygon(parts))
                }
            },
            Geometry::GeometryCollection(v) => {
                let parts = clipped_members(v, tile, cut, v@.len());
                if parts.len() == 0 {
                    None
                } else {
                    Some(GeometryView::GeometryCollection(parts))
                }
            },
            Geometry::Other => Some(GeometryView::Other),
        }
    }
}

/// What is found out about member `i` of a collection.
pub open spec fn member_cut(cut: Cut, i: int) -> Cut {
    match cut {
        Cut::Members(c) => if 0 <= i < c@.len() {
            c@[i]
        } else {
            Cut::Nothing
        },
        _ => Cut::Nothing,
    }
}

/// What is left of the first `n` members of a collection.
pub open spec fn clipped_members(
    v: Vec<Geometry<Coord>>,
    tile: Bounds,
    cut: Cut,
    n: nat,
) -> Seq<GeometryView<Coord>>
    decreases v, n,
{
    if n == 0 || n > v@.len() {
        Seq::empty()
    } else {
        let head = clipped_members(v, tile, cut, (n - 1) as nat);
        match clipped(v@[n - 1], tile, member_cut(cut, n - 1)) {
            Some(part) => head.push(part),
            None => head,
        }
    }
}

/// The box holds every point.
pub open spec fn holds_all(b: Bounds, cs: Seq<Coord>) -> bool {
    forall|i: int| 0 <= i < cs.len() ==> holds(b, #[trigger] cs[i])
}

/// The box holds every point of every line.
pub open spec fn holds_lines(b: Bounds, ls: Seq<Seq<Coord>>) -> bool {
    forall|i: int| 0 <= i < ls.len() ==> holds_all(b, #[trigger] ls[i])
}

/// The box holds every point of the polygon.
pub open spec fn holds_polygon(b: Bounds, p: PolygonShape<Coord>) -> bool {
    holds_all(b, p.exterior) && holds_lines(b, p.interiors)
}

/// The box holds every point of every polygon.
pub open spec fn holds_polygons(b: Bounds, ps: Seq<PolygonShape<Coord>>) -> bool {
    forall|i: int| 0 <= i < ps.len() ==> holds_polygon(b, #[trigger] ps[i])
}

/// The box holds both ends of every clipped segment.
pub open spec fn holds_pieces(b: Bounds, pieces: Seq<Piece>) -> bool {
    forall|k: int|
        0 <= k < pieces.len() ==> (#[trigger] pieces[k].segment matches Some((p, q)) ==> holds(b, p)
            && holds(b, q))
}

/// The box holds what floating-point arithmetic has found out.
pub open spec fn holds_cut(b: Bounds, cut: Cut) -> bool
    decreases cut, 0nat,
{
    match cut {
        Cut::Nothing => true,
        Cut::Line(v) => holds_pieces(b, v@),
        Cut::Lines(v) => forall|i: int| 0 <= i < v@.len() ==> holds_pieces(b, (#[trigger] v@[i])@),
        Cut::Polygons(v) => holds_polygons(b, polygon_shapes(v@)),
        Cut::Members(v) => holds_cuts(b, v, v@.len()),
    }
}

/// The box holds what has been found out about the first `n` members.
pub open spec fn holds_cuts(b: Bounds, v: Vec<Cut>, n: nat) -> bool
    decreases v, n,
{
    n == 0 || n > v@.len() || (holds_cuts(b, v, (n - 1) as nat) && holds_cut(b, v@[n - 1]))
}

/// The box holds every point of the geometry.
pub open spec fn holds_geometry(b: Bounds, g: GeometryView<Coord>) -> bool
    decreases g,
{
    match g {
        GeometryView::Point(p) => holds(b, p),
        GeometryView::Line(p, q) => holds(b, p) && holds(b, q),
        GeometryView::LineString(v) => holds_all(b, v),
        GeometryView::Polygon(p) => holds_polygon(b, p),
        GeometryView::MultiPoint(v) => holds_all(b, v),
        GeometryView::MultiLineString(ls) => holds_lines(b, ls),
        GeometryView::MultiPolygon(ps) => holds_polygons(b, ps),
        GeometryView::GeometryCollection(gs) => forall|i: int|
            0 <= i < gs.len() ==> holds_geometry(b, #[trigger] gs[i]),
        GeometryView::Other => true,
    }
}

proof fn lemma_joined_held(b: Bounds, pieces: Seq<Piece>)
    requires
        holds_pieces(b, pieces),
    ensures
        holds_lines(b, joined_lines(pieces)),
{
    joined_lines_are_sound(pieces);
    let lines = joined_lines(pieces);
    assert forall|i: int| 0 <= i < lines.len() implies holds_all(b, #[trigger] lines[i]) by {
        assert forall|k: int| 0 <= k < lines[i].len() implies holds(b, #[trigger] lines[i][k]) by {
            assert(comes_from(pieces, lines[i][k]));
        }
    }
}

proof fn lemma_cut_lines_held(b: Bounds, v: Seq<Vec<Piece>>, n: int)
    requires
        0 <= n <= v.len(),
        forall|i: int| 0 <= i < v.len() ==> holds_pieces(b, (#[trigger] v[i])@),
    ensures
        holds_lines(b, cut_lines(v, n)),
    decreases n,
{
    if n > 0 {
        lemma_cut_lines_held(b, v, n - 1);
        assert(holds_pieces(b, v[n - 1]@));
        lemma_joined_held(b, v[n - 1]@);
        let head = cut_lines(v, n - 1);
        let tail = joined_lines(v[n - 1]@);
        assert forall|i: int| 0 <= i < (head + tail).len() implies holds_all(
            b,
            #[trigger] (head + tail)[i],
        ) by {
            if i < head.len() {
                assert(holds_all(b, head[i]));
            } else {
                assert(holds_all(b, tail[i - head.len()]));
            }
        }
    }
}

proof fn lemma_member_cut_held(b: Bounds, v: Vec<Cut>, n: nat, i: int)
    requires
        holds_cuts(b, v, n),
        0 <= i < n <= v@.len(),
    ensures
        holds_cut(b, v@[i]),
    decreases n,
{
    if i < n - 1 {
        lemma_member_cut_held(b, v, (n - 1) as nat, i);
    }
}

/// What is left of a geometry lies in the tile, as long as the cut segments and
/// polygons do.
pub proof fn clipped_parts_lie_in_the_tile(g: Geometry<Coord>, tile: Bounds, cut: Cut)
    requires
        holds_cut(tile, cut),
    ensures
        clipped(g, tile, cut) matches Some(part) ==> holds_geometry(tile, part),
    decreases g, 0nat,
{
    if may_reach(g, tile) {
        match g {
            Geometry::MultiPoint(v) => {
                let inside = |p: Coord| holds(tile, p);
                let kept = v@.filter(inside);
                assert forall|i: int| 0 <= i < kept.len() implies holds(
                    tile,
                    #[trigger] kept[i],
                ) by {
                    v@.lemma_filter_pred(inside, i);
                }
            },
            Geometry::LineString(_) => {
                lemma_joined_held(tile, line_pieces(cut));
            },
            Geometry::Line(_, _) => {
                lemma_joined_held(tile, line_pieces(cut));
            },
            Geometry::MultiLineString(_) => {
                if let Cut::Lines(v) = cut {
                    lemma_cut_lines_held(tile, v@, v@.len() as int);
                }
            },
            Geometry::GeometryCollection(v) => {
                lemma_clipped_members_held(v, tile, cut, v@.len());
                let parts = clipped_members(v, tile, cut, v@.len());
                assert(holds_geometry(tile, GeometryView::GeometryCollection(parts)));
            },
            Geometry::Polygon(_) => {
                assert(holds_polygons(tile, cut_polygons(cut)));
            },
            Geometry::MultiPolygon(_) => {
                assert(holds_polygons(tile, cut_polygons(cut)));
            },
            _ => {},
        }
    }
}

proof fn lemma_clipped_members_held(v: Vec<Geometry<Coord>>, tile: Bounds, cut: Cut, n: nat)
    requires
        holds_cut(tile, cut),
        n <= v@.len(),
    ensures
        forall|i: int|
            0 <= i < clipped_members(v, tile, cut, n).len() ==> holds_geometry(
                tile,
                #[trigger] clipped_members(v, tile, cut, n)[i],
            ),
    decreases v, n,
{
    if n > 0 {
        lemma_clipped_members_held(v, tile, cut, (n - 1) as nat);
        let its_cut = member_cut(cut, n - 1);
        if let Cut::Members(c) = cut {
            if n - 1 < c@.len() {
                lemma_member_cut_held(tile, c, c@.len(), n - 1);
            }
        }
        assert(holds_cut(tile, its_cut));
        clipped_parts_lie_in_the_tile(v@[n - 1], tile, its_cut);
        let head = clipped_members(v, tile, cut, (n - 1) as nat);
        let all = clipped_members(v, tile, cut, n);
        assert forall|i: int| 0 <= i < all.len() implies holds_geometry(tile, #[trigger] all[i]) by {
            if i < head.len() {
                assert(all[i] == head[i]);
            }
        }
    }
}

/// A geometry that lies in the tile reaches it.
proof fn lemma_held_reaches(g: Geometry<Coord>, tile: Bounds)
    requires
        outline(g).len() > 0,
        holds_all(tile, outline(g)),
    ensures
        may_reach(g, tile),
{
    let cs = outline(g);
    assert(all_numbers(cs)) by {
        assert forall|i: int| 0 <= i < cs.len() implies !is_nan((#[trigger] cs[i]).x) && !is_nan(
            cs[i].y,
        ) by {
            assert(holds(tile, cs[i]));
        }
    }
    stretched_box_holds_all(nothing_held(), cs, 0);
    assert(holds(tile, cs[0]));
}

/// A geometry reaches the tile as soon as one of the points that its extent depends on
/// lies in it, however many others lie elsewhere.
pub proof fn one_point_in_the_tile_is_enough(g: Geometry<Coord>, tile: Bounds, c: Coord)
    requires
        all_numbers(outline(g)),
        outline(g).contains(c),
        holds(tile, c),
    ensures
        may_reach(g, tile),
{
    let cs = outline(g);
    let i = choose|i: int| 0 <= i < cs.len() && cs[i] == c;
    stretched_box_holds_all(nothing_held(), cs, i);
}

/// Nothing is left of a geometry that lies beyond one edge of the tile.
pub proof fn what_lies_beyond_an_edge_is_dropped(g: Geometry<Coord>, tile: Bounds, cut: Cut)
    requires
        below(nothing_held().max_x, tile.min_x) && below(tile.max_x, nothing_held().min_x),
        below(nothing_held().max_y, tile.min_y) && below(tile.max_y, nothing_held().min_y),
        ({
            ||| forall|i: int|
                0 <= i < outline(g).len() ==> below((#[trigger] outline(g)[i]).x, tile.min_x)
            ||| forall|i: int|
                0 <= i < outline(g).len() ==> below(tile.max_x, (#[trigger] outline(g)[i]).x)
            ||| forall|i: int|
                0 <= i < outline(g).len() ==> below((#[trigger] outline(g)[i]).y, tile.min_y)
            ||| forall|i: int|
                0 <= i < outline(g).len() ==> below(tile.max_y, (#[trigger] outline(g)[i]).y)
        }),
    ensures
        clipped(g, tile, cut) is None,
{
    stretched_box_is_tight(nothing_held(), outline(g));
}

/// The ends of a clipped segment.
pub open spec fn ends(p: Piece) -> (Coord, Coord) {
    p.segment->0
}

/// The number of segments that the lines have together: each has one fewer than
/// points.
pub open spec fn segment_count(lines: Seq<Seq<Coord>>) -> int {
    lines.fold_left(0int, |n: int, l: Seq<Coord>| n + l.len() - 1)
}

proof fn lemma_segment_count_push(lines: Seq<Seq<Coord>>, l: Seq<Coord>)
    ensures
        segment_count(lines.push(l)) == segment_count(lines) + l.len() - 1,
{
    assert(lines.push(l).drop_last() =~= lines);
}

/// Whether segment `k` starts a line: it is the first one, the one before it was
/// discarded, or there is a gap between them.
pub open spec fn starts_line(pieces: Seq<Piece>, k: int) -> bool {
    pieces[k].segment is Some && (k == 0 || pieces[k - 1].segment is None || pieces[k].gap)
}

proof fn lemma_joined_counts(pieces: Seq<Piece>, n: int)
    requires
        0 <= n <= pieces.len(),
    ensures
        ({
            let j = finished(joined(pieces, n));
            &&& segment_count(j.lines) == pieces.take(n).filter(
                |p: Piece| p.segment is Some,
            ).len()
            &&& j.lines.len() == Seq::new(n as nat, |k: int| k).filter(
                |k: int| starts_line(pieces, k),
            ).len()
            &&& joined(pieces, n).current.len() > 0 <==> n > 0 && pieces[n - 1].segment is Some
            &&& joined(pieces, n).current.len() != 1
        }),
    decreases n,
{
    reveal(Seq::filter);
    let whole = |p: Piece| p.segment is Some;
    let first = |k: int| starts_line(pieces, k);
    if n > 0 {
        lemma_joined_counts(pieces, n - 1);
        let before = joined(pieces, n - 1);
        let now = joined(pieces, n);
        assert(pieces.take(n).drop_last() =~= pieces.take(n - 1));
        assert(pieces.take(n).last() == pieces[n - 1]);
        let all = Seq::new(n as nat, |k: int| k);
        assert(all.drop_last() =~= Seq::new((n - 1) as nat, |k: int| k));
        assert(all.last() == n - 1);
        lemma_segment_count_push(before.lines, before.current);
        lemma_segment_count_push(now.lines, now.current);
    } else {
        assert(pieces.take(0) =~= Seq::<Piece>::empty());
        assert(Seq::new(0, |k: int| k) =~= Seq::<int>::empty());
    }
}

/// A line has the segment from `a` to `b`.
pub open spec fn has_segment(line: Seq<Coord>, a: Coord, b: Coord) -> bool {
    exists|m: int| 0 <= m && m + 1 < line.len() && #[trigger] line[m] == a && line[m + 1] == b
}

/// Where segment `k` starts: at its own start, or, where there is no gap, at the end of
/// the one before it.
pub open spec fn start_of(pieces: Seq<Piece>, k: int) -> Coord {
    if starts_line(pieces, k) {
        ends(pieces[k]).0
    } else {
        ends(pieces[k - 1]).1
    }
}

proof fn lemma_segment_stays(line: Seq<Coord>, c: Coord, a: Coord, b: Coord)
    requires
        has_segment(line, a, b),
    ensures
        has_segment(line.push(c), a, b),
{
    let m = choose|m: int|
        0 <= m && m + 1 < line.len() && #[trigger] line[m] == a && line[m + 1] == b;
    let longer = line.push(c);
    assert(longer[m] == a && longer[m + 1] == b);
}

proof fn lemma_joined_has(pieces: Seq<Piece>, n: int, k: int)
    requires
        0 <= k < n <= pieces.len(),
        pieces[k].segment is Some,
    ensures
        ({
            let j = joined(pieces, n);
            let a = start_of(pieces, k);
            let b = ends(pieces[k]).1;
            ||| has_segment(j.current, a, b)
            ||| exists|i: int| 0 <= i < j.lines.len() && has_segment(#[trigger] j.lines[i], a, b)
        }),
        pieces[n - 1].segment is Some ==> joined(pieces, n).current.len() >= 2
            && joined(pieces, n).current.last() == ends(pieces[n - 1]).1,
    decreases n,
{
    let a = start_of(pieces, k);
    let b = ends(pieces[k]).1;
    let before = joined(pieces, n - 1);
    let now = joined(pieces, n);
    lemma_joined_counts(pieces, n - 1);
    if k < n - 1 {
        lemma_joined_has(pieces, n - 1, k);
        if has_segment(before.current, a, b) {
            if pieces[n - 1].segment is Some && !pieces[n - 1].gap && before.current.len() > 0 {
                lemma_segment_stays(before.current, ends(pieces[n - 1]).1, a, b);
            } else {
                assert(now.lines[before.lines.len() as int] == before.current);
            }
        } else {
            let i = choose|i: int|
                0 <= i < before.lines.len() && has_segment(#[trigger] before.lines[i], a, b);
            assert(now.lines[i] == before.lines[i]);
        }
    } else {
        if n >= 2 && pieces[n - 2].segment is Some {
            lemma_joined_has(pieces, n - 1, n - 2);
        }
        if starts_line(pieces, k) {
            assert(now.current =~= seq![a, b]);
            assert(now.current[0] == a && now.current[0int + 1] == b);
        } else {
            let m = before.current.len() - 1;
            assert(now.current[m] == a && now.current[m + 1] == b);
        }
    }
}

/// The lines show every segment that was left and no more: each of them is found in
/// one of the lines, the lines have as many segments together, and a line starts just
/// where a segment does not go on from the one before it.
pub proof fn joined_lines_are_complete(pieces: Seq<Piece>)
    ensures
        forall|k: int|
            0 <= k < pieces.len() && (#[trigger] pieces[k]).segment is Some ==> exists|i: int|
                0 <= i < joined_lines(pieces).len() && has_segment(
                    #[trigger] joined_lines(pieces)[i],
                    start_of(pieces, k),
                    ends(pieces[k]).1,
                ),
        segment_count(joined_lines(pieces)) == pieces.filter(
            |p: Piece| p.segment is Some,
        ).len(),
        joined_lines(pieces).len() == Seq::new(pieces.len(), |k: int| k).filter(
            |k: int| starts_line(pieces, k),
        ).len(),
{
    let n = pieces.len() as int;
    lemma_joined_counts(pieces, n);
    assert(pieces.take(n) =~= pieces);
    let j = joined(pieces, n);
    let lines = joined_lines(pieces);
    assert forall|k: int|
        0 <= k < pieces.len() && (#[trigger] pieces[k]).segment is Some implies exists|i: int|
        0 <= i < lines.len() && has_segment(
            #[trigger] lines[i],
            start_of(pieces, k),
            ends(pieces[k]).1,
        ) by {
        lemma_joined_has(pieces, n, k);
        let a = start_of(pieces, k);
        let b = ends(pieces[k]).1;
        if has_segment(j.current, a, b) {
            assert(lines[j.lines.len() as int] == j.current);
        } else {
            let i = choose|i: int|
                0 <= i < j.lines.len() && has_segment(#[trigger] j.lines[i], a, b);
            assert(lines[i] == j.lines[i]);
        }
    }
}

proof fn lemma_filter_all(cs: Seq<Coord>, tile: Bounds)
    requires
        holds_all(tile, cs),
    ensures
        cs.filter(|p: Coord| holds(tile, p)) == cs,
    decreases cs.len(),
{
    reveal(Seq::filter);
    if cs.len() > 0 {
        let rest = cs.drop_last();
        assert(holds_all(tile, rest)) by {
            assert forall|i: int| 0 <= i < rest.len() implies holds(tile, #[trigger] rest[i]) by {
                assert(holds(tile, cs[i]));
            }
        }
        lemma_filter_all(rest, tile);
        assert(holds(tile, cs[cs.len() - 1]));
        assert(cs =~= rest.push(cs.last()));
    }
}

/// Points that lie in the tile clip to themselves. So does a line that lies in it, and
/// a polygon, as long as cutting them gives them back.
pub proof fn what_lies_in_the_tile_stays(g: Geometry<Coord>, tile: Bounds, cut: Cut)
    requires
        outline(g).len() > 0,
        holds_all(tile, outline(g)),
        match g {
            Geometry::Point(_) => true,
            Geometry::MultiPoint(_) => true,
            Geometry::LineString(v) => joined_lines(line_pieces(cut)) == seq![v@],
            Geometry::MultiLineString(v) => all_cut_lines(cut) == line_shapes(v@),
            Geometry::Polygon(p) => cut_polygons(cut) == seq![p.shape()],
            Geometry::MultiPolygon(v) => cut_polygons(cut) == polygon_shapes(v@),
            _ => false,
        },
    ensures
        clipped(g, tile, cut) == Some(geometry_view(g)),
{
    lemma_held_reaches(g, tile);
    match g {
        Geometry::Point(p) => {
            assert(outline(g)[0] == p);
        },
        Geometry::MultiPoint(v) => {
            lemma_filter_all(v@, tile);
        },
        Geometry::MultiLineString(v) => {
            if v@.len() == 0 {
                assert(outline(g).len() == 0);
            }
        },
        Geometry::MultiPolygon(v) => {
            if v@.len() == 0 {
                assert(outline(g).len() == 0);
            }
        },
        _ => {},
    }
}

/// What is left of a polygon, or of several, is the whole intersection with the tile,
/// however many polygons there were: nothing only if the intersection is empty, else
/// all of its polygons, in their order.
pub proof fn the_whole_intersection_stays(
    g: Geometry<Coord>,
    tile: Bounds,
    parts: Vec<Polygon<Coord>>,
)
    requires
        g is Polygon || g is MultiPolygon,
        may_reach(g, tile),
    ensures
        match clipped(g, tile, Cut::Polygons(parts)) {
            None => parts@.len() == 0,
            Some(GeometryView::Polygon(p)) => g is Polygon && parts@.len() == 1 && p.exterior
                == parts@[0].exterior@ && p.interiors == line_shapes(parts@[0].interiors@),
            Some(GeometryView::MultiPolygon(ps)) => {
                &&& ps.len() == parts@.len() > 0
                &&& g is Polygon ==> ps.len() > 1
                &&& forall|i: int|
                    0 <= i < ps.len() ==> (#[trigger] ps[i]).exterior == parts@[i].exterior@
                        && ps[i].interiors == line_shapes(parts@[i].interiors@)
            },
            _ => false,
        },
{
}

/// A polygon that reaches into the tile stays in it, whatever other polygons there are:
/// two features of several polygons that each have a point in the tile, and the same
/// intersection with it, clip to the same, and to something if the intersection is not
/// empty.
pub proof fn other_polygons_do_not_matter(
    v: Vec<Polygon<Coord>>,
    w: Vec<Polygon<Coord>>,
    i: int,
    j: int,
    c: Coord,
    d: Coord,
    tile: Bounds,
    cut: Cut,
)
    requires
        all_numbers(outline(Geometry::MultiPolygon(v))),
        all_numbers(outline(Geometry::MultiPolygon(w))),
        0 <= i < v@.len() && v@[i].exterior@.contains(c) && holds(tile, c),
        0 <= j < w@.len() && w@[j].exterior@.contains(d) && holds(tile, d),
    ensures
        clipped(Geometry::MultiPolygon(v), tile, cut) == clipped(
            Geometry::MultiPolygon(w),
            tile,
            cut,
        ),
        cut matches Cut::Polygons(parts) ==> (clipped(
            Geometry::MultiPolygon(v),
            tile,
            cut,
        ) is Some <==> parts@.len() > 0),
{
    every_part_counts(Geometry::MultiPolygon(v), c);
    every_part_counts(Geometry::MultiPolygon(w), d);
    assert(v@[i].exterior@.contains(c));
    assert(w@[j].exterior@.contains(d));
    one_point_in_the_tile_is_enough(Geometry::MultiPolygon(v), tile, c);
    one_point_in_the_tile_is_enough(Geometry::MultiPolygon(w), tile, d);
}

proof fn lemma_cut_lines_hold(v: Seq<Vec<Piece>>, n: int, line: Seq<Coord>)
    requires
        0 <= n <= v.len(),
    ensures
        cut_lines(v, n).contains(line) <==> exists|i: int|
            0 <= i < n && joined_lines((#[trigger] v[i])@).contains(line),
        cut_lines(v, n).len() == v.take(n).fold_left(
            0int,
            |m: int, p: Vec<Piece>| m + joined_lines(p@).len(),
        ),
    decreases n,
{
    if n > 0 {
        lemma_cut_lines_hold(v, n - 1, line);
        let head = cut_lines(v, n - 1);
        let tail = joined_lines(v[n - 1]@);
        assert(v.take(n).drop_last() =~= v.take(n - 1));
        assert(v.take(n).last() == v[n - 1]);
        if head.contains(line) {
            let k = choose|k: int| 0 <= k < head.len() && head[k] == line;
            assert((head + tail)[k] == line);
            let i = choose|i: int| 0 <= i < n - 1 && joined_lines((#[trigger] v[i])@).contains(line);
            assert(joined_lines(v[i]@).contains(line));
        }
        if tail.contains(line) {
            let k = choose|k: int| 0 <= k < tail.len() && tail[k] == line;
            assert((head + tail)[head.len() + k] == line);
            assert(joined_lines(v[n - 1]@).contains(line));
        }
        if (head + tail).contains(line) {
            let k = choose|k: int| 0 <= k < (head + tail).len() && (head + tail)[k] == line;
            if k < head.len() {
                assert(head[k] == line);
            } else {
                assert(tail[k - head.len()] == line);
            }
        }
        if exists|i: int| 0 <= i < n && joined_lines((#[trigger] v[i])@).contains(line) {
            let i = choose|i: int| 0 <= i < n && joined_lines((#[trigger] v[i])@).contains(line);
            assert(i == n - 1 || 0 <= i < n - 1);
        }
    } else {
        assert(v.take(0) =~= Seq::<Vec<Piece>>::empty());
        assert(!Seq::<Seq<Coord>>::empty().contains(line));
    }
}

/// The lines of a geometry.
pub open spec fn lines_of(g: Option<GeometryView<Coord>>) -> Seq<Seq<Coord>> {
    match g {
        Some(GeometryView::LineString(l)) => seq![l],
        Some(GeometryView::MultiLineString(ls)) => ls,
        _ => Seq::empty(),
    }
}

/// What is left of a line are the lines that its clipped segments form, and of several
/// lines those of every one of them: nothing only if no segment is left.
pub proof fn all_cut_lines_stay(g: Geometry<Coord>, tile: Bounds, cut: Cut, line: Seq<Coord>)
    requires
        may_reach(g, tile),
    ensures
        match (g, cut) {
            (Geometry::LineString(_), Cut::Line(pieces)) => lines_of(clipped(g, tile, cut))
                == joined_lines(pieces@) && (clipped(g, tile, cut) is None <==> joined_lines(
                pieces@,
            ).len() == 0),
            (Geometry::Line(_, _), Cut::Line(pieces)) => lines_of(clipped(g, tile, cut))
                == joined_lines(pieces@) && (clipped(g, tile, cut) is None <==> joined_lines(
                pieces@,
            ).len() == 0),
            (Geometry::MultiLineString(_), Cut::Lines(v)) => {
                &&& lines_of(clipped(g, tile, cut)).contains(line) <==> exists|i: int|
                    0 <= i < v@.len() && joined_lines((#[trigger] v@[i])@).contains(line)
                &&& lines_of(clipped(g, tile, cut)).len() == v@.fold_left(
                    0int,
                    |m: int, p: Vec<Piece>| m + joined_lines(p@).len(),
                )
                &&& clipped(g, tile, cut) is None <==> lines_of(clipped(g, tile, cut)).len() == 0
            },
            _ => true,
        },
{
    match (g, cut) {
        (Geometry::LineString(_), Cut::Line(pieces)) => {
            if joined_lines(pieces@).len() == 1 {
                assert(seq![joined_lines(pieces@)[0]] =~= joined_lines(pieces@));
            } else if joined_lines(pieces@).len() == 0 {
                assert(joined_lines(pieces@) =~= Seq::<Seq<Coord>>::empty());
            }
        },
        (Geometry::Line(_, _), Cut::Line(pieces)) => {
            if joined_lines(pieces@).len() == 0 {
                assert(joined_lines(pieces@) =~= Seq::<Seq<Coord>>::empty());
            }
        },
        (Geometry::MultiLineString(_), Cut::Lines(v)) => {
            lemma_cut_lines_hold(v@, v@.len() as int, line);
            assert(v@.take(v@.len() as int) =~= v@);
            let lines = cut_lines(v@, v@.len() as int);
            if lines.len() == 0 {
                assert(lines =~= Seq::<Seq<Coord>>::empty());
            }
        },
        _ => {},
    }
}

/// The points of a geometry of points.
pub open spec fn points_of(g: Option<GeometryView<Coord>>) -> Seq<Coord> {
    match g {
        Some(GeometryView::Point(p)) => seq![p],
        Some(GeometryView::MultiPoint(ps)) => ps,
        _ => Seq::empty(),
    }
}

/// Of points exactly those stay that lie in the tile; with none of them nothing is
/// left.
pub proof fn exactly_the_points_in_the_tile_stay(
    g: Geometry<Coord>,
    tile: Bounds,
    cut: Cut,
    c: Coord,
)
    requires
        all_numbers(outline(g)),
    ensures
        match g {
            Geometry::Point(p) => clipped(g, tile, cut) == (if holds(tile, p) {
                Some(GeometryView::Point(p))
            } else {
                None
            }),
            Geometry::MultiPoint(v) => {
                &&& points_of(clipped(g, tile, cut)).contains(c) <==> v@.contains(c) && holds(
                    tile,
                    c,
                )
                &&& clipped(g, tile, cut) is None <==> forall|i: int|
                    0 <= i < v@.len() ==> !holds(tile, #[trigger] v@[i])
                &&& clipped(g, tile, cut) matches Some(GeometryView::MultiPoint(ps))
                    ==> ps.to_multiset() == v@.to_multiset().filter(|p: Coord| holds(tile, p))
            },
            _ => true,
        },
{
    match g {
        Geometry::Point(p) => {
            if holds(tile, p) {
                assert(outline(g)[0] == p);
                one_point_in_the_tile_is_enough(g, tile, p);
            }
        },
        Geometry::MultiPoint(v) => {
            let inside = |p: Coord| holds(tile, p);
            let kept = v@.filter(inside);
            lemma_filter_contains(v@, inside, c);
            lemma_filter_multiset(v@, inside);
            if exists|i: int| 0 <= i < v@.len() && holds(tile, #[trigger] v@[i]) {
                let i = choose|i: int| 0 <= i < v@.len() && holds(tile, #[trigger] v@[i]);
                assert(outline(g).contains(v@[i]));
                one_point_in_the_tile_is_enough(g, tile, v@[i]);
                lemma_filter_contains(v@, inside, v@[i]);
            } else if kept.len() > 0 {
                lemma_filter_contains(v@, inside, kept[0]);
                v@.lemma_filter_pred(inside, 0);
            }
            if v@.contains(c) && holds(tile, c) {
                let i = choose|i: int| 0 <= i < v@.len() && v@[i] == c;
                assert(holds(tile, v@[i]));
            }
        },
        _ => {},
    }
}

proof fn lemma_filter_contains(cs: Seq<Coord>, pred: spec_fn(Coord) -> bool, c: Coord)
    ensures
        cs.filter(pred).contains(c) <==> cs.contains(c) && pred(c),
    decreases cs.len(),
{
    reveal(Seq::filter);
    if cs.len() > 0 {
        let rest = cs.drop_last();
        let head = rest.filter(pred);
        lemma_filter_contains(rest, pred, c);
        assert(cs =~= rest.push(cs.last()));
        lemma_push_contains(rest, cs.last(), c);
        lemma_push_contains(head, cs.last(), c);
    }
}

proof fn lemma_push_contains(cs: Seq<Coord>, last: Coord, c: Coord)
    ensures
        cs.push(last).contains(c) <==> cs.contains(c) || c == last,
{
    let more = cs.push(last);
    assert(more[cs.len() as int] == last);
    if cs.contains(c) {
        let i = choose|i: int| 0 <= i < cs.len() && cs[i] == c;
        assert(more[i] == c);
    }
    if more.contains(c) && c != last {
        let i = choose|i: int| 0 <= i < more.len() && more[i] == c;
        assert(cs[i] == c);
    }
}

proof fn lemma_filter_multiset(cs: Seq<Coord>, pred: spec_fn(Coord) -> bool)
    ensures
        cs.filter(pred).to_multiset() == cs.to_multiset().filter(pred),
    decreases cs.len(),
{
    broadcast use vstd::seq_lib::group_to_multiset_ensures;
    reveal(Seq::filter);
    if cs.len() > 0 {
        let rest = cs.drop_last();
        lemma_filter_multiset(rest, pred);
        assert(cs =~= rest.push(cs.last()));
        assert(cs.filter(pred).to_multiset() =~= cs.to_multiset().filter(pred));
    } else {
        assert(cs.filter(pred).to_multiset() =~= cs.to_multiset().filter(pred));
    }
}

proof fn lemma_members_stay(v: Vec<Geometry<Coord>>, tile: Bounds, cut: Cut, n: nat)
    requires
        n <= v@.len(),
    ensures
        clipped_members(v, tile, cut, n) == Seq::new(
            n,
            |i: int| clipped(v@[i], tile, member_cut(cut, i)),
        ).filter(|p: Option<GeometryView<Coord>>| p is Some).map_values(
            |p: Option<GeometryView<Coord>>| p->0,
        ),
    decreases n,
{
    reveal(Seq::filter);
    let there = |p: Option<GeometryView<Coord>>| p is Some;
    let value = |p: Option<GeometryView<Coord>>| p->0;
    let all = Seq::new(n, |i: int| clipped(v@[i], tile, member_cut(cut, i)));
    if n > 0 {
        lemma_members_stay(v, tile, cut, (n - 1) as nat);
        let rest = Seq::new((n - 1) as nat, |i: int| clipped(v@[i], tile, member_cut(cut, i)));
        assert(all.drop_last() =~= rest);
        assert(all.last() == clipped(v@[n - 1], tile, member_cut(cut, n - 1)));
        if all.last() is Some {
            assert(rest.filter(there).push(all.last()).map_values(value) =~= rest.filter(
                there,
            ).map_values(value).push(all.last()->0));
        }
    } else {
        assert(all =~= Seq::<Option<GeometryView<Coord>>>::empty());
        assert(all.filter(there).map_values(value) =~= Seq::<GeometryView<Coord>>::empty());
    }
}

/// What is left of a collection is what is left of its members, in their order; with
/// nothing left of any of them nothing is left at all.
pub proof fn every_member_is_clipped(v: Vec<Geometry<Coord>>, tile: Bounds, cuts: Vec<Cut>)
    requires
        cuts@.len() == v@.len(),
        may_reach(Geometry::GeometryCollection(v), tile),
    ensures
        ({
            let left = Seq::new(v@.len(), |i: int| clipped(v@[i], tile, cuts@[i])).filter(
                |p: Option<GeometryView<Coord>>| p is Some,
            );
            match clipped(Geometry::GeometryCollection(v), tile, Cut::Members(cuts)) {
                None => left.len() == 0,
                Some(GeometryView::GeometryCollection(parts)) => parts.len() == left.len() > 0
                    && forall|k: int| 0 <= k < parts.len() ==> Some(#[trigger] parts[k]) == left[k],
                _ => false,
            }
        }),
{
    let cut = Cut::Members(cuts);
    lemma_members_stay(v, tile, cut, v@.len());
    let there = |p: Option<GeometryView<Coord>>| p is Some;
    let value = |p: Option<GeometryView<Coord>>| p->0;
    let a = Seq::new(v@.len(), |i: int| clipped(v@[i], tile, cuts@[i]));
    let b = Seq::new(v@.len(), |i: int| clipped(v@[i], tile, member_cut(cut, i)));
    assert(a =~= b);
    let left = a.filter(there);
    assert forall|k: int| 0 <= k < left.len() implies Some(#[trigger] left.map_values(value)[k])
        == left[k] by {
        a.lemma_filter_pred(there, k);
    }
}

fn lines_as_geometry(lines: Vec<Vec<Coord>>, single: bool) -> (r: Option<Geometry<Coord>>)
    ensures
        match r {
            None => lines@.len() == 0,
            Some(g) => if single && lines@.len() == 1 {
                geometry_view(g) == GeometryView::LineString(lines@[0]@)
            } else {
                lines@.len() > 0 && geometry_view(g) == GeometryView::MultiLineString(
                    line_shapes(lines@),
                )
            },
        },
{
    if lines.len() == 0 {
        return None;
    }
    if single && lines.len() == 1 {
        let mut lines = lines;
        let mut only: Vec<Coord> = Vec::new();
        std::mem::swap(&mut lines[0], &mut only);
        return Some(Geometry::LineString(only));
    }
    Some(Geometry::MultiLineString(lines))
}

fn polygons_as_geometry(parts: Vec<Polygon<Coord>>, single: bool) -> (r: Option<Geometry<Coord>>)
    ensures
        match r {
            None => parts@.len() == 0,
            Some(g) => if single && parts@.len() == 1 {
                geometry_view(g) == GeometryView::Polygon(parts@[0].shape())
            } else {
                parts@.len() > 0 && geometry_view(g) == GeometryView::MultiPolygon(
                    polygon_shapes(parts@),
                )
            },
        },
{
    if parts.len() == 0 {
        return None;
    }
    if single && parts.len() == 1 {
        let mut parts = parts;
        let mut only = Polygon { exterior: Vec::new(), interiors: Vec::new() };
        std::mem::swap(&mut parts[0], &mut only);
        return Some(Geometry::Polygon(only));
    }
    Some(Geometry::MultiPolygon(parts))
}

fn points_in(points: &Vec<Coord>, tile: &Bounds) -> (kept: Vec<Coord>)
    ensures
        kept@ == points@.filter(|p: Coord| holds(*tile, p)),
{
    let ghost keep = |p: Coord| holds(*tile, p);
    let mut kept: Vec<Coord> = Vec::new();
    let mut i: usize = 0;
    proof {
        assert(points@.take(0) =~= Seq::<Coord>::empty());
        assert(kept@ =~= points@.take(0).filter(keep));
    }
    while i < points.len()
        invariant
            i <= points.len(),
            keep == (|p: Coord| holds(*tile, p)),
            kept@ == points@.take(i as int).filter(keep),
        decreases points.len() - i,
    {
        proof {
            assert(points@.take(i + 1) =~= points@.take(i as int).push(points@[i as int]));
            lemma_filter_push(points@.take(i as int), keep, points@[i as int]);
        }
        if tile.contains(points[i]) {
            kept.push(points[i]);
        }
        i = i + 1;
    }
    assert(points@.take(i as int) =~= points@);
    kept
}

fn join_lines(v: &Vec<Vec<Piece>>) -> (lines: Vec<Vec<Coord>>)
    ensures
        line_shapes(lines@) == cut_lines(v@, v@.len() as int),
{
    let mut lines: Vec<Vec<Coord>> = Vec::new();
    let mut i: usize = 0;
    assert(line_shapes(lines@) =~= Seq::<Seq<Coord>>::empty());
    while i < v.len()
        invariant
            i <= v.len(),
            line_shapes(lines@) == cut_lines(v@, i as int),
        decreases v.len() - i,
    {
        let ghost before = lines@;
        let mut more = join_pieces(&v[i]);
        let ghost added = more@;
        lines.append(&mut more);
        assert(line_shapes(lines@) =~= line_shapes(before) + line_shapes(added));
        i = i + 1;
    }
    lines
}

/// Clip a geometry to a tile. `cut` holds what floating-point arithmetic has found
/// out about its lines and polygons.
pub fn clip_to_tile(geom: Geometry<Coord>, tile: &Bounds, cut: Cut) -> (r: Option<Geometry<Coord>>)
    ensures
        match clipped(geom, *tile, cut) {
            None => r is None,
            Some(v) => r matches Some(g) && geometry_view(g) == v,
        },
    decreases geom,
{
    match bounding_box(&geom) {
        None => {
            return None;
        },
        Some(b) => {
            if !b.intersects(tile) {
                return None;
            }
        },
    }
    match geom {
        Geometry::Point(p) => if tile.contains(p) {
            Some(Geometry::Point(p))
        } else {
            None
        },
        Geometry::MultiPoint(v) => {
            let kept = points_in(&v, tile);
            if kept.len() == 0 {
                None
            } else {
                Some(Geometry::MultiPoint(kept))
            }
        },
        Geometry::LineString(_) => match cut {
            Cut::Line(pieces) => lines_as_geometry(join_pieces(&pieces), true),
            _ => {
                proof {
                    lemma_no_pieces();
                }
                None
            },
        },
        Geometry::Line(_, _) => match cut {
            Cut::Line(pieces) => lines_as_geometry(join_pieces(&pieces), false),
            _ => {
                proof {
                    lemma_no_pieces();
                }
                None
            },
        },
        Geometry::MultiLineString(_) => match cut {
            Cut::Lines(v) => lines_as_geometry(join_lines(&v), false),
            _ => None,
        },
        Geometry::Polygon(_) => match cut {
            Cut::Polygons(parts) => polygons_as_geometry(parts, true),
            _ => None,
        },
        Geometry::MultiPolygon(_) => match cut {
            Cut::Polygons(parts) => polygons_as_geometry(parts, false),
            _ => None,
        },
        Geometry::GeometryCollection(members) => clip_members(members, tile, cut),
        Geometry::Other => Some(Geometry::Other),
    }
}

fn clip_members(given: Vec<Geometry<Coord>>, tile: &Bounds, cut: Cut) -> (r: Option<
    Geometry<Coord>,
>)
    ensures
        ({
            let parts = clipped_members(given, *tile, cut, given@.len());
            match r {
                None => parts.len() == 0,
                Some(g) => parts.len() > 0 && geometry_view(g) == GeometryView::GeometryCollection(
                    parts,
                ),
            }
        }),
    decreases given,
{
    let ghost all = given@;
    let mut members = given;
    let mut cuts: Vec<Cut> = match cut {
        Cut::Members(c) => c,
        _ => Vec::new(),
    };
    let ghost found = cuts@;
    let mut parts: Vec<Geometry<Coord>> = Vec::new();
    let mut i: usize = 0;
    while i < members.len()
        invariant
            i <= members.len(),
            members.len() == all.len(),
            all == given@,
            cuts.len() == found.len(),
            forall|k: int| i <= k < all.len() ==> #[trigger] members@[k] == all[k],
            forall|k: int| i <= k < found.len() ==> #[trigger] cuts@[k] == found[k],
            forall|k: int|
                0 <= k ==> #[trigger] member_cut(cut, k) == (if k < found.len() {
                    found[k]
                } else {
                    Cut::Nothing
                }),
            member_views(parts, parts@.len()) == clipped_members(given, *tile, cut, i as nat),
            parts.len() == clipped_members(given, *tile, cut, i as nat).len(),
        decreases members.len() - i,
    {
        let ghost members_before = members@;
        let ghost cuts_before = cuts@;
        let ghost parts_before = parts;
        let mut member = Geometry::Other;
        std::mem::swap(&mut members[i], &mut member);
        let mut its_cut = Cut::Nothing;
        if i < cuts.len() {
            std::mem::swap(&mut cuts[i], &mut its_cut);
        }
        proof {
            assert(members_before[i as int] == all[i as int]);
            assert(member == all[i as int]);
            assert(its_cut == member_cut(cut, i as int));
            assert(decreases_to!(given => given@));
            assert(decreases_to!(given@ => given@[i as int]));
            assert(decreases_to!(given => given@[i as int]));
        }
        match clip_to_tile(member, tile, its_cut) {
            Some(part) => {
                parts.push(part);
                proof {
                    lemma_same_members(parts, parts_before, parts_before@.len());
                }
            },
            None => {},
        }
        proof {
            assert forall|k: int| i < k < all.len() implies #[trigger] members@[k] == all[k] by {
                assert(members@[k] == members_before[k]);
            }
            assert forall|k: int| i < k < found.len() implies #[trigger] cuts@[k] == found[k] by {
                assert(cuts@[k] == cuts_before[k]);
            }
        }
        i = i + 1;
    }
    if parts.len() == 0 {
        return None;
    }
    Some(Geometry::GeometryCollection(parts))
}

proof fn lemma_no_pieces()
    ensures
        joined_lines(Seq::empty()).len() == 0,
{
}

/// Simplification has left too little of the geometry: a line without a segment, a
/// polygon whose outer ring has collapsed, or nothing at all.
pub open spec fn has_collapsed(g: Geometry<Coord>) -> bool {
    match g {
        Geometry::LineString(v) => v@.len() < 2,
        Geometry::MultiLineString(v) => v@.len() == 0,
        Geometry::Polygon(p) => p.exterior@.len() < 4,
        Geometry::MultiPolygon(v) => v@.len() == 0,
        _ => false,
    }
}

/// Keep a simplified geometry unless it has collapsed.
pub fn unless_collapsed(g: Geometry<Coord>) -> (r: Option<Geometry<Coord>>)
    ensures
        r == (if has_collapsed(g) {
            None
        } else {
            Some(g)
        }),
{
    let gone: bool = match &g {
        Geometry::LineString(v) => v.len() < 2,
        Geometry::MultiLineString(v) => v.len() == 0,
        Geometry::Polygon(p) => p.exterior.len() < 4,
        Geometry::MultiPolygon(v) => v.len() == 0,
        _ => false,
    };
    if gone {
        None
    } else {
        Some(g)
    }
}

/// Points are always left, a line is left with two points or more, a polygon with four or
/// more on its outer ring, and of several as long as there is one.
pub proof fn only_what_has_collapsed_is_dropped(g: Geometry<Coord>)
    ensures
        g is Point || g is MultiPoint ==> !has_collapsed(g),
        g matches Geometry::LineString(v) ==> (has_collapsed(g) <==> v@.len() <= 1),
        g matches Geometry::Polygon(p) ==> (has_collapsed(g) <==> p.exterior@.len() <= 3),
        g matches Geometry::MultiLineString(v) ==> (has_collapsed(g) <==> v@.len() == 0),
        g matches Geometry::MultiPolygon(v) ==> (has_collapsed(g) <==> v@.len() == 0),
{
}

} // verus!
