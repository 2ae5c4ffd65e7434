//! Vector tile layers: geometry commands and interned properties.
//!
//! Coordinates are on the integer grid of the tile, with y growing downward.

use std::collections::HashMap;

use bytes::Buf;
use geozero::mvt::tile::{Feature, GeomType, Layer, Value};
use geozero::mvt::{Message, Tile};
use vstd::hash_map::StringHashMap;
use vstd::prelude::*;

use crate::geometry::{line_shapes, polygon_shapes, Geometry, Polygon, PolygonShape};
use crate::le::low32;
use crate::props::{PropValue, PropView};

verus! {

broadcast use vstd::std_specs::hash::group_hash_axioms;

/// Number of grid units along the side of a tile.
pub const MVT_EXTENT: u32 = 4096;

/// A position on the grid of a tile.
pub type GridPoint = (i64, i64);

// ── geometry commands ───────────────────────────────────────────────────────

/// A command word: what to do, and how often.
pub open spec fn command(id: int, count: int) -> u32 {
    (id + 8 * (count % 0x2000_0000)) as u32
}

/// Signed numbers as unsigned ones, small absolute values first.
pub open spec fn zigzag(v: int) -> int {
    if v >= 0 {
        2 * v
    } else {
        -2 * v - 1
    }
}

/// The number behind a zigzag value.
pub open spec fn unzigzag(u: int) -> int {
    if u % 2 == 0 {
        u / 2
    } else {
        -((u + 1) / 2)
    }
}

/// A parameter word: the 32 low bits of the zigzag value.
pub open spec fn parameter(v: int) -> u32 {
    low32(zigzag(v))
}

/// The two parameters of a step.
pub open spec fn step(a: GridPoint, b: GridPoint) -> Seq<u32> {
    seq![parameter(b.0 - a.0), parameter(b.1 - a.1)]
}

/// The parameters of the way along `cs`, starting from `a`.
pub open spec fn steps(a: GridPoint, cs: Seq<GridPoint>) -> Seq<u32>
    decreases cs.len(),
{
    if cs.len() == 0 {
        Seq::empty()
    } else {
        let rest = cs.drop_last();
        let prev = if rest.len() == 0 {
            a
        } else {
            rest.last()
        };
        steps(a, rest) + step(prev, cs.last())
    }
}

/// Where the cursor of every feature starts.
pub open spec fn tile_corner() -> GridPoint {
    (0, 0)
}

/// A path that is drawn: its points, and whether it returns to the first one.
#[verifier::ext_equal]
pub struct Path {
    pub points: Seq<GridPoint>,
    pub closed: bool,
}

/// Move to the first point, draw lines to the others, and close the path if it is
/// closed. The cursor stands at `at`.
pub open spec fn path_commands(at: GridPoint, p: Path) -> Seq<u32> {
    seq![command(1, 1)] + step(at, p.points[0]) + seq![command(2, p.points.len() - 1)] + steps(
        p.points[0],
        p.points.skip(1),
    ) + if p.closed {
        seq![command(7, 1)]
    } else {
        Seq::empty()
    }
}

/// Draw the paths one after the other. The cursor stands at `at` and goes on from
/// the last point of one path to the first point of the next.
pub open spec fn paths_commands(at: GridPoint, paths: Seq<Path>) -> Seq<u32>
    decreases paths.len(),
{
    if paths.len() == 0 {
        Seq::empty()
    } else {
        path_commands(at, paths[0]) + paths_commands(paths[0].points.last(), paths.skip(1))
    }
}

/// Where the cursor stands once the paths are drawn. Closing a path does not move it.
pub open spec fn cursor_after(at: GridPoint, paths: Seq<Path>) -> GridPoint {
    if paths.len() == 0 {
        at
    } else {
        paths.last().points.last()
    }
}

/// What is drawn of a line or a ring. A line of fewer than two points is not drawn,
/// nor is a ring of fewer than four; the closing point of a ring is left out, and
/// the path closed instead.
pub open spec fn drawn_part(cs: Seq<GridPoint>, ring: bool) -> Seq<Path> {
    if ring {
        if cs.len() < 4 {
            Seq::empty()
        } else {
            seq![Path { points: cs.drop_last(), closed: true }]
        }
    } else if cs.len() < 2 {
        Seq::empty()
    } else {
        seq![Path { points: cs, closed: false }]
    }
}

/// What is drawn of lines or rings.
pub open spec fn drawn_parts(ls: Seq<Seq<GridPoint>>, ring: bool) -> Seq<Path>
    decreases ls.len(),
{
    if ls.len() == 0 {
        Seq::empty()
    } else {
        drawn_part(ls[0], ring) + drawn_parts(ls.skip(1), ring)
    }
}

/// What is drawn of a polygon: its outer ring, then its holes.
pub open spec fn drawn_polygon(p: PolygonShape<GridPoint>) -> Seq<Path> {
    drawn_part(p.exterior, true) + drawn_parts(p.interiors, true)
}

pub open spec fn drawn_polygons(ps: Seq<PolygonShape<GridPoint>>) -> Seq<Path>
    decreases ps.len(),
{
    if ps.len() == 0 {
        Seq::empty()
    } else {
        drawn_polygon(ps[0]) + drawn_polygons(ps.skip(1))
    }
}

/// The paths of a geometry that is drawn with lines.
pub open spec fn drawn_paths(g: Geometry<GridPoint>) -> Option<Seq<Path>> {
    match g {
        Geometry::Line(a, b) => Some(drawn_part(seq![a, b], false)),
        Geometry::LineString(cs) => Some(drawn_part(cs@, false)),
        Geometry::MultiLineString(ls) => Some(drawn_parts(line_shapes(ls@), false)),
        Geometry::Polygon(p) => Some(drawn_polygon(p.shape())),
        Geometry::MultiPolygon(ps) => Some(drawn_polygons(polygon_shapes(ps@))),
        _ => None,
    }
}

/// The points of a geometry that consists of points.
pub open spec fn marked_points(g: Geometry<GridPoint>) -> Option<Seq<GridPoint>> {
    match g {
        Geometry::Point(c) => Some(seq![c]),
        Geometry::MultiPoint(cs) => if cs@.len() == 0 {
            None
        } else {
            Some(cs@)
        },
        _ => None,
    }
}

/// The commands of a geometry; nothing for one that a tile cannot represent.
pub open spec fn geometry_commands(g: Geometry<GridPoint>) -> Option<Seq<u32>> {
    match (marked_points(g), drawn_paths(g)) {
        (Some(cs), _) => Some(seq![command(1, cs.len() as int)] + steps(tile_corner(), cs)),
        (None, Some(paths)) => Some(paths_commands(tile_corner(), paths)),
        (None, None) => None,
    }
}

/// The kind of geometry: 1 for points, 2 for lines, 3 for polygons.
pub open spec fn geom_type(g: Geometry<GridPoint>) -> i32 {
    match g {
        Geometry::Line(_, _) => 2,
        Geometry::LineString(_) => 2,
        Geometry::MultiLineString(_) => 2,
        Geometry::Polygon(_) => 3,
        Geometry::MultiPolygon(_) => 3,
        _ => 1,
    }
}

/// The way from one point to the next can be counted in 64 bits.
pub open spec fn step_fits(a: GridPoint, b: GridPoint) -> bool {
    &&& i64::MIN <= b.0 - a.0 <= i64::MAX
    &&& i64::MIN <= b.1 - a.1 <= i64::MAX
}

pub open spec fn path_fits(cs: Seq<GridPoint>) -> bool {
    forall|i: int| 0 < i < cs.len() ==> step_fits(cs[i - 1], #[trigger] cs[i])
}

pub open spec fn paths_fit(at: GridPoint, paths: Seq<Path>) -> bool
    decreases paths.len(),
{
    paths.len() > 0 ==> {
        &&& step_fits(at, paths[0].points[0])
        &&& path_fits(paths[0].points)
        &&& paths_fit(paths[0].points.last(), paths.skip(1))
    }
}

/// Every step of the geometry can be counted in 64 bits.
pub open spec fn geometry_fits(g: Geometry<GridPoint>) -> bool {
    match (marked_points(g), drawn_paths(g)) {
        (Some(cs), _) => path_fits(cs),
        (None, Some(paths)) => paths_fit(tile_corner(), paths),
        (None, None) => true,
    }
}

/// A parameter gives back the step, as long as it fits in 32 bits.
pub proof fn parameter_reads_back(v: int)
    requires
        i32::MIN <= v <= i32::MAX,
    ensures
        unzigzag(parameter(v) as int) == v,
{
}

/// The point that the first `n` steps of a row of parameters lead to.
pub open spec fn point_after(a: (int, int), params: Seq<u32>, n: int) -> (int, int)
    decreases n,
{
    if n <= 0 {
        a
    } else {
        let p = point_after(a, params, n - 1);
        (
            p.0 + unzigzag(params[2 * (n - 1)] as int),
            p.1 + unzigzag(params[2 * (n - 1) + 1] as int),
        )
    }
}

proof fn lemma_steps_len(a: GridPoint, cs: Seq<GridPoint>)
    ensures
        steps(a, cs).len() == 2 * cs.len(),
    decreases cs.len(),
{
    if cs.len() > 0 {
        lemma_steps_len(a, cs.drop_last());
    }
}

proof fn lemma_point_after_prefix(a: (int, int), p: Seq<u32>, q: Seq<u32>, n: int)
    requires
        0 <= 2 * n <= p.len(),
    ensures
        point_after(a, p + q, n) == point_after(a, p, n),
    decreases n,
{
    if n > 0 {
        lemma_point_after_prefix(a, p, q, n - 1);
    }
}

/// The point before point `i` of a path that starts from `a`.
pub open spec fn prev_point(a: GridPoint, cs: Seq<GridPoint>, i: int) -> GridPoint {
    if i <= 0 {
        a
    } else {
        cs[i - 1]
    }
}

/// A step that fits in 32 bits.
pub open spec fn small_step(a: GridPoint, b: GridPoint) -> bool {
    &&& i32::MIN <= b.0 - a.0 <= i32::MAX
    &&& i32::MIN <= b.1 - a.1 <= i32::MAX
}

/// Following the steps of a path leads to each of its points in turn, as long
/// as every step fits in 32 bits.
pub proof fn steps_lead_along_the_path(a: GridPoint, cs: Seq<GridPoint>, n: int)
    requires
        0 < n <= cs.len(),
        forall|i: int| 0 <= i < cs.len() ==> small_step(#[trigger] prev_point(a, cs, i), cs[i]),
    ensures
        point_after((a.0 as int, a.1 as int), steps(a, cs), n) == (
            cs[n - 1].0 as int,
            cs[n - 1].1 as int,
        ),
    decreases cs.len(),
{
    let rest = cs.drop_last();
    let from = (a.0 as int, a.1 as int);
    let k = cs.len() - 1;
    let prev = prev_point(a, cs, k);
    let last = step(prev, cs[k]);
    lemma_steps_len(a, rest);
    assert(steps(a, cs) == steps(a, rest) + last);
    assert forall|i: int| 0 <= i < rest.len() implies small_step(
        #[trigger] prev_point(a, rest, i),
        rest[i],
    ) by {
        assert(small_step(prev_point(a, cs, i), cs[i]));
        assert(prev_point(a, rest, i) == prev_point(a, cs, i));
    }
    if n < cs.len() {
        steps_lead_along_the_path(a, rest, n);
        lemma_point_after_prefix(from, steps(a, rest), last, n);
        assert(rest[n - 1] == cs[n - 1]);
    } else {
        assert(point_after(from, steps(a, cs), k) == (prev.0 as int, prev.1 as int)) by {
            if rest.len() > 0 {
                steps_lead_along_the_path(a, rest, k);
                lemma_point_after_prefix(from, steps(a, rest), last, k);
            }
        }
        assert(steps(a, cs)[2 * k] == last[0]);
        assert(steps(a, cs)[2 * k + 1] == last[1]);
        parameter_reads_back(cs[k].0 - prev.0);
        parameter_reads_back(cs[k].1 - prev.1);
    }
}

/// A point as integers.
pub open spec fn point_view(c: GridPoint) -> (int, int) {
    (c.0 as int, c.1 as int)
}

/// A path that was read: its points, and whether it is closed.
#[verifier::ext_equal]
pub struct ReadPath {
    pub points: Seq<(int, int)>,
    pub closed: bool,
}

/// The points that a row of parameters leads to from `a`, with `a` in front.
pub open spec fn points_along(a: (int, int), params: Seq<u32>, n: int) -> Seq<(int, int)> {
    Seq::new((n + 1) as nat, |k: int| point_after(a, params, k))
}

/// The paths that the commands draw. One cursor is carried from command to command;
/// it stands at `at`. Nothing where the commands are not those of paths.
pub open spec fn read_paths(at: (int, int), cmds: Seq<u32>) -> Option<Seq<ReadPath>>
    decreases cmds.len(),
{
    if cmds.len() == 0 {
        Some(Seq::empty())
    } else if cmds.len() < 4 || cmds[0] != command(1, 1) || cmds[3] % 8 != 2 {
        None
    } else {
        let n = cmds[3] as int / 8;
        let end = 4 + 2 * n;
        if end > cmds.len() {
            None
        } else {
            let first = point_after(at, cmds.subrange(1, 3), 1);
            let points = points_along(first, cmds.subrange(4, end), n);
            let closed = end < cmds.len() && cmds[end] == command(7, 1);
            let rest = read_paths(
                points.last(),
                cmds.skip(
                    end + if closed {
                        1int
                    } else {
                        0
                    },
                ),
            );
            match rest {
                Some(paths) => Some(seq![ReadPath { points, closed }] + paths),
                None => None,
            }
        }
    }
}

/// The points that the commands mark. The cursor starts at the corner of the tile.
pub open spec fn read_points(cmds: Seq<u32>) -> Option<Seq<(int, int)>> {
    if cmds.len() == 0 || cmds[0] % 8 != 1 || cmds.len() != 1 + 2 * (cmds[0] as int / 8) {
        None
    } else {
        Some(points_along((0, 0), cmds.skip(1), cmds[0] as int / 8).skip(1))
    }
}

/// The paths with their points as integers.
pub open spec fn path_views(paths: Seq<Path>) -> Seq<ReadPath> {
    Seq::new(
        paths.len(),
        |i: int|
            ReadPath {
                points: Seq::new(
                    paths[i].points.len(),
                    |k: int| point_view(paths[i].points[k]),
                ),
                closed: paths[i].closed,
            },
    )
}

/// The points as integers.
pub open spec fn point_views(cs: Seq<GridPoint>) -> Seq<(int, int)> {
    Seq::new(cs.len(), |i: int| point_view(cs[i]))
}

/// A command word can hold the number of points, and a parameter word every step.
pub open spec fn path_is_small(at: GridPoint, cs: Seq<GridPoint>) -> bool {
    &&& cs.len() < 0x2000_0000
    &&& forall|i: int| 0 <= i < cs.len() ==> small_step(#[trigger] prev_point(at, cs, i), cs[i])
}

pub open spec fn paths_are_small(at: GridPoint, paths: Seq<Path>) -> bool
    decreases paths.len(),
{
    paths.len() > 0 ==> {
        &&& paths[0].points.len() >= 2
        &&& path_is_small(at, paths[0].points)
        &&& paths_are_small(paths[0].points.last(), paths.skip(1))
    }
}

/// Reading the steps of a path gives back its points.
proof fn lemma_points_along(a: GridPoint, cs: Seq<GridPoint>)
    requires
        path_is_small(a, cs),
    ensures
        points_along(point_view(a), steps(a, cs), cs.len() as int) =~= seq![point_view(a)]
            + point_views(cs),
{
    let got = points_along(point_view(a), steps(a, cs), cs.len() as int);
    assert forall|k: int| 0 <= k < got.len() implies got[k] == (seq![point_view(a)] + point_views(
        cs,
    ))[k] by {
        if k > 0 {
            steps_lead_along_the_path(a, cs, k);
        }
    }
}

/// Where the words of a path stand in the commands.
proof fn lemma_path_layout(at: GridPoint, p: Path, rest: Seq<u32>)
    requires
        2 <= p.points.len() < 0x2000_0000,
    ensures
        ({
            let cmds = path_commands(at, p) + rest;
            let n = p.points.len() - 1;
            let end = 4 + 2 * n;
            let next = if p.closed {
                end + 1
            } else {
                end
            };
            &&& next + rest.len() == cmds.len()
            &&& cmds[0] == command(1, 1)
            &&& cmds[3] % 8 == 2
            &&& cmds[3] as int / 8 == n
            &&& cmds.subrange(1, 3) == step(at, p.points[0])
            &&& cmds.subrange(4, end) == steps(p.points[0], p.points.skip(1))
            &&& cmds.skip(next) == rest
            &&& p.closed ==> cmds[end] == command(7, 1)
            &&& !p.closed && rest.len() > 0 ==> cmds[end] == rest[0]
        }),
{
    let others = p.points.skip(1);
    let n = others.len() as int;
    let end = 4 + 2 * n;
    let cmds = path_commands(at, p) + rest;
    let next = if p.closed {
        end + 1
    } else {
        end
    };
    lemma_steps_len(p.points[0], others);
    assert(cmds[3] == command(2, n));
    assert(cmds.subrange(1, 3) =~= step(at, p.points[0]));
    assert(cmds.subrange(4, end) =~= steps(p.points[0], others));
    assert(cmds.skip(next) =~= rest);
}

/// Reading the words of a path gives back its points.
proof fn lemma_path_points(at: GridPoint, p: Path)
    requires
        p.points.len() >= 2,
        path_is_small(at, p.points),
    ensures
        point_after(point_view(at), step(at, p.points[0]), 1) == point_view(p.points[0]),
        points_along(
            point_view(p.points[0]),
            steps(p.points[0], p.points.skip(1)),
            p.points.len() - 1,
        ) == point_views(p.points),
{
    let a = p.points[0];
    let others = p.points.skip(1);
    assert(small_step(prev_point(at, p.points, 0), a));
    assert(path_is_small(a, others)) by {
        assert forall|i: int| 0 <= i < others.len() implies small_step(
            #[trigger] prev_point(a, others, i),
            others[i],
        ) by {
            assert(small_step(prev_point(at, p.points, i + 1), p.points[i + 1]));
            assert(prev_point(a, others, i) == prev_point(at, p.points, i + 1));
        }
    }
    assert(seq![a].drop_last() =~= Seq::<GridPoint>::empty());
    assert(prev_point(at, seq![a], 0) == at);
    steps_lead_along_the_path(at, seq![a], 1);
    reveal_with_fuel(steps, 2);
    assert(steps(at, seq![a]) =~= step(at, a));
    lemma_points_along(a, others);
    assert(seq![point_view(a)] + point_views(others) =~= point_views(p.points));
}

/// Drawing paths and reading the commands with one cursor gives back every point of
/// every path, as long as the words can hold the counts and the steps.
pub proof fn paths_read_back(at: GridPoint, paths: Seq<Path>)
    requires
        paths_are_small(at, paths),
    ensures
        read_paths(point_view(at), paths_commands(at, paths)) == Some(path_views(paths)),
    decreases paths.len(),
{
    if paths.len() == 0 {
        assert(path_views(paths) =~= Seq::<ReadPath>::empty());
    } else {
        let p = paths[0];
        let cmds = paths_commands(at, paths);
        let rest = paths_commands(p.points.last(), paths.skip(1));
        paths_read_back(p.points.last(), paths.skip(1));
        lemma_path_layout(at, p, rest);
        lemma_path_points(at, p);
        assert(rest.len() > 0 ==> rest[0] == command(1, 1));
        assert(command(1, 1) == 9 && command(7, 1) == 15);
        let points = point_views(p.points);
        let end = 4 + 2 * (p.points.len() - 1);
        assert((end < cmds.len() && cmds[end] == command(7, 1)) == p.closed);
        assert(points.last() == point_view(p.points.last()));
        assert(path_views(paths) =~= seq![ReadPath { points, closed: p.closed }] + path_views(
            paths.skip(1),
        ));
    }
}

/// The words of a tile can hold the counts and the steps of the geometry.
pub open spec fn geometry_is_small(g: Geometry<GridPoint>) -> bool {
    match (marked_points(g), drawn_paths(g)) {
        (Some(cs), _) => path_is_small(tile_corner(), cs),
        (None, Some(paths)) => paths_are_small(tile_corner(), paths),
        (None, None) => true,
    }
}

/// Reading the commands of a geometry with one cursor, as a reader of vector tiles
/// does, gives back its points: those of all its parts and holes, where it is drawn
/// with lines, and else the points it consists of.
pub proof fn geometry_reads_back(g: Geometry<GridPoint>)
    requires
        geometry_is_small(g),
    ensures
        marked_points(g) matches Some(cs) ==> read_points(geometry_commands(g)->0) == Some(
            point_views(cs),
        ),
        drawn_paths(g) matches Some(paths) ==> read_paths((0, 0), geometry_commands(g)->0) == Some(
            path_views(paths),
        ),
{
    if let Some(cs) = marked_points(g) {
        let n = cs.len() as int;
        let c = geometry_commands(g)->0;
        lemma_steps_len(tile_corner(), cs);
        lemma_points_along(tile_corner(), cs);
        assert(c[0] == command(1, n));
        assert(c[0] % 8 == 1 && c[0] as int / 8 == n);
        assert(c.skip(1) =~= steps(tile_corner(), cs));
        assert(points_along((0, 0), c.skip(1), n).skip(1) =~= point_views(cs));
    }
    if let Some(paths) = drawn_paths(g) {
        paths_read_back(tile_corner(), paths);
    }
}

proof fn lemma_paths_concat(at: GridPoint, a: Seq<Path>, b: Seq<Path>)
    ensures
        paths_commands(at, a + b) == paths_commands(at, a) + paths_commands(cursor_after(at, a), b),
        cursor_after(at, a + b) == cursor_after(cursor_after(at, a), b),
        paths_fit(at, a + b) <==> paths_fit(at, a) && paths_fit(cursor_after(at, a), b),
    decreases a.len(),
{
    if a.len() == 0 {
        assert(a + b =~= b);
        assert(paths_commands(at, a) + paths_commands(at, b) =~= paths_commands(at, b));
    } else {
        let next = a[0].points.last();
        lemma_paths_concat(next, a.skip(1), b);
        assert((a + b).skip(1) =~= a.skip(1) + b);
        assert(cursor_after(next, a.skip(1)) == cursor_after(at, a));
        assert(paths_commands(at, a + b) =~= paths_commands(at, a) + paths_commands(
            cursor_after(at, a),
            b,
        ));
    }
}

fn push_cmd(cmds: &mut Vec<u32>, id: u32, count: usize)
    requires
        id < 8,
    ensures
        final(cmds)@ == old(cmds)@.push(command(id as int, count as int)),
{
    let n: u32 = (count as u64 % 0x2000_0000) as u32;
    cmds.push(id + 8 * n);
}

fn push_zigzag(cmds: &mut Vec<u32>, v: i64)
    ensures
        final(cmds)@ == old(cmds)@.push(parameter(v as int)),
{
    let wide: i128 = v as i128;
    let z: i128 = if wide >= 0 {
        2 * wide
    } else {
        2 * (-1 - wide) + 1
    };
    cmds.push((z as u128 % 0x1_0000_0000) as u32);
}

fn push_step(cmds: &mut Vec<u32>, a: GridPoint, b: GridPoint)
    requires
        step_fits(a, b),
    ensures
        final(cmds)@ == old(cmds)@ + step(a, b),
{
    push_zigzag(cmds, b.0 - a.0);
    push_zigzag(cmds, b.1 - a.1);
    assert(cmds@ =~= old(cmds)@ + step(a, b));
}

/// Append the steps from `a` along points `from` up to `to`.
fn push_steps(cmds: &mut Vec<u32>, a: GridPoint, cs: &Vec<GridPoint>, from: usize, to: usize)
    requires
        from <= to <= cs.len(),
        path_fits(cs@.take(to as int)),
        from < to ==> step_fits(a, cs@[from as int]),
    ensures
        final(cmds)@ == old(cmds)@ + steps(a, cs@.subrange(from as int, to as int)),
{
    let mut prev: GridPoint = a;
    let mut i: usize = from;
    let ghost used = cs@.take(to as int);
    assert(cmds@ =~= old(cmds)@ + steps(a, cs@.subrange(from as int, from as int)));
    while i < to
        invariant
            from <= i <= to <= cs.len(),
            used == cs@.take(to as int),
            path_fits(used),
            from < to ==> step_fits(a, cs@[from as int]),
            prev == (if i == from {
                a
            } else {
                cs@[i - 1]
            }),
            cmds@ == old(cmds)@ + steps(a, cs@.subrange(from as int, i as int)),
        decreases to - i,
    {
        let c: GridPoint = cs[i];
        assert(step_fits(prev, c)) by {
            if i > from {
                assert(step_fits(used[i - 1], used[i as int]));
            }
        }
        push_step(cmds, prev, c);
        proof {
            let next = cs@.subrange(from as int, i + 1);
            assert(next.drop_last() =~= cs@.subrange(from as int, i as int));
            assert(next.last() == c);
            assert(cmds@ =~= old(cmds)@ + steps(a, next));
        }
        prev = c;
        i = i + 1;
    }
}

/// Append what is drawn of a line or a ring. The cursor stands at `at`; returned is
/// where it stands then.
fn push_part(cmds: &mut Vec<u32>, at: GridPoint, cs: &Vec<GridPoint>, ring: bool) -> (next:
    GridPoint)
    requires
        paths_fit(at, drawn_part(cs@, ring)),
    ensures
        final(cmds)@ == old(cmds)@ + paths_commands(at, drawn_part(cs@, ring)),
        next == cursor_after(at, drawn_part(cs@, ring)),
{
    let least: usize = if ring {
        4
    } else {
        2
    };
    if cs.len() < least {
        assert(cmds@ =~= old(cmds)@ + paths_commands(at, drawn_part(cs@, ring)));
        return at;
    }
    let n: usize = if ring {
        cs.len() - 1
    } else {
        cs.len()
    };
    let ghost path = drawn_part(cs@, ring)[0];
    proof {
        assert(path.points =~= cs@.take(n as int));
        assert(step_fits(at, path.points[0]));
        assert(step_fits(path.points[0], path.points[1]));
    }
    push_cmd(cmds, 1, 1);
    push_step(cmds, at, cs[0]);
    push_cmd(cmds, 2, n - 1);
    push_steps(cmds, cs[0], cs, 1, n);
    if ring {
        push_cmd(cmds, 7, 1);
    }
    proof {
        assert(path.points.skip(1) =~= cs@.subrange(1, n as int));
        assert(cmds@ =~= old(cmds)@ + path_commands(at, path));
        assert(drawn_part(cs@, ring).skip(1) =~= Seq::<Path>::empty());
        reveal_with_fuel(paths_commands, 2);
        assert(cmds@ =~= old(cmds)@ + paths_commands(at, drawn_part(cs@, ring)));
    }
    cs[n - 1]
}

proof fn lemma_drawn_parts_push(ls: Seq<Seq<GridPoint>>, ring: bool, i: int)
    requires
        0 <= i < ls.len(),
    ensures
        drawn_parts(ls.take(i + 1), ring) == drawn_parts(ls.take(i), ring) + drawn_part(
            ls[i],
            ring,
        ),
        drawn_parts(ls, ring) == drawn_parts(ls.take(i), ring) + drawn_parts(ls.skip(i), ring),
        drawn_parts(ls.skip(i), ring) == drawn_part(ls[i], ring) + drawn_parts(
            ls.skip(i + 1),
            ring,
        ),
    decreases i,
{
    assert(ls.skip(i).skip(1) =~= ls.skip(i + 1));
    if i > 0 {
        let rest = ls.skip(1);
        lemma_drawn_parts_push(rest, ring, i - 1);
        assert(ls.take(i + 1).skip(1) =~= rest.take(i));
        assert(ls.take(i).skip(1) =~= rest.take(i - 1));
        assert(rest.skip(i - 1) =~= ls.skip(i));
        assert(drawn_parts(ls.take(i + 1), ring) =~= drawn_parts(ls.take(i), ring) + drawn_part(
            ls[i],
            ring,
        ));
        assert(drawn_parts(ls, ring) =~= drawn_parts(ls.take(i), ring) + drawn_parts(
            ls.skip(i),
            ring,
        ));
    } else {
        assert(ls.skip(0) =~= ls);
        assert(ls.take(1).skip(1) =~= Seq::<Seq<GridPoint>>::empty());
        assert(ls.take(0) =~= Seq::<Seq<GridPoint>>::empty());
        assert(drawn_parts(ls.take(1), ring) =~= drawn_part(ls[0], ring));
        assert(drawn_parts(ls.take(0), ring) + drawn_part(ls[0], ring) =~= drawn_part(ls[0], ring));
        assert(drawn_parts(ls.take(0), ring) + drawn_parts(ls, ring) =~= drawn_parts(ls, ring));
    }
}

/// Append what is drawn of lines or rings.
fn push_parts(cmds: &mut Vec<u32>, at: GridPoint, ls: &Vec<Vec<GridPoint>>, ring: bool) -> (next:
    GridPoint)
    requires
        paths_fit(at, drawn_parts(line_shapes(ls@), ring)),
    ensures
        final(cmds)@ == old(cmds)@ + paths_commands(at, drawn_parts(line_shapes(ls@), ring)),
        next == cursor_after(at, drawn_parts(line_shapes(ls@), ring)),
{
    let ghost all = line_shapes(ls@);
    let mut cursor: GridPoint = at;
    let mut i: usize = 0;
    proof {
        assert(all.take(0) =~= Seq::<Seq<GridPoint>>::empty());
        assert(cmds@ =~= old(cmds)@ + paths_commands(at, drawn_parts(all.take(0), ring)));
    }
    while i < ls.len()
        invariant
            i <= ls.len(),
            all == line_shapes(ls@),
            paths_fit(at, drawn_parts(all, ring)),
            cursor == cursor_after(at, drawn_parts(all.take(i as int), ring)),
            cmds@ == old(cmds)@ + paths_commands(at, drawn_parts(all.take(i as int), ring)),
        decreases ls.len() - i,
    {
        let ghost done = drawn_parts(all.take(i as int), ring);
        let ghost part = drawn_part(all[i as int], ring);
        proof {
            lemma_drawn_parts_push(all, ring, i as int);
            lemma_paths_concat(at, done, drawn_parts(all.skip(i as int), ring));
            lemma_paths_concat(cursor, part, drawn_parts(all.skip(i + 1), ring));
            lemma_paths_concat(at, done, part);
        }
        cursor = push_part(cmds, cursor, &ls[i], ring);
        i = i + 1;
        assert(cmds@ =~= old(cmds)@ + paths_commands(at, drawn_parts(all.take(i as int), ring)));
    }
    assert(all.take(i as int) =~= all);
    cursor
}

fn push_polygon(cmds: &mut Vec<u32>, at: GridPoint, p: &Polygon<GridPoint>) -> (next: GridPoint)
    requires
        paths_fit(at, drawn_polygon(p.shape())),
    ensures
        final(cmds)@ == old(cmds)@ + paths_commands(at, drawn_polygon(p.shape())),
        next == cursor_after(at, drawn_polygon(p.shape())),
{
    proof {
        lemma_paths_concat(
            at,
            drawn_part(p.shape().exterior, true),
            drawn_parts(p.shape().interiors, true),
        );
    }
    let cursor = push_part(cmds, at, &p.exterior, true);
    let next = push_parts(cmds, cursor, &p.interiors, true);
    assert(cmds@ =~= old(cmds)@ + paths_commands(at, drawn_polygon(p.shape())));
    next
}

proof fn lemma_drawn_polygons_push(ps: Seq<PolygonShape<GridPoint>>, i: int)
    requires
        0 <= i < ps.len(),
    ensures
        drawn_polygons(ps.take(i + 1)) == drawn_polygons(ps.take(i)) + drawn_polygon(ps[i]),
        drawn_polygons(ps) == drawn_polygons(ps.take(i)) + drawn_polygons(ps.skip(i)),
        drawn_polygons(ps.skip(i)) == drawn_polygon(ps[i]) + drawn_polygons(ps.skip(i + 1)),
    decreases i,
{
    assert(ps.skip(i).skip(1) =~= ps.skip(i + 1));
    if i > 0 {
        let rest = ps.skip(1);
        lemma_drawn_polygons_push(rest, i - 1);
        assert(ps.take(i + 1).skip(1) =~= rest.take(i));
        assert(ps.take(i).skip(1) =~= rest.take(i - 1));
        assert(rest.skip(i - 1) =~= ps.skip(i));
        assert(drawn_polygons(ps.take(i + 1)) =~= drawn_polygons(ps.take(i)) + drawn_polygon(
            ps[i],
        ));
        assert(drawn_polygons(ps) =~= drawn_polygons(ps.take(i)) + drawn_polygons(ps.skip(i)));
    } else {
        assert(ps.skip(0) =~= ps);
        assert(ps.take(1).skip(1) =~= Seq::<PolygonShape<GridPoint>>::empty());
        assert(ps.take(0) =~= Seq::<PolygonShape<GridPoint>>::empty());
        assert(drawn_polygons(ps.take(1)) =~= drawn_polygon(ps[0]));
        assert(drawn_polygons(ps.take(0)) + drawn_polygon(ps[0]) =~= drawn_polygon(ps[0]));
        assert(drawn_polygons(ps.take(0)) + drawn_polygons(ps) =~= drawn_polygons(ps));
    }
}

fn push_polygons(cmds: &mut Vec<u32>, at: GridPoint, ps: &Vec<Polygon<GridPoint>>)
    requires
        paths_fit(at, drawn_polygons(polygon_shapes(ps@))),
    ensures
        final(cmds)@ == old(cmds)@ + paths_commands(at, drawn_polygons(polygon_shapes(ps@))),
{
    let ghost all = polygon_shapes(ps@);
    let mut cursor: GridPoint = at;
    let mut i: usize = 0;
    proof {
        assert(all.take(0) =~= Seq::<PolygonShape<GridPoint>>::empty());
        assert(cmds@ =~= old(cmds)@ + paths_commands(at, drawn_polygons(all.take(0))));
    }
    while i < ps.len()
        invariant
            i <= ps.len(),
            all == polygon_shapes(ps@),
            paths_fit(at, drawn_polygons(all)),
            cursor == cursor_after(at, drawn_polygons(all.take(i as int))),
            cmds@ == old(cmds)@ + paths_commands(at, drawn_polygons(all.take(i as int))),
        decreases ps.len() - i,
    {
        proof {
            let done = drawn_polygons(all.take(i as int));
            let part = drawn_polygon(all[i as int]);
            lemma_drawn_polygons_push(all, i as int);
            lemma_paths_concat(at, done, drawn_polygons(all.skip(i as int)));
            lemma_paths_concat(cursor, part, drawn_polygons(all.skip(i + 1)));
            lemma_paths_concat(at, done, part);
        }
        cursor = push_polygon(cmds, cursor, &ps[i]);
        i = i + 1;
        assert(cmds@ =~= old(cmds)@ + paths_commands(at, drawn_polygons(all.take(i as int))));
    }
    assert(all.take(i as int) =~= all);
}

/// The commands of a geometry; `None` for one that a tile cannot represent.
pub fn encode_geometry(geom: &Geometry<GridPoint>) -> (r: Option<Vec<u32>>)
    requires
        geometry_fits(*geom),
    ensures
        match geometry_commands(*geom) {
            Some(s) => r matches Some(v) && v@ == s,
            None => r is None,
        },
{
    let mut cmds: Vec<u32> = Vec::new();
    match geom {
        Geometry::Point(c) => {
            let one: Vec<GridPoint> = vec![*c];
            assert(one@ =~= seq![*c]);
            assert(one@.subrange(0, 1) =~= one@ && one@.take(1) =~= one@);
            push_cmd(&mut cmds, 1, 1);
            push_steps(&mut cmds, (0, 0), &one, 0, 1);
        },
        Geometry::MultiPoint(cs) => {
            if cs.len() == 0 {
                return None;
            }
            assert(cs@.subrange(0, cs@.len() as int) =~= cs@ && cs@.take(cs@.len() as int) =~= cs@);
            push_cmd(&mut cmds, 1, cs.len());
            push_steps(&mut cmds, (0, 0), cs, 0, cs.len());
        },
        Geometry::Line(a, b) => {
            let ends: Vec<GridPoint> = vec![*a, *b];
            assert(ends@ =~= seq![*a, *b]);
            push_part(&mut cmds, (0, 0), &ends, false);
        },
        Geometry::LineString(cs) => {
            push_part(&mut cmds, (0, 0), cs, false);
        },
        Geometry::MultiLineString(ls) => {
            push_parts(&mut cmds, (0, 0), ls, false);
        },
        Geometry::Polygon(p) => {
            push_polygon(&mut cmds, (0, 0), p);
        },
        Geometry::MultiPolygon(ps) => {
            push_polygons(&mut cmds, (0, 0), ps);
        },
        Geometry::GeometryCollection(_) => {
            return None;
        },
        Geometry::Other => {
            return None;
        },
    }
    assert(cmds@ =~= geometry_commands(*geom)->0);
    Some(cmds)
}

// ── properties ──────────────────────────────────────────────────────────────

/// A property value as tiles hold it. Floating-point numbers are given as bit
/// patterns.
#[derive(Debug)]
pub enum MvtValue {
    Bool(bool),
    Sint(i64),
    Double(u64),
    Text(String),
}

/// A tile value with its text as a sequence of characters.
pub enum MvtView {
    Bool(bool),
    Sint(i64),
    Double(u64),
    Text(Seq<char>),
}

impl View for MvtValue {
    type V = MvtView;

    open spec fn view(&self) -> MvtView {
        match *self {
            MvtValue::Bool(b) => MvtView::Bool(b),
            MvtValue::Sint(i) => MvtView::Sint(i),
            MvtValue::Double(d) => MvtView::Double(d),
            MvtValue::Text(s) => MvtView::Text(s@),
        }
    }
}

/// The tile value that stands for a JSON value. What tiles have no type for is
/// given as its JSON text.
pub open spec fn mvt_value(v: PropView) -> MvtView {
    match v {
        PropView::Null => MvtView::Text("null"@),
        PropView::Bool(b) => MvtView::Bool(b),
        PropView::Int(i) => MvtView::Sint(i),
        PropView::Float(d) => MvtView::Double(d),
        PropView::Text(s) => MvtView::Text(s),
        PropView::Array(s) => MvtView::Text(s),
        PropView::Object(s) => MvtView::Text(s),
    }
}

/// The tile value that stands for a JSON value.
pub fn json_value_to_mvt(v: &PropValue) -> (r: MvtValue)
    ensures
        r@ == mvt_value(v@),
{
    match v {
        PropValue::Null => MvtValue::Text("null".to_owned()),
        PropValue::Bool(b) => MvtValue::Bool(*b),
        PropValue::Int(i) => MvtValue::Sint(*i),
        PropValue::Float(d) => MvtValue::Double(*d),
        PropValue::Text(s) => MvtValue::Text(s.clone()),
        PropValue::Array(s) => MvtValue::Text(s.clone()),
        PropValue::Object(s) => MvtValue::Text(s.clone()),
    }
}

/// The first position of `v` in a table.
pub open spec fn place<T>(table: Seq<T>, v: T) -> Option<int>
    decreases table.len(),
{
    if table.len() == 0 {
        None
    } else {
        match place(table.drop_last(), v) {
            Some(i) => Some(i),
            None => if table.last() == v {
                Some(table.len() - 1)
            } else {
                None
            },
        }
    }
}

/// The table after `v` has been looked up in it: `v` is added where it is new.
pub open spec fn interned<T>(table: Seq<T>, v: T) -> Seq<T> {
    match place(table, v) {
        Some(_) => table,
        None => table.push(v),
    }
}

/// The number under which `v` is known in a table.
pub open spec fn known_as<T>(table: Seq<T>, v: T) -> Option<u32> {
    match place(table, v) {
        Some(i) => Some(low32(i)),
        None => None,
    }
}

pub proof fn lemma_place_push<T>(table: Seq<T>, x: T, v: T)
    ensures
        place(table.push(x), v) == match place(table, v) {
            Some(i) => Some(i),
            None => if x == v {
                Some(table.len() as int)
            } else {
                None
            },
        },
{
    assert(table.push(x).drop_last() =~= table);
}

/// An interned value is found where its number says, and the table never
/// holds a value twice.
pub proof fn interning_is_faithful<T>(table: Seq<T>, v: T)
    ensures
        place(interned(table, v), v) matches Some(i) && 0 <= i < interned(table, v).len()
            && interned(table, v)[i] == v,
        table.no_duplicates() ==> interned(table, v).no_duplicates(),
{
    lemma_place_push(table, v, v);
    lemma_place_found(table, v);
    if place(table, v) is None && table.no_duplicates() {
        assert forall|i: int, j: int|
            0 <= i < j < table.push(v).len() implies table.push(v)[i] != table.push(v)[j] by {
            if j == table.len() {
                assert(table[i] != v);
            }
        }
    }
}

pub(crate) proof fn lemma_place_found<T>(table: Seq<T>, v: T)
    ensures
        match place(table, v) {
            Some(i) => 0 <= i < table.len() && table[i] == v && forall|k: int|
                0 <= k < i ==> #[trigger] table[k] != v,
            None => forall|i: int| 0 <= i < table.len() ==> #[trigger] table[i] != v,
        },
    decreases table.len(),
{
    if table.len() > 0 {
        let rest = table.drop_last();
        lemma_place_found(rest, v);
        assert forall|k: int| 0 <= k < rest.len() implies #[trigger] table[k] == rest[k] by {}
        match place(rest, v) {
            Some(i) => {
                assert(rest[i] == table[i]);
            },
            None => {
                if table.last() != v {
                    assert forall|i: int| 0 <= i < table.len() implies #[trigger] table[i] != v by {
                        if i < rest.len() {
                            assert(rest[i] == table[i]);
                        }
                    }
                }
            },
        }
    }
}

/// The texts as sequences.
pub open spec fn key_views(keys: Seq<String>) -> Seq<Seq<char>> {
    Seq::new(keys.len(), |i: int| keys[i]@)
}

/// The values with their texts as sequences.
pub open spec fn value_views(values: Seq<MvtValue>) -> Seq<MvtView> {
    Seq::new(values.len(), |i: int| values[i]@)
}

/// The property names of a layer.
struct KeyTable {
    keys: Vec<String>,
    index: StringHashMap<u32>,
}

impl KeyTable {
    spec fn table(&self) -> Seq<Seq<char>> {
        key_views(self.keys@)
    }

    spec fn wf(&self) -> bool {
        forall|k: Seq<char>| #[trigger]
            known_as(self.table(), k) == (if self.index@.contains_key(k) {
                Some(self.index@[k])
            } else {
                None
            })
    }

    fn new() -> (t: KeyTable)
        ensures
            t.wf(),
            t.table() == Seq::<Seq<char>>::empty(),
    {
        let t = KeyTable { keys: Vec::new(), index: StringHashMap::new() };
        assert(t.table() =~= Seq::<Seq<char>>::empty());
        t
    }

    fn intern(&mut self, k: &String) -> (n: u32)
        requires
            old(self).wf(),
        ensures
            final(self).wf(),
            final(self).table() == interned(old(self).table(), k@),
            known_as(final(self).table(), k@) == Some(n),
    {
        let ghost before = self.table();
        assert(known_as(before, k@) == (if self.index@.contains_key(k@) {
            Some(self.index@[k@])
        } else {
            None
        }));
        match self.index.get(k.as_str()) {
            Some(n) => {
                return *n;
            },
            None => {},
        }
        let n: u32 = (self.keys.len() as u64 % 0x1_0000_0000) as u32;
        self.keys.push(k.clone());
        self.index.insert(k.clone(), n);
        proof {
            assert(self.table() =~= before.push(k@));
            assert forall|j: Seq<char>| #[trigger]
                known_as(self.table(), j) == (if self.index@.contains_key(j) {
                    Some(self.index@[j])
                } else {
                    None
                }) by {
                lemma_place_push(before, k@, j);
                assert(known_as(before, j) == known_as(before, j));
            }
            lemma_place_push(before, k@, k@);
        }
        n
    }
}

/// The property values of a layer.
struct ValueTable {
    values: Vec<MvtValue>,
    texts: StringHashMap<u32>,
    sints: HashMap<i64, u32>,
    doubles: HashMap<u64, u32>,
    truth: Option<u32>,
    falsehood: Option<u32>,
}

impl ValueTable {
    spec fn table(&self) -> Seq<MvtView> {
        value_views(self.values@)
    }

    spec fn number(&self, v: MvtView) -> Option<u32> {
        match v {
            MvtView::Bool(b) => if b {
                self.truth
            } else {
                self.falsehood
            },
            MvtView::Sint(i) => if self.sints@.contains_key(i) {
                Some(self.sints@[i])
            } else {
                None
            },
            MvtView::Double(d) => if self.doubles@.contains_key(d) {
                Some(self.doubles@[d])
            } else {
                None
            },
            MvtView::Text(s) => if self.texts@.contains_key(s) {
                Some(self.texts@[s])
            } else {
                None
            },
        }
    }

    spec fn wf(&self) -> bool {
        forall|v: MvtView| #[trigger] known_as(self.table(), v) == self.number(v)
    }

    fn new() -> (t: ValueTable)
        ensures
            t.wf(),
            t.table() == Seq::<MvtView>::empty(),
    {
        let t = ValueTable {
            values: Vec::new(),
            texts: StringHashMap::new(),
            sints: HashMap::new(),
            doubles: HashMap::new(),
            truth: None,
            falsehood: None,
        };
        assert(t.table() =~= Seq::<MvtView>::empty());
        t
    }

    fn find(&self, v: &MvtValue) -> (r: Option<u32>)
        ensures
            r == self.number(v@),
    {
        match v {
            MvtValue::Bool(b) => if *b {
                self.truth
            } else {
                self.falsehood
            },
            MvtValue::Sint(i) => match self.sints.get(i) {
                Some(n) => Some(*n),
                None => None,
            },
            MvtValue::Double(d) => match self.doubles.get(d) {
                Some(n) => Some(*n),
                None => None,
            },
            MvtValue::Text(s) => match self.texts.get(s.as_str()) {
                Some(n) => Some(*n),
                None => None,
            },
        }
    }

    fn remember(&mut self, v: &MvtValue, n: u32)
        requires
            old(self).number(v@) is None,
        ensures
            final(self).values == old(self).values,
            forall|w: MvtView| #[trigger]
                final(self).number(w) == (if w == v@ {
                    Some(n)
                } else {
                    old(self).number(w)
                }),
    {
        match v {
            MvtValue::Bool(b) => {
                if *b {
                    self.truth = Some(n);
                } else {
                    self.falsehood = Some(n);
                }
            },
            MvtValue::Sint(i) => {
                self.sints.insert(*i, n);
            },
            MvtValue::Double(d) => {
                self.doubles.insert(*d, n);
            },
            MvtValue::Text(s) => {
                self.texts.insert(s.clone(), n);
            },
        }
    }

    fn intern(&mut self, v: MvtValue) -> (n: u32)
        requires
            old(self).wf(),
        ensures
            final(self).wf(),
            final(self).table() == interned(old(self).table(), v@),
            known_as(final(self).table(), v@) == Some(n),
    {
        let ghost before = self.table();
        let ghost old_self = *self;
        assert(known_as(before, v@) == self.number(v@));
        match self.find(&v) {
            Some(n) => {
                return n;
            },
            None => {},
        }
        let n: u32 = (self.values.len() as u64 % 0x1_0000_0000) as u32;
        self.remember(&v, n);
        let ghost mid = *self;
        self.values.push(v);
        proof {
            assert(self.table() =~= before.push(v@));
            assert forall|w: MvtView| #[trigger] known_as(self.table(), w) == self.number(w) by {
                lemma_place_push(before, v@, w);
                assert(known_as(before, w) == old_self.number(w));
                assert(self.number(w) == mid.number(w));
            }
            lemma_place_push(before, v@, v@);
        }
        n
    }
}

// ── layers ──────────────────────────────────────────────────────────────────

/// A feature of a tile: its geometry on the grid and its properties.
pub struct EncodableFeature {
    pub geom: Geometry<GridPoint>,
    pub props: Vec<(String, PropValue)>,
}

/// The properties as pairs of a name and a value.
pub open spec fn prop_views(props: Seq<(String, PropValue)>) -> Seq<(Seq<char>, MvtView)> {
    Seq::new(props.len(), |i: int| (props[i].0@, mvt_value(props[i].1@)))
}

/// The tables of a layer.
#[verifier::ext_equal]
pub struct Tables {
    pub keys: Seq<Seq<char>>,
    pub values: Seq<MvtView>,
}

/// The tables after the properties of a feature have been looked up in them.
pub open spec fn tables_after(t: Tables, props: Seq<(Seq<char>, MvtView)>) -> Tables
    decreases props.len(),
{
    if props.len() == 0 {
        t
    } else {
        let head = tables_after(t, props.drop_last());
        Tables {
            keys: interned(head.keys, props.last().0),
            values: interned(head.values, props.last().1),
        }
    }
}

/// The tags of a feature: for each property the number of its name and the
/// number of its value.
pub open spec fn tags_of(t: Tables, props: Seq<(Seq<char>, MvtView)>) -> Seq<u32>
    decreases props.len(),
{
    if props.len() == 0 {
        Seq::empty()
    } else {
        let after = tables_after(t, props);
        tags_of(t, props.drop_last()).push(
            known_as(after.keys, props.last().0)->0,
        ).push(known_as(after.values, props.last().1)->0)
    }
}

/// A feature as it is written: kind of geometry, tags, commands.
pub type FeatureParts = (i32, Seq<u32>, Seq<u32>);

/// The features of a layer and its tables. A feature whose geometry a tile
/// cannot represent is left out, with its properties.
pub open spec fn layer_parts(fs: Seq<EncodableFeature>) -> (Seq<FeatureParts>, Tables)
    decreases fs.len(),
{
    if fs.len() == 0 {
        (Seq::empty(), Tables { keys: Seq::empty(), values: Seq::empty() })
    } else {
        let (done, t) = layer_parts(fs.drop_last());
        let f = fs.last();
        match geometry_commands(f.geom) {
            None => (done, t),
            Some(cmds) => {
                let props = prop_views(f.props@);
                (done.push((geom_type(f.geom), tags_of(t, props), cmds)), tables_after(t, props))
            },
        }
    }
}

/// A value as it is written: exactly one of text, floating-point number (as a
/// bit pattern), integer and truth value.
pub type ValueParts = (Option<Seq<char>>, Option<u64>, Option<i64>, Option<bool>);

pub open spec fn value_parts(v: MvtView) -> ValueParts {
    match v {
        MvtView::Text(s) => (Some(s), None, None, None),
        MvtView::Double(d) => (None, Some(d), None, None),
        MvtView::Sint(i) => (None, None, Some(i), None),
        MvtView::Bool(b) => (None, None, None, Some(b)),
    }
}

/// The bytes that `prost` writes for a tile with one layer, made up of the
/// given parts.
pub uninterp spec fn tile_message(
    version: u32,
    name: Seq<char>,
    extent: u32,
    features: Seq<FeatureParts>,
    keys: Seq<Seq<char>>,
    values: Seq<ValueParts>,
) -> Seq<u8>;

pub open spec fn feature_rows(fs: Seq<(i32, Vec<u32>, Vec<u32>)>) -> Seq<FeatureParts> {
    Seq::new(fs.len(), |i: int| (fs[i].0, fs[i].1@, fs[i].2@))
}

pub open spec fn value_rows(
    vs: Seq<(Option<String>, Option<u64>, Option<i64>, Option<bool>)>,
) -> Seq<ValueParts> {
    Seq::new(
        vs.len(),
        |i: int|
            (
                match vs[i].0 {
                    Some(s) => Some(s@),
                    None => None,
                },
                vs[i].1,
                vs[i].2,
                vs[i].3,
            ),
    )
}

/// Calls `encode_to_vec` of `geozero`'s tile message.
///
/// Claimed: the bytes depend on the parts of the layer alone.
#[verifier::external_body]
fn encode_message(
    version: u32,
    name: String,
    extent: u32,
    features: Vec<(i32, Vec<u32>, Vec<u32>)>,
    keys: Vec<String>,
    values: Vec<(Option<String>, Option<u64>, Option<i64>, Option<bool>)>,
) -> (out: Vec<u8>)
    requires
        forall|i: int| 0 <= i < features.len() ==> 1 <= (#[trigger] features@[i]).0 <= 3,
    ensures
        out@ == tile_message(version, name@, extent, feature_rows(features@), key_views(keys@), value_rows(values@)),
{
    let values = values.into_iter().map(|(string_value, double, sint_value, bool_value)| {
        let double_value = double.map(|d| (&d.to_le_bytes()[..]).get_f64_le());
        Value { string_value, double_value, sint_value, bool_value, ..Default::default() }
    }).collect();
    let features = features.into_iter().map(|(kind, tags, geometry)| {
        let mut message = Feature { tags, geometry, ..Default::default() };
        message.set_type(GeomType::from_i32(kind).unwrap());
        message
    }).collect();
    let layer = Layer { version, name, extent: Some(extent), features, keys, values };
    Tile { layers: vec![layer] }.encode_to_vec()
}

/// The bytes of a tile with one layer that holds the features.
pub open spec fn tile_bytes(name: Seq<char>, fs: Seq<EncodableFeature>) -> Seq<u8> {
    let (features, t) = layer_parts(fs);
    tile_message(
        2,
        name,
        MVT_EXTENT,
        features,
        t.keys,
        t.values.map_values(|v: MvtView| value_parts(v)),
    )
}

fn geom_type_id(geom: &Geometry<GridPoint>) -> (r: i32)
    ensures
        r == geom_type(*geom),
{
    match geom {
        Geometry::Point(_) => 1,
        Geometry::MultiPoint(_) => 1,
        Geometry::Line(_, _) => 2,
        Geometry::LineString(_) => 2,
        Geometry::MultiLineString(_) => 2,
        Geometry::Polygon(_) => 3,
        Geometry::MultiPolygon(_) => 3,
        Geometry::GeometryCollection(_) => 1,
        Geometry::Other => 1,
    }
}

fn intern_props(
    keys: &mut KeyTable,
    values: &mut ValueTable,
    props: &Vec<(String, PropValue)>,
) -> (tags: Vec<u32>)
    requires
        old(keys).wf(),
        old(values).wf(),
    ensures
        final(keys).wf(),
        final(values).wf(),
        ({
            let t = Tables { keys: old(keys).table(), values: old(values).table() };
            let p = prop_views(props@);
            &&& tags@ == tags_of(t, p)
            &&& (Tables { keys: final(keys).table(), values: final(values).table() })
                == tables_after(t, p)
        }),
{
    let ghost t = Tables { keys: keys.table(), values: values.table() };
    let ghost all = prop_views(props@);
    let mut tags: Vec<u32> = Vec::new();
    let mut i: usize = 0;
    assert(all.take(0) =~= Seq::<(Seq<char>, MvtView)>::empty());
    while i < props.len()
        invariant
            i <= props.len(),
            keys.wf(),
            values.wf(),
            all == prop_views(props@),
            tags@ == tags_of(t, all.take(i as int)),
            (Tables { keys: keys.table(), values: values.table() }) == tables_after(
                t,
                all.take(i as int),
            ),
        decreases props.len() - i,
    {
        let k: u32 = keys.intern(&props[i].0);
        let v: u32 = values.intern(json_value_to_mvt(&props[i].1));
        tags.push(k);
        tags.push(v);
        i = i + 1;
        proof {
            assert(all.take(i as int).drop_last() =~= all.take(i - 1));
            assert(all.take(i as int).last() == all[i - 1]);
        }
    }
    assert(all.take(i as int) =~= all);
    tags
}

fn split_values(values: Vec<MvtValue>) -> (rows: Vec<
    (Option<String>, Option<u64>, Option<i64>, Option<bool>),
>)
    ensures
        value_rows(rows@) == value_views(values@).map_values(|v: MvtView| value_parts(v)),
{
    let mut rows: Vec<(Option<String>, Option<u64>, Option<i64>, Option<bool>)> = Vec::new();
    let mut i: usize = 0;
    while i < values.len()
        invariant
            i <= values.len(),
            rows.len() == i,
            forall|k: int| 0 <= k < i ==> #[trigger] value_rows(rows@)[k] == value_parts(values@[k]@),
        decreases values.len() - i,
    {
        let ghost before = value_rows(rows@);
        let row = match &values[i] {
            MvtValue::Text(s) => (Some(s.clone()), None, None, None),
            MvtValue::Double(d) => (None, Some(*d), None, None),
            MvtValue::Sint(n) => (None, None, Some(*n), None),
            MvtValue::Bool(b) => (None, None, None, Some(*b)),
        };
        rows.push(row);
        proof {
            assert forall|k: int| 0 <= k < i + 1 implies #[trigger] value_rows(rows@)[k]
                == value_parts(values@[k]@) by {
                if k < i {
                    assert(value_rows(rows@)[k] == before[k]);
                }
            }
        }
        i = i + 1;
    }
    assert(value_rows(rows@) =~= value_views(values@).map_values(|v: MvtView| value_parts(v)));
    rows
}

/// Encode features into a tile with one layer.
pub fn encode_tile(layer_name: &str, features: &Vec<EncodableFeature>) -> (out: Vec<u8>)
    requires
        forall|i: int|
            0 <= i < features.len() ==> geometry_fits((#[trigger] features@[i]).geom),
    ensures
        out@ == tile_bytes(layer_name@, features@),
{
    let mut keys = KeyTable::new();
    let mut values = ValueTable::new();
    let mut rows: Vec<(i32, Vec<u32>, Vec<u32>)> = Vec::new();
    let mut i: usize = 0;
    proof {
        assert(features@.take(0) =~= Seq::<EncodableFeature>::empty());
        assert(feature_rows(rows@) =~= Seq::<FeatureParts>::empty());
    }
    while i < features.len()
        invariant
            i <= features.len(),
            forall|k: int|
                0 <= k < features.len() ==> geometry_fits((#[trigger] features@[k]).geom),
            keys.wf(),
            values.wf(),
            forall|k: int| 0 <= k < rows.len() ==> 1 <= (#[trigger] rows@[k]).0 <= 3,
            layer_parts(features@.take(i as int)) == (
                feature_rows(rows@),
                Tables { keys: keys.table(), values: values.table() },
            ),
        decreases features.len() - i,
    {
        let f = &features[i];
        assert(geometry_fits(features@[i as int].geom));
        proof {
            assert(features@.take(i + 1).drop_last() =~= features@.take(i as int));
            assert(features@.take(i + 1).last() == features@[i as int]);
        }
        match encode_geometry(&f.geom) {
            Some(cmds) => {
                let kind: i32 = geom_type_id(&f.geom);
                let tags = intern_props(&mut keys, &mut values, &f.props);
                let ghost before = feature_rows(rows@);
                rows.push((kind, tags, cmds));
                assert(feature_rows(rows@) =~= before.push((kind, tags@, cmds@)));
            },
            None => {},
        }
        i = i + 1;
    }
    assert(features@.take(i as int) =~= features@);
    let value_rows_out = split_values(values.values);
    encode_message(2, layer_name.to_owned(), MVT_EXTENT, rows, keys.keys, value_rows_out)
}

} // verus!
