//! The extent of geometries, as bit patterns of floating-point numbers.

use vstd::prelude::*;

use crate::clip::{holds, Bounds};
use crate::geometry::{Coord, Geometry, Polygon};
use crate::number::{at_most, below, is_nan, less};

verus! {

/// The lesser of two numbers; the first unless the second is less.
pub open spec fn lower(a: u64, b: u64) -> u64 {
    if below(b, a) {
        b
    } else {
        a
    }
}

/// The greater of two numbers; the first unless the second is greater.
pub open spec fn upper(a: u64, b: u64) -> u64 {
    if below(a, b) {
        b
    } else {
        a
    }
}

fn min_of(a: u64, b: u64) -> (r: u64)
    ensures
        r == lower(a, b),
{
    if less(b, a) {
        b
    } else {
        a
    }
}

fn max_of(a: u64, b: u64) -> (r: u64)
    ensures
        r == upper(a, b),
{
    if less(a, b) {
        b
    } else {
        a
    }
}

/// The box, stretched to hold one more point.
pub open spec fn stretched(b: Bounds, c: Coord) -> Bounds {
    Bounds {
        min_x: lower(b.min_x, c.x),
        min_y: lower(b.min_y, c.y),
        max_x: upper(b.max_x, c.x),
        max_y: upper(b.max_y, c.y),
    }
}

/// The box, stretched to hold some more points.
pub open spec fn stretched_over(b: Bounds, cs: Seq<Coord>) -> Bounds
    decreases cs.len(),
{
    if cs.len() == 0 {
        b
    } else {
        stretched(stretched_over(b, cs.drop_last()), cs.last())
    }
}

/// Stretching a box over some points and then over others is to stretch it over all of
/// them.
pub proof fn stretching_goes_on(b: Bounds, x: Seq<Coord>, y: Seq<Coord>)
    ensures
        stretched_over(b, x + y) == stretched_over(stretched_over(b, x), y),
    decreases y.len(),
{
    if y.len() == 0 {
        assert(x + y =~= x);
    } else {
        assert((x + y).drop_last() =~= x + y.drop_last());
        stretching_goes_on(b, x, y.drop_last());
    }
}

/// The points that the extent of a geometry depends on: of a polygon those of its
/// outer ring.
pub open spec fn outline(g: Geometry<Coord>) -> Seq<Coord>
    decreases g, 0nat,
{
    match g {
        Geometry::Point(c) => seq![c],
        Geometry::Line(a, b) => seq![a, b],
        Geometry::LineString(v) => v@,
        Geometry::Polygon(p) => p.exterior@,
        Geometry::MultiPoint(v) => v@,
        Geometry::MultiLineString(v) => lines_outline(v@, v@.len() as int),
        Geometry::MultiPolygon(v) => polygons_outline(v@, v@.len() as int),
        Geometry::GeometryCollection(v) => members_outline(v, v@.len()),
        Geometry::Other => Seq::empty(),
    }
}

/// The points of the first `n` lines.
pub open spec fn lines_outline(v: Seq<Vec<Coord>>, n: int) -> Seq<Coord>
    decreases n,
{
    if n <= 0 {
        Seq::empty()
    } else {
        lines_outline(v, n - 1) + v[n - 1]@
    }
}

/// The points of the outer rings of the first `n` polygons.
pub open spec fn polygons_outline(v: Seq<Polygon<Coord>>, n: int) -> Seq<Coord>
    decreases n,
{
    if n <= 0 {
        Seq::empty()
    } else {
        polygons_outline(v, n - 1) + v[n - 1].exterior@
    }
}

/// The points of the first `n` members.
pub open spec fn members_outline(v: Vec<Geometry<Coord>>, n: nat) -> Seq<Coord>
    decreases v, n,
{
    if n == 0 || n > v@.len() {
        Seq::empty()
    } else {
        members_outline(v, (n - 1) as nat) + outline(v@[n - 1])
    }
}

/// A box that holds nothing: it is stretched to whatever comes first.
pub open spec fn nothing_held() -> Bounds {
    Bounds {
        min_x: 0x7fef_ffff_ffff_ffff,
        min_y: 0x7fef_ffff_ffff_ffff,
        max_x: 0xffef_ffff_ffff_ffff,
        max_y: 0xffef_ffff_ffff_ffff,
    }
}

/// The extent of what has been seen so far.
#[derive(Debug, Clone, Copy)]
pub struct Extent {
    bounds: Bounds,
}

impl Extent {
    pub closed spec fn bounds(&self) -> Bounds {
        self.bounds
    }

    /// Nothing has been seen.
    pub fn new() -> (e: Extent)
        ensures
            e.bounds() == nothing_held(),
    {
        Extent {
            bounds: Bounds {
                min_x: 0x7fef_ffff_ffff_ffff,
                min_y: 0x7fef_ffff_ffff_ffff,
                max_x: 0xffef_ffff_ffff_ffff,
                max_y: 0xffef_ffff_ffff_ffff,
            },
        }
    }

    /// Take in a point.
    pub fn stretch(&mut self, c: Coord)
        ensures
            final(self).bounds() == stretched(old(self).bounds(), c),
    {
        let b = self.bounds;
        self.bounds = Bounds {
            min_x: min_of(b.min_x, c.x),
            min_y: min_of(b.min_y, c.y),
            max_x: max_of(b.max_x, c.x),
            max_y: max_of(b.max_y, c.y),
        };
    }

    fn stretch_over(&mut self, cs: &Vec<Coord>)
        ensures
            final(self).bounds() == stretched_over(old(self).bounds(), cs@),
    {
        let mut i: usize = 0;
        assert(cs@.take(0) =~= Seq::<Coord>::empty());
        while i < cs.len()
            invariant
                i <= cs.len(),
                self.bounds() == stretched_over(old(self).bounds(), cs@.take(i as int)),
            decreases cs.len() - i,
        {
            assert(cs@.take(i + 1).drop_last() =~= cs@.take(i as int));
            self.stretch(cs[i]);
            i = i + 1;
        }
        assert(cs@.take(i as int) =~= cs@);
    }

    /// Take in a geometry.
    pub fn cover(&mut self, g: &Geometry<Coord>)
        ensures
            final(self).bounds() == stretched_over(old(self).bounds(), outline(*g)),
        decreases *g,
    {
        let ghost start = self.bounds();
        match g {
            Geometry::Point(c) => {
                self.stretch(*c);
                proof {
                    assert(seq![*c].drop_last() =~= Seq::<Coord>::empty());
                    reveal_with_fuel(stretched_over, 2);
                }
            },
            Geometry::Line(a, b) => {
                self.stretch(*a);
                self.stretch(*b);
                proof {
                    assert(seq![*a, *b].drop_last() =~= seq![*a]);
                    assert(seq![*a].drop_last() =~= Seq::<Coord>::empty());
                    reveal_with_fuel(stretched_over, 3);
                }
            },
            Geometry::LineString(v) => {
                self.stretch_over(v);
            },
            Geometry::Polygon(p) => {
                self.stretch_over(&p.exterior);
            },
            Geometry::MultiPoint(v) => {
                self.stretch_over(v);
            },
            Geometry::MultiLineString(v) => {
                let mut i: usize = 0;
                while i < v.len()
                    invariant
                        i <= v.len(),
                        self.bounds() == stretched_over(start, lines_outline(v@, i as int)),
                    decreases v.len() - i,
                {
                    proof {
                        stretching_goes_on(start, lines_outline(v@, i as int), v@[i as int]@);
                    }
                    self.stretch_over(&v[i]);
                    i = i + 1;
                }
            },
            Geometry::MultiPolygon(v) => {
                let mut i: usize = 0;
                while i < v.len()
                    invariant
                        i <= v.len(),
                        self.bounds() == stretched_over(start, polygons_outline(v@, i as int)),
                    decreases v.len() - i,
                {
                    proof {
                        stretching_goes_on(
                            start,
                            polygons_outline(v@, i as int),
                            v@[i as int].exterior@,
                        );
                    }
                    self.stretch_over(&v[i].exterior);
                    i = i + 1;
                }
            },
            Geometry::GeometryCollection(v) => {
                let mut i: usize = 0;
                while i < v.len()
                    invariant
                        i <= v.len(),
                        *g == Geometry::GeometryCollection(*v),
                        self.bounds() == stretched_over(start, members_outline(*v, i as nat)),
                    decreases v.len() - i,
                {
                    proof {
                        stretching_goes_on(
                            start,
                            members_outline(*v, i as nat),
                            outline(v@[i as int]),
                        );
                        assert(decreases_to!(*g => g->GeometryCollection_0));
                        assert(decreases_to!(*v => v@));
                        assert(decreases_to!(v@ => v@[i as int]));
                        assert(decreases_to!(*g => v@[i as int]));
                    }
                    self.cover(&v[i]);
                    i = i + 1;
                }
            },
            Geometry::Other => {},
        }
    }

    /// The extent in degrees: what lies beyond the globe is cut off.
    pub fn degrees(&self) -> (r: [u64; 4])
        ensures
            r@ == degrees_of(self.bounds()),
    {
        let b = self.bounds;
        let r: [u64; 4] = [
            max_of(b.min_x, 0xc066_8000_0000_0000),
            max_of(b.min_y, 0xc056_8000_0000_0000),
            min_of(b.max_x, 0x4066_8000_0000_0000),
            min_of(b.max_y, 0x4056_8000_0000_0000),
        ];
        assert(r@ =~= degrees_of(self.bounds()));
        r
    }
}

/// The extent in degrees, west, south, east and north: what lies beyond 180 and 90
/// degrees is cut off.
pub open spec fn degrees_of(b: Bounds) -> Seq<u64> {
    seq![
        upper(b.min_x, 0xc066_8000_0000_0000),
        upper(b.min_y, 0xc056_8000_0000_0000),
        lower(b.max_x, 0x4066_8000_0000_0000),
        lower(b.max_y, 0x4056_8000_0000_0000),
    ]
}

/// The bounding box of a geometry; one without points has none.
pub fn bounding_box(g: &Geometry<Coord>) -> (r: Option<Bounds>)
    ensures
        match r {
            None => outline(*g).len() == 0,
            Some(b) => outline(*g).len() > 0 && b == stretched_over(nothing_held(), outline(*g)),
        },
{
    if no_points(g) {
        return None;
    }
    let mut e = Extent::new();
    e.cover(g);
    Some(e.bounds)
}

fn no_points(g: &Geometry<Coord>) -> (r: bool)
    ensures
        r == (outline(*g).len() == 0),
    decreases *g,
{
    match g {
        Geometry::Point(_) => false,
        Geometry::Line(_, _) => false,
        Geometry::LineString(v) => v.len() == 0,
        Geometry::Polygon(p) => p.exterior.len() == 0,
        Geometry::MultiPoint(v) => v.len() == 0,
        Geometry::MultiLineString(v) => {
            let mut i: usize = 0;
            while i < v.len()
                invariant
                    i <= v.len(),
                    *g == Geometry::MultiLineString(*v),
                    lines_outline(v@, i as int).len() == 0,
                decreases v.len() - i,
            {
                if v[i].len() > 0 {
                    proof {
                        lemma_lines_outline_grows(v@, i + 1, v@.len() as int);
                    }
                    return false;
                }
                i = i + 1;
            }
            true
        },
        Geometry::MultiPolygon(v) => {
            let mut i: usize = 0;
            while i < v.len()
                invariant
                    i <= v.len(),
                    *g == Geometry::MultiPolygon(*v),
                    polygons_outline(v@, i as int).len() == 0,
                decreases v.len() - i,
            {
                if v[i].exterior.len() > 0 {
                    proof {
                        lemma_polygons_outline_grows(v@, i + 1, v@.len() as int);
                    }
                    return false;
                }
                i = i + 1;
            }
            true
        },
        Geometry::GeometryCollection(v) => {
            let mut i: usize = 0;
            while i < v.len()
                invariant
                    i <= v.len(),
                    *g == Geometry::GeometryCollection(*v),
                    members_outline(*v, i as nat).len() == 0,
                decreases v.len() - i,
            {
                proof {
                    assert(decreases_to!(*g => g->GeometryCollection_0));
                    assert(decreases_to!(*v => v@));
                    assert(decreases_to!(v@ => v@[i as int]));
                    assert(decreases_to!(*g => v@[i as int]));
                }
                if !no_points(&v[i]) {
                    proof {
                        lemma_members_outline_grows(*v, (i + 1) as nat, v@.len());
                    }
                    return false;
                }
                i = i + 1;
            }
            true
        },
        Geometry::Other => true,
    }
}

proof fn lemma_lines_outline_grows(v: Seq<Vec<Coord>>, m: int, n: int)
    requires
        0 <= m <= n,
    ensures
        lines_outline(v, m).len() <= lines_outline(v, n).len(),
    decreases n,
{
    if m < n {
        lemma_lines_outline_grows(v, m, n - 1);
    }
}

proof fn lemma_polygons_outline_grows(v: Seq<Polygon<Coord>>, m: int, n: int)
    requires
        0 <= m <= n,
    ensures
        polygons_outline(v, m).len() <= polygons_outline(v, n).len(),
    decreases n,
{
    if m < n {
        lemma_polygons_outline_grows(v, m, n - 1);
    }
}

proof fn lemma_members_outline_grows(v: Vec<Geometry<Coord>>, m: nat, n: nat)
    requires
        m <= n <= v@.len(),
    ensures
        members_outline(v, m).len() <= members_outline(v, n).len(),
    decreases n,
{
    if m < n {
        lemma_members_outline_grows(v, m, (n - 1) as nat);
    }
}

/// No coordinate is missing.
pub open spec fn all_numbers(cs: Seq<Coord>) -> bool {
    forall|i: int| 0 <= i < cs.len() ==> !is_nan((#[trigger] cs[i]).x) && !is_nan(cs[i].y)
}

proof fn lemma_stretched_numbers(b: Bounds, cs: Seq<Coord>)
    requires
        all_numbers(cs),
        !is_nan(b.min_x) && !is_nan(b.min_y) && !is_nan(b.max_x) && !is_nan(b.max_y),
    ensures
        ({
            let r = stretched_over(b, cs);
            &&& !is_nan(r.min_x) && !is_nan(r.min_y) && !is_nan(r.max_x) && !is_nan(r.max_y)
            &&& at_most(r.min_x, b.min_x) && at_most(r.min_y, b.min_y)
            &&& at_most(b.max_x, r.max_x) && at_most(b.max_y, r.max_y)
        }),
    decreases cs.len(),
{
    if cs.len() > 0 {
        assert(all_numbers(cs.drop_last())) by {
            assert forall|i: int| 0 <= i < cs.drop_last().len() implies !is_nan(
                (#[trigger] cs.drop_last()[i]).x,
            ) && !is_nan(cs.drop_last()[i].y) by {
                assert(!is_nan(cs[i].x));
            }
        }
        lemma_stretched_numbers(b, cs.drop_last());
        assert(!is_nan(cs[cs.len() - 1].x));
    }
}

/// A box that is stretched over points holds every one of them.
pub proof fn stretched_box_holds_all(b: Bounds, cs: Seq<Coord>, i: int)
    requires
        all_numbers(cs),
        !is_nan(b.min_x) && !is_nan(b.min_y) && !is_nan(b.max_x) && !is_nan(b.max_y),
        0 <= i < cs.len(),
    ensures
        holds(stretched_over(b, cs), cs[i]),
    decreases cs.len(),
{
    let rest = cs.drop_last();
    assert(all_numbers(rest)) by {
        assert forall|k: int| 0 <= k < rest.len() implies !is_nan((#[trigger] rest[k]).x)
            && !is_nan(rest[k].y) by {
            assert(!is_nan(cs[k].x));
        }
    }
    lemma_stretched_numbers(b, rest);
    assert(!is_nan(cs[i].x) && !is_nan(cs[cs.len() - 1].x));
    if i < rest.len() {
        stretched_box_holds_all(b, rest, i);
        assert(rest[i] == cs[i]);
    }
}

/// A box that is stretched over points reaches no farther than it must: each of its
/// edges is where it was, or goes through one of the points.
pub proof fn stretched_box_is_tight(b: Bounds, cs: Seq<Coord>)
    ensures
        ({
            let r = stretched_over(b, cs);
            &&& r.min_x == b.min_x || exists|i: int|
                0 <= i < cs.len() && (#[trigger] cs[i]).x == r.min_x
            &&& r.min_y == b.min_y || exists|i: int|
                0 <= i < cs.len() && (#[trigger] cs[i]).y == r.min_y
            &&& r.max_x == b.max_x || exists|i: int|
                0 <= i < cs.len() && (#[trigger] cs[i]).x == r.max_x
            &&& r.max_y == b.max_y || exists|i: int|
                0 <= i < cs.len() && (#[trigger] cs[i]).y == r.max_y
        }),
    decreases cs.len(),
{
    if cs.len() > 0 {
        let rest = cs.drop_last();
        let p = stretched_over(b, rest);
        let r = stretched_over(b, cs);
        stretched_box_is_tight(b, rest);
        let last = cs[cs.len() - 1];
        if r.min_x == p.min_x && r.min_x != b.min_x {
            let i = choose|i: int| 0 <= i < rest.len() && (#[trigger] rest[i]).x == p.min_x;
            assert(cs[i].x == r.min_x);
        }
        if r.min_y == p.min_y && r.min_y != b.min_y {
            let i = choose|i: int| 0 <= i < rest.len() && (#[trigger] rest[i]).y == p.min_y;
            assert(cs[i].y == r.min_y);
        }
        if r.max_x == p.max_x && r.max_x != b.max_x {
            let i = choose|i: int| 0 <= i < rest.len() && (#[trigger] rest[i]).x == p.max_x;
            assert(cs[i].x == r.max_x);
        }
        if r.max_y == p.max_y && r.max_y != b.max_y {
            let i = choose|i: int| 0 <= i < rest.len() && (#[trigger] rest[i]).y == p.max_y;
            assert(cs[i].y == r.max_y);
        }
    }
}

proof fn lemma_lines_outline_holds(v: Seq<Vec<Coord>>, n: int, c: Coord)
    requires
        0 <= n <= v.len(),
    ensures
        lines_outline(v, n).contains(c) <==> exists|i: int|
            0 <= i < n && (#[trigger] v[i])@.contains(c),
    decreases n,
{
    if n > 0 {
        lemma_lines_outline_holds(v, n - 1, c);
        lemma_sum_contains(lines_outline(v, n - 1), v[n - 1]@, c);
        if lines_outline(v, n - 1).contains(c) {
            let i = choose|i: int| 0 <= i < n - 1 && (#[trigger] v[i])@.contains(c);
            assert(v[i]@.contains(c));
        }
        if exists|i: int| 0 <= i < n && (#[trigger] v[i])@.contains(c) {
            let i = choose|i: int| 0 <= i < n && (#[trigger] v[i])@.contains(c);
            assert(i == n - 1 || 0 <= i < n - 1);
        }
    } else {
        assert(!Seq::<Coord>::empty().contains(c));
    }
}

proof fn lemma_polygons_outline_holds(v: Seq<Polygon<Coord>>, n: int, c: Coord)
    requires
        0 <= n <= v.len(),
    ensures
        polygons_outline(v, n).contains(c) <==> exists|i: int|
            0 <= i < n && (#[trigger] v[i]).exterior@.contains(c),
    decreases n,
{
    if n > 0 {
        lemma_polygons_outline_holds(v, n - 1, c);
        lemma_sum_contains(polygons_outline(v, n - 1), v[n - 1].exterior@, c);
        if polygons_outline(v, n - 1).contains(c) {
            let i = choose|i: int| 0 <= i < n - 1 && (#[trigger] v[i]).exterior@.contains(c);
            assert(v[i].exterior@.contains(c));
        }
        if exists|i: int| 0 <= i < n && (#[trigger] v[i]).exterior@.contains(c) {
            let i = choose|i: int| 0 <= i < n && (#[trigger] v[i]).exterior@.contains(c);
            assert(i == n - 1 || 0 <= i < n - 1);
        }
    } else {
        assert(!Seq::<Coord>::empty().contains(c));
    }
}

proof fn lemma_members_outline_holds(v: Vec<Geometry<Coord>>, n: nat, c: Coord)
    requires
        n <= v@.len(),
    ensures
        members_outline(v, n).contains(c) <==> exists|i: int|
            0 <= i < n && outline(#[trigger] v@[i]).contains(c),
    decreases n,
{
    if n > 0 {
        lemma_members_outline_holds(v, (n - 1) as nat, c);
        lemma_sum_contains(members_outline(v, (n - 1) as nat), outline(v@[n - 1]), c);
        if members_outline(v, (n - 1) as nat).contains(c) {
            let i = choose|i: int| 0 <= i < n - 1 && outline(#[trigger] v@[i]).contains(c);
            assert(outline(v@[i]).contains(c));
        }
        if exists|i: int| 0 <= i < n && outline(#[trigger] v@[i]).contains(c) {
            let i = choose|i: int| 0 <= i < n && outline(#[trigger] v@[i]).contains(c);
            assert(i == n - 1 || 0 <= i < n - 1);
        }
    } else {
        assert(!Seq::<Coord>::empty().contains(c));
    }
}

proof fn lemma_sum_contains(a: Seq<Coord>, b: Seq<Coord>, c: Coord)
    ensures
        (a + b).contains(c) <==> a.contains(c) || b.contains(c),
{
    if a.contains(c) {
        let i = choose|i: int| 0 <= i < a.len() && a[i] == c;
        assert((a + b)[i] == c);
    }
    if b.contains(c) {
        let i = choose|i: int| 0 <= i < b.len() && b[i] == c;
        assert((a + b)[a.len() + i] == c);
    }
    if (a + b).contains(c) {
        let i = choose|i: int| 0 <= i < (a + b).len() && (a + b)[i] == c;
        if i < a.len() {
            assert(a[i] == c);
        } else {
            assert(b[i - a.len()] == c);
        }
    }
}

/// The extent of a geometry depends on all of its points, but for those of the inner
/// rings of polygons: of several parts every part counts, and nothing else does.
pub proof fn every_part_counts(g: Geometry<Coord>, c: Coord)
    ensures
        match g {
            Geometry::Point(p) => outline(g).contains(c) <==> c == p,
            Geometry::Line(a, b) => outline(g).contains(c) <==> c == a || c == b,
            Geometry::LineString(v) => outline(g).contains(c) <==> v@.contains(c),
            Geometry::Polygon(p) => outline(g).contains(c) <==> p.exterior@.contains(c),
            Geometry::MultiPoint(v) => outline(g).contains(c) <==> v@.contains(c),
            Geometry::MultiLineString(v) => outline(g).contains(c) <==> exists|i: int|
                0 <= i < v@.len() && (#[trigger] v@[i])@.contains(c),
            Geometry::MultiPolygon(v) => outline(g).contains(c) <==> exists|i: int|
                0 <= i < v@.len() && (#[trigger] v@[i]).exterior@.contains(c),
            Geometry::GeometryCollection(v) => outline(g).contains(c) <==> exists|i: int|
                0 <= i < v@.len() && outline(#[trigger] v@[i]).contains(c),
            Geometry::Other => outline(g).len() == 0,
        },
{
    match g {
        Geometry::Point(p) => {
            assert(seq![p][0] == p);
        },
        Geometry::Line(a, b) => {
            assert(seq![a, b][0] == a && seq![a, b][1] == b);
        },
        Geometry::MultiLineString(v) => {
            lemma_lines_outline_holds(v@, v@.len() as int, c);
        },
        Geometry::MultiPolygon(v) => {
            lemma_polygons_outline_holds(v@, v@.len() as int, c);
        },
        Geometry::GeometryCollection(v) => {
            lemma_members_outline_holds(v, v@.len(), c);
        },
        _ => {},
    }
}

/// The bounding box of a geometry holds every point that its extent depends on, and
/// each of its edges goes through one of them, where these are numbers below the
/// greatest that there is.
pub proof fn bounding_box_is_the_smallest(g: Geometry<Coord>, c: Coord)
    requires
        all_numbers(outline(g)),
        outline(g).contains(c),
        forall|i: int|
            0 <= i < outline(g).len() ==> {
                &&& below((#[trigger] outline(g)[i]).x, nothing_held().min_x)
                &&& below(outline(g)[i].y, nothing_held().min_y)
                &&& below(nothing_held().max_x, outline(g)[i].x)
                &&& below(nothing_held().max_y, outline(g)[i].y)
            },
    ensures
        ({
            let b = stretched_over(nothing_held(), outline(g));
            &&& holds(b, c)
            &&& exists|i: int| 0 <= i < outline(g).len() && (#[trigger] outline(g)[i]).x == b.min_x
            &&& exists|i: int| 0 <= i < outline(g).len() && (#[trigger] outline(g)[i]).y == b.min_y
            &&& exists|i: int| 0 <= i < outline(g).len() && (#[trigger] outline(g)[i]).x == b.max_x
            &&& exists|i: int| 0 <= i < outline(g).len() && (#[trigger] outline(g)[i]).y == b.max_y
        }),
{
    let cs = outline(g);
    let b = stretched_over(nothing_held(), cs);
    let k = choose|k: int| 0 <= k < cs.len() && cs[k] == c;
    stretched_box_holds_all(nothing_held(), cs, k);
    stretched_box_is_tight(nothing_held(), cs);
    assert(below(cs[k].x, nothing_held().min_x));
}

/// The bounds around nothing, as bit patterns: 180 and 90 degrees in the west and the
/// south, -180 and -90 degrees in the east and the north.
pub open spec fn no_bounds() -> Seq<u64> {
    seq![
        0x4066_8000_0000_0000u64,
        0x4056_8000_0000_0000,
        0xc066_8000_0000_0000,
        0xc056_8000_0000_0000,
    ]
}

/// The bounds around both; of `b` only what is a number counts.
pub open spec fn joined_with(a: Seq<u64>, b: Seq<u64>) -> Seq<u64> {
    seq![lower(a[0], b[0]), lower(a[1], b[1]), upper(a[2], b[2]), upper(a[3], b[3])]
}

/// The bounds around the first `n` of several.
pub open spec fn joined(all: Seq<[u64; 4]>, n: int) -> Seq<u64>
    decreases n,
{
    if n <= 0 {
        no_bounds()
    } else {
        joined_with(joined(all, n - 1), all[n - 1]@)
    }
}

/// The bounds around several layers: west, south, east and north, as bit patterns.
pub fn joined_bounds(all: &Vec<[u64; 4]>) -> (r: [u64; 4])
    ensures
        r@ == joined(all@, all@.len() as int),
{
    let mut r: [u64; 4] = [
        0x4066_8000_0000_0000,
        0x4056_8000_0000_0000,
        0xc066_8000_0000_0000,
        0xc056_8000_0000_0000,
    ];
    let mut i: usize = 0;
    assert(r@ =~= no_bounds());
    while i < all.len()
        invariant
            i <= all.len(),
            r@ == joined(all@, i as int),
        decreases all.len() - i,
    {
        let b: [u64; 4] = all[i];
        r = [
            min_of(r[0], b[0]),
            min_of(r[1], b[1]),
            max_of(r[2], b[2]),
            max_of(r[3], b[3]),
        ];
        i = i + 1;
        assert(r@ =~= joined(all@, i as int));
    }
    r
}

/// The extent in degrees reaches nowhere beyond 180 and 90 degrees, and an extent that
/// does not either is left as it is.
pub proof fn degrees_stay_on_the_globe(b: Bounds)
    requires
        !is_nan(b.min_x) && !is_nan(b.min_y) && !is_nan(b.max_x) && !is_nan(b.max_y),
    ensures
        at_most(no_bounds()[2], degrees_of(b)[0]),
        at_most(no_bounds()[3], degrees_of(b)[1]),
        at_most(degrees_of(b)[2], no_bounds()[0]),
        at_most(degrees_of(b)[3], no_bounds()[1]),
        at_most(no_bounds()[2], b.min_x) ==> degrees_of(b)[0] == b.min_x,
        at_most(no_bounds()[3], b.min_y) ==> degrees_of(b)[1] == b.min_y,
        at_most(b.max_x, no_bounds()[0]) ==> degrees_of(b)[2] == b.max_x,
        at_most(b.max_y, no_bounds()[1]) ==> degrees_of(b)[3] == b.max_y,
{
}

/// The bounds around several layers reach as far as those of every layer do, and each
/// of their edges is that of a layer, or the one around nothing.
pub proof fn joined_bounds_hold_every_layer(all: Seq<[u64; 4]>, n: int)
    requires
        0 <= n <= all.len(),
        forall|i: int, k: int|
            0 <= i < all.len() && 0 <= k < 4 ==> !is_nan(#[trigger] all[i]@[k]),
    ensures
        joined(all, n).len() == 4,
        forall|k: int| 0 <= k < 4 ==> !is_nan(#[trigger] joined(all, n)[k]),
        forall|i: int|
            0 <= i < n ==> {
                &&& at_most(joined(all, n)[0], (#[trigger] all[i])@[0])
                &&& at_most(joined(all, n)[1], all[i]@[1])
                &&& at_most(all[i]@[2], joined(all, n)[2])
                &&& at_most(all[i]@[3], joined(all, n)[3])
            },
        forall|k: int|
            0 <= k < 4 ==> (#[trigger] joined(all, n)[k] == no_bounds()[k] || exists|i: int|
                0 <= i < n && (#[trigger] all[i])@[k] == joined(all, n)[k]),
    decreases n,
{
    if n > 0 {
        joined_bounds_hold_every_layer(all, n - 1);
        let p = joined(all, n - 1);
        let r = joined(all, n);
        let last = all[n - 1]@;
        assert(!is_nan(last[0]) && !is_nan(last[1]) && !is_nan(last[2]) && !is_nan(last[3]));
        assert(!is_nan(p[0]) && !is_nan(p[1]) && !is_nan(p[2]) && !is_nan(p[3]));
        assert forall|i: int| 0 <= i < n implies {
            &&& at_most(r[0], (#[trigger] all[i])@[0])
            &&& at_most(r[1], all[i]@[1])
            &&& at_most(all[i]@[2], r[2])
            &&& at_most(all[i]@[3], r[3])
        } by {
            if i < n - 1 {
                assert(at_most(p[0], all[i]@[0]));
            }
        }
        assert forall|k: int| 0 <= k < 4 implies (#[trigger] r[k] == no_bounds()[k] || exists|
            i: int,
        |
            0 <= i < n && (#[trigger] all[i])@[k] == r[k]) by {
            if r[k] == last[k] {
                assert(all[n - 1]@[k] == r[k]);
            } else {
                assert(r[k] == p[k]);
                if p[k] != no_bounds()[k] {
                    let i = choose|i: int| 0 <= i < n - 1 && (#[trigger] all[i])@[k] == p[k];
                    assert(all[i]@[k] == r[k]);
                }
            }
        }
    }
}

} // verus!
