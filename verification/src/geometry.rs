//! Geometries over an arbitrary kind of coordinate.

use vstd::prelude::*;

verus! {

/// A position as the bit patterns of its two floating-point coordinates.
#[derive(Debug, Clone, Copy, PartialEq, Eq, Structural)]
pub struct Coord {
    pub x: u64,
    pub y: u64,
}

/// An outer ring and the rings of its holes.
#[derive(Debug)]
pub struct Polygon<C> {
    pub exterior: Vec<C>,
    pub interiors: Vec<Vec<C>>,
}

/// The geometry of a feature.
#[derive(Debug)]
pub enum Geometry<C> {
    Point(C),
    Line(C, C),
    LineString(Vec<C>),
    Polygon(Polygon<C>),
    MultiPoint(Vec<C>),
    MultiLineString(Vec<Vec<C>>),
    MultiPolygon(Vec<Polygon<C>>),
    GeometryCollection(Vec<Geometry<C>>),
    /// Any other shape, such as a rectangle or a triangle.
    Other,
}

/// A polygon as sequences.
#[verifier::ext_equal]
pub struct PolygonShape<C> {
    pub exterior: Seq<C>,
    pub interiors: Seq<Seq<C>>,
}

/// A geometry as sequences.
#[verifier::ext_equal]
pub enum Shape<C> {
    Point(C),
    LineString(Seq<C>),
    Polygon(PolygonShape<C>),
    MultiPoint(Seq<C>),
    MultiLineString(Seq<Seq<C>>),
    MultiPolygon(Seq<PolygonShape<C>>),
}

/// Lines as sequences.
pub open spec fn line_shapes<C>(v: Seq<Vec<C>>) -> Seq<Seq<C>> {
    Seq::new(v.len(), |i: int| v[i]@)
}

impl<C> Polygon<C> {
    pub open spec fn shape(&self) -> PolygonShape<C> {
        PolygonShape { exterior: self.exterior@, interiors: line_shapes(self.interiors@) }
    }
}

/// Polygons as sequences.
pub open spec fn polygon_shapes<C>(v: Seq<Polygon<C>>) -> Seq<PolygonShape<C>> {
    Seq::new(v.len(), |i: int| v[i].shape())
}

/// The shape of a geometry of one of the six storable kinds.
pub open spec fn shape_of<C>(g: Geometry<C>) -> Option<Shape<C>> {
    match g {
        Geometry::Point(c) => Some(Shape::Point(c)),
        Geometry::LineString(v) => Some(Shape::LineString(v@)),
        Geometry::Polygon(p) => Some(Shape::Polygon(p.shape())),
        Geometry::MultiPoint(v) => Some(Shape::MultiPoint(v@)),
        Geometry::MultiLineString(v) => Some(Shape::MultiLineString(line_shapes(v@))),
        Geometry::MultiPolygon(v) => Some(Shape::MultiPolygon(polygon_shapes(v@))),
        _ => None,
    }
}

/// The shape under which a geometry is stored. A line becomes a line string of
/// two points, a collection becomes its first member, and what is left becomes
/// the point `origin`.
pub open spec fn storable_shape<C>(g: Geometry<C>, origin: C) -> Shape<C>
    decreases g,
{
    match g {
        Geometry::Line(a, b) => Shape::LineString(seq![a, b]),
        Geometry::GeometryCollection(v) => if v@.len() > 0 {
            storable_shape(v@[0], origin)
        } else {
            Shape::Point(origin)
        },
        Geometry::Other => Shape::Point(origin),
        _ => shape_of(g)->0,
    }
}

/// The name of a geometry's kind.
pub open spec fn kind_name<C>(g: Geometry<C>) -> Seq<char> {
    match g {
        Geometry::Point(_) => "Point"@,
        Geometry::MultiPoint(_) => "MultiPoint"@,
        Geometry::Line(_, _) => "LineString"@,
        Geometry::LineString(_) => "LineString"@,
        Geometry::MultiLineString(_) => "MultiLineString"@,
        Geometry::Polygon(_) => "Polygon"@,
        Geometry::MultiPolygon(_) => "MultiPolygon"@,
        Geometry::GeometryCollection(_) => "GeometryCollection"@,
        Geometry::Other => "Unknown"@,
    }
}

impl<C> Geometry<C> {
    /// The name of the geometry's kind.
    pub fn kind(&self) -> (r: &'static str)
        ensures
            r@ == kind_name(*self),
    {
        match self {
            Geometry::Point(_) => "Point",
            Geometry::MultiPoint(_) => "MultiPoint",
            Geometry::Line(_, _) => "LineString",
            Geometry::LineString(_) => "LineString",
            Geometry::MultiLineString(_) => "MultiLineString",
            Geometry::Polygon(_) => "Polygon",
            Geometry::MultiPolygon(_) => "MultiPolygon",
            Geometry::GeometryCollection(_) => "GeometryCollection",
            Geometry::Other => "Unknown",
        }
    }
}

/// A geometry with all its parts as sequences.
#[verifier::ext_equal]
pub enum GeometryView<C> {
    Point(C),
    Line(C, C),
    LineString(Seq<C>),
    Polygon(PolygonShape<C>),
    MultiPoint(Seq<C>),
    MultiLineString(Seq<Seq<C>>),
    MultiPolygon(Seq<PolygonShape<C>>),
    GeometryCollection(Seq<GeometryView<C>>),
    Other,
}

/// A geometry with all its parts as sequences.
pub open spec fn geometry_view<C>(g: Geometry<C>) -> GeometryView<C>
    decreases g, 0nat,
{
    match g {
        Geometry::Point(c) => GeometryView::Point(c),
        Geometry::Line(a, b) => GeometryView::Line(a, b),
        Geometry::LineString(v) => GeometryView::LineString(v@),
        Geometry::Polygon(p) => GeometryView::Polygon(p.shape()),
        Geometry::MultiPoint(v) => GeometryView::MultiPoint(v@),
        Geometry::MultiLineString(v) => GeometryView::MultiLineString(line_shapes(v@)),
        Geometry::MultiPolygon(v) => GeometryView::MultiPolygon(polygon_shapes(v@)),
        Geometry::GeometryCollection(v) => GeometryView::GeometryCollection(
            member_views(v, v@.len()),
        ),
        Geometry::Other => GeometryView::Other,
    }
}

/// The first `n` members of a collection.
pub open spec fn member_views<C>(v: Vec<Geometry<C>>, n: nat) -> Seq<GeometryView<C>>
    decreases v, n,
{
    if n == 0 || n > v@.len() {
        Seq::empty()
    } else {
        member_views(v, (n - 1) as nat).push(geometry_view(v@[n - 1]))
    }
}

pub(crate) proof fn lemma_same_members<C>(v: Vec<Geometry<C>>, w: Vec<Geometry<C>>, n: nat)
    requires
        n <= v@.len(),
        n <= w@.len(),
        forall|k: int| 0 <= k < n ==> v@[k] == w@[k],
    ensures
        member_views(v, n) == member_views(w, n),
    decreases n,
{
    if n > 0 {
        lemma_same_members(v, w, (n - 1) as nat);
    }
}

/// A geometry is stored as what it is. A single segment is stored as a line of two points,
/// a collection as its first member, and what has no shape as a point.
pub proof fn geometries_are_stored_as_what_they_are<C>(
    c: C,
    d: C,
    v: Vec<C>,
    p: Polygon<C>,
    ls: Vec<Vec<C>>,
    ps: Vec<Polygon<C>>,
    gs: Vec<Geometry<C>>,
    origin: C,
)
    ensures
        storable_shape(Geometry::Point(c), origin) == Shape::Point(c),
        storable_shape(Geometry::Line(c, d), origin) == Shape::LineString(seq![c, d]),
        storable_shape(Geometry::LineString(v), origin) == Shape::LineString(v@),
        storable_shape(Geometry::MultiPoint(v), origin) == Shape::MultiPoint(v@),
        storable_shape(Geometry::Polygon(p), origin) == Shape::Polygon(
            PolygonShape { exterior: p.exterior@, interiors: line_shapes(p.interiors@) },
        ),
        storable_shape(Geometry::MultiLineString(ls), origin) == Shape::MultiLineString(
            line_shapes(ls@),
        ),
        storable_shape(Geometry::MultiPolygon(ps), origin) == Shape::MultiPolygon(
            polygon_shapes(ps@),
        ),
        gs@.len() > 0 ==> storable_shape(Geometry::GeometryCollection(gs), origin)
            == storable_shape(gs@[0], origin),
        gs@.len() == 0 ==> storable_shape(Geometry::GeometryCollection(gs), origin)
            == Shape::Point(origin),
        storable_shape(Geometry::Other, origin) == Shape::Point(origin),
{
}

/// Kinds are named as GeoJSON names them; a single segment is a line string.
pub proof fn kinds_are_named_as_in_geojson<C>(g: Geometry<C>)
    ensures
        kind_name(g) == (if g is Point {
            "Point"@
        } else if g is MultiPoint {
            "MultiPoint"@
        } else if g is Line || g is LineString {
            "LineString"@
        } else if g is MultiLineString {
            "MultiLineString"@
        } else if g is Polygon {
            "Polygon"@
        } else if g is MultiPolygon {
            "MultiPolygon"@
        } else if g is GeometryCollection {
            "GeometryCollection"@
        } else {
            "Unknown"@
        }),
{
}

} // verus!
