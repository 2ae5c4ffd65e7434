//! Sequences of values as mathematical values, one for each.

use vstd::prelude::*;

use crate::geometry::{
    geometry_view, line_shapes, member_views, polygon_shapes, Coord, Geometry, GeometryView,
    Polygon,
};
use crate::ingest::{feature_views, prop_pairs};
use crate::manifest::{field_views, labels_of, FieldInfo};
use crate::pipeline::layer_views;
use crate::props::{type_label, PropValue};
use crate::text::text_views;
use crate::tile_encode::{mvt_value, prop_views};
use crate::writer::{tile_views, TileEntry};

verus! {

/// Texts are told apart by their number and their characters.
pub proof fn texts_lose_nothing(v: Seq<String>, i: int)
    ensures
        text_views(v).len() == v.len(),
        0 <= i < v.len() ==> text_views(v)[i] == v[i]@,
{
}

/// Members of an object keep their names and their values.
pub proof fn members_lose_nothing(v: Seq<(String, String)>, i: int)
    ensures
        crate::json_text::member_views(v).len() == v.len(),
        0 <= i < v.len() ==> crate::json_text::member_views(v)[i] == (v[i].0@, v[i].1@),
{
}

/// Properties keep their names and their values, be it in a feature or in a tile.
pub proof fn properties_lose_nothing(v: Seq<(String, PropValue)>, i: int)
    ensures
        prop_pairs(v).len() == v.len(),
        prop_views(v).len() == v.len(),
        labels_of(v).len() == v.len(),
        0 <= i < v.len() ==> prop_pairs(v)[i] == (v[i].0@, v[i].1@) && prop_views(v)[i] == (
            v[i].0@,
            mvt_value(v[i].1@),
        ) && labels_of(v)[i] == (v[i].0@, type_label(v[i].1@)),
{
}

/// Attributes keep their names and their types.
pub proof fn attributes_lose_nothing(v: Seq<FieldInfo>, i: int)
    ensures
        field_views(v).len() == v.len(),
        0 <= i < v.len() ==> field_views(v)[i] == (v[i].name@, v[i].field_type@),
{
}

/// Features keep their geometries and all their properties.
pub proof fn features_lose_nothing(
    v: Seq<(Geometry<Coord>, Vec<(String, PropValue)>)>,
    i: int,
    k: int,
)
    ensures
        feature_views(v).len() == v.len(),
        0 <= i < v.len() ==> feature_views(v)[i].0 == v[i].0 && feature_views(v)[i].1.len()
            == v[i].1@.len(),
        0 <= i < v.len() && 0 <= k < v[i].1@.len() ==> feature_views(v)[i].1[k] == (
            v[i].1@[k].0@,
            v[i].1@[k].1@,
        ),
{
}

/// Tiles keep their identifiers and their bytes, and layers keep their tiles.
pub proof fn tiles_lose_nothing(v: Seq<Vec<TileEntry>>, l: int, k: int)
    ensures
        layer_views(v).len() == v.len(),
        0 <= l < v.len() ==> layer_views(v)[l].len() == v[l]@.len(),
        0 <= l < v.len() && 0 <= k < v[l]@.len() ==> layer_views(v)[l][k] == (
            v[l]@[k].tile_id,
            v[l]@[k].data@,
        ),
{
}

/// Lines and polygons keep all their points, and polygons all their rings.
pub proof fn rings_lose_nothing<C>(lines: Seq<Vec<C>>, polygons: Seq<Polygon<C>>, i: int, k: int)
    ensures
        line_shapes(lines).len() == lines.len(),
        0 <= i < lines.len() ==> line_shapes(lines)[i] == lines[i]@,
        polygon_shapes(polygons).len() == polygons.len(),
        0 <= i < polygons.len() ==> polygon_shapes(polygons)[i].exterior == polygons[i].exterior@
            && polygon_shapes(polygons)[i].interiors.len() == polygons[i].interiors@.len(),
        0 <= i < polygons.len() && 0 <= k < polygons[i].interiors@.len() ==> polygon_shapes(
            polygons,
        )[i].interiors[k] == polygons[i].interiors@[k]@,
{
}

proof fn lemma_members<C>(v: Vec<Geometry<C>>, n: nat)
    requires
        n <= v@.len(),
    ensures
        member_views(v, n).len() == n,
        forall|i: int|
            0 <= i < n ==> #[trigger] member_views(v, n)[i] == geometry_view(v@[i]),
    decreases n,
{
    if n > 0 {
        lemma_members(v, (n - 1) as nat);
    }
}

/// A collection keeps all its members.
pub proof fn collections_lose_nothing<C>(v: Vec<Geometry<C>>, i: int)
    ensures
        geometry_view(Geometry::GeometryCollection(v)) is GeometryCollection,
        geometry_view(Geometry::GeometryCollection(v))->GeometryCollection_0.len() == v@.len(),
        0 <= i < v@.len() ==> geometry_view(
            Geometry::GeometryCollection(v),
        )->GeometryCollection_0[i] == geometry_view(v@[i]),
{
    lemma_members(v, v@.len());
    let g = Geometry::GeometryCollection(v);
    assert(geometry_view(g) == GeometryView::<C>::GeometryCollection(member_views(v, v@.len())));
}

} // verus!
