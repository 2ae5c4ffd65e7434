//! From parsed features to a layer.

use vstd::prelude::*;
use vstd::utf8::encode_utf8;

use crate::clip::{holds, Bounds};
use crate::error::{BakeError, BakeErrorView};
use crate::extent::{
    all_numbers, degrees_of, nothing_held, outline, stretched_box_holds_all, stretched_over,
    stretching_goes_on, Extent,
};
use crate::feature_store::{origin, record_bytes, FeatureMeta, StoreWriter};
use crate::feature_text::{
    alone, are_features, are_items, collected, collection_text, document_parsed, feature_parsed,
    is_geometry, is_item, is_read, is_shallow, listed_features, lone_feature, lone_parsed,
    lone_parts_are_collections, read_document, read_feature, singled, DocumentView,
};
use crate::fields::{is_kept, keeps_field};
use crate::geometry::{kind_name, storable_shape, Coord, Geometry};
use crate::json_text::{member_views, object_text, props_read, read_props, write_object};
use crate::le::low32;
use crate::manifest::{
    field_names, field_views, labels_of, noted_all, noting_goes_on, schema_sums_up, was_seen,
    LayerInfo, SchemaBuilder, SchemaView,
};
use crate::props::{PropValue, PropView};
use crate::text::{
    chars_of, is_space, push_text, space, split, text_of, text_views, trim_front, trim_range,
    trimmed,
};
use crate::tile_encode::{interned, interning_is_faithful, place};

verus! {

/// One parsed feature, or the text of the error that kept it from being parsed.
pub enum RawItem {
    Feature {
        geometry: Option<Geometry<Coord>>,
        /// The names of the properties, with their values as JSON.
        members: Vec<(String, String)>,
    },
    Unreadable(String),
}

/// The properties with their texts as sequences.
pub open spec fn prop_pairs(props: Seq<(String, PropValue)>) -> Seq<(Seq<char>, PropView)> {
    Seq::new(props.len(), |i: int| (props[i].0@, props[i].1@))
}

/// The members whose fields are kept.
pub open spec fn kept_members(
    members: Seq<(Seq<char>, Seq<char>)>,
    keep: Option<Vec<String>>,
) -> Seq<(Seq<char>, Seq<char>)>
    decreases members.len(),
{
    if members.len() == 0 {
        members
    } else {
        let head = kept_members(members.drop_last(), keep);
        if is_kept(keep, members.last().0) {
            head.push(members.last())
        } else {
            head
        }
    }
}

/// The types of the properties.
pub open spec fn pair_labels(pairs: Seq<(Seq<char>, PropView)>) -> Seq<(Seq<char>, Seq<char>)> {
    Seq::new(pairs.len(), |i: int| (pairs[i].0, crate::props::type_label(pairs[i].1)))
}

/// Keep the members whose fields are kept, in their order.
pub fn retain_members(members: Vec<(String, String)>, keep: &Option<Vec<String>>) -> (r: Vec<
    (String, String),
>)
    ensures
        member_views(r@) == kept_members(member_views(members@), *keep),
{
    let ghost all = member_views(members@);
    let mut members = members;
    let mut r: Vec<(String, String)> = Vec::new();
    let mut i: usize = 0;
    proof {
        assert(all.take(0) =~= Seq::<(Seq<char>, Seq<char>)>::empty());
        assert(member_views(r@) =~= kept_members(all.take(0), *keep));
    }
    while i < members.len()
        invariant
            i <= members.len(),
            members.len() == all.len(),
            forall|k: int|
                i <= k < members.len() ==> (members@[k].0@, #[trigger] members@[k].1@) == all[k],
            member_views(r@) == kept_members(all.take(i as int), *keep),
        decreases members.len() - i,
    {
        let ghost prev = members@;
        let ghost before = member_views(r@);
        let mut m: (String, String) = (String::new(), String::new());
        std::mem::swap(&mut members[i], &mut m);
        proof {
            assert((prev[i as int].0@, prev[i as int].1@) == all[i as int]);
            assert(m == prev[i as int]);
            assert forall|k: int| i < k < members.len() implies (
                members@[k].0@,
                #[trigger] members@[k].1@,
            ) == all[k] by {
                assert(members@[k] == prev[k]);
            }
            assert(all.take(i + 1).drop_last() =~= all.take(i as int));
            assert(all.take(i + 1).last() == all[i as int]);
        }
        if keeps_field(keep, m.0.as_str()) {
            r.push(m);
            assert(member_views(r@) =~= before.push(all[i as int]));
        }
        i = i + 1;
    }
    assert(all.take(i as int) =~= all);
    r
}

/// A layer that was read in.
pub struct IngestedLayer {
    pub name: String,
    /// Geometry and properties of each feature.
    pub features: Vec<(Geometry<Coord>, Vec<(String, PropValue)>)>,
    /// West, south, east and north, as bit patterns.
    pub bounds: [u64; 4],
    pub layer_info: LayerInfo,
}

/// The features with their properties as pairs.
pub open spec fn feature_views(
    fs: Seq<(Geometry<Coord>, Vec<(String, PropValue)>)>,
) -> Seq<(Geometry<Coord>, Seq<(Seq<char>, PropView)>)> {
    Seq::new(fs.len(), |i: int| (fs[i].0, prop_pairs(fs[i].1@)))
}

/// A layer while it is read in.
#[verifier::ext_equal]
pub struct LayerState {
    pub features: Seq<(Geometry<Coord>, Seq<(Seq<char>, PropView)>)>,
    pub extent: Bounds,
    pub schema: SchemaView,
}

/// A layer of which nothing has been read.
pub open spec fn empty_layer() -> LayerState {
    LayerState {
        features: Seq::empty(),
        extent: nothing_held(),
        schema: SchemaView { fields: Seq::empty(), kinds: Seq::empty(), stored: 0 },
    }
}

/// The schema after a feature with the given kind of geometry and properties.
pub open spec fn schema_with(
    s: SchemaView,
    kind: Seq<char>,
    pairs: Seq<(Seq<char>, PropView)>,
    stored: bool,
) -> SchemaView {
    SchemaView {
        fields: noted_all(s.fields, pair_labels(pairs)),
        kinds: interned(s.kinds, kind),
        stored: if stored {
            s.stored + 1
        } else {
            s.stored
        },
    }
}

/// The layer after the items have been read in, one after the other. A feature
/// without geometry is skipped, and an unreadable item ends the reading.
pub open spec fn ingested(items: Seq<RawItem>, keep: Option<Vec<String>>) -> Result<
    LayerState,
    BakeErrorView,
>
    decreases items.len(),
{
    if items.len() == 0 {
        Ok(empty_layer())
    } else {
        match ingested(items.drop_last(), keep) {
            Err(e) => Err(e),
            Ok(st) => match items.last() {
                RawItem::Unreadable(t) => Err(BakeErrorView::GeoJson(t@)),
                RawItem::Feature { geometry, members } => match geometry {
                    None => Ok(st),
                    Some(g) => {
                        let pairs = props_read(kept_members(member_views(members@), keep));
                        Ok(
                            LayerState {
                                features: st.features.push((g, pairs)),
                                extent: stretched_over(st.extent, outline(g)),
                                schema: schema_with(st.schema, kind_name(g), pairs, true),
                            },
                        )
                    },
                },
            },
        }
    }
}

proof fn lemma_ingested_stuck(items: Seq<RawItem>, keep: Option<Vec<String>>, n: int)
    requires
        0 <= n <= items.len(),
        ingested(items.take(n), keep) is Err,
    ensures
        ingested(items, keep) == ingested(items.take(n), keep),
    decreases items.len(),
{
    if n < items.len() {
        assert(items.drop_last().take(n) =~= items.take(n));
        lemma_ingested_stuck(items.drop_last(), keep, n);
    } else {
        assert(items.take(n) =~= items);
    }
}

/// The features, as far as their geometries go.
pub open spec fn geometries(
    features: Seq<(Geometry<Coord>, Seq<(Seq<char>, PropView)>)>,
) -> Seq<Geometry<Coord>> {
    Seq::new(features.len(), |i: int| features[i].0)
}

/// Which fields are kept makes no difference to the geometries of a layer, to its
/// extent, or to whether it can be read in.
pub proof fn kept_fields_leave_the_geometry(
    items: Seq<RawItem>,
    keep: Option<Vec<String>>,
    other: Option<Vec<String>>,
)
    ensures
        match (ingested(items, keep), ingested(items, other)) {
            (Ok(a), Ok(b)) => geometries(a.features) == geometries(b.features) && a.extent
                == b.extent && a.schema.kinds == b.schema.kinds,
            (Err(a), Err(b)) => a == b,
            _ => false,
        },
    decreases items.len(),
{
    if items.len() > 0 {
        kept_fields_leave_the_geometry(items.drop_last(), keep, other);
        match (ingested(items, keep), ingested(items, other)) {
            (Ok(a), Ok(b)) => {
                assert(geometries(a.features) =~= geometries(b.features)) by {
                    let x = ingested(items.drop_last(), keep)->Ok_0.features;
                    let y = ingested(items.drop_last(), other)->Ok_0.features;
                    assert(geometries(x).len() == geometries(y).len());
                    assert forall|i: int| 0 <= i < x.len() implies (#[trigger] x[i]).0
                        == y[i].0 by {
                        assert(geometries(x)[i] == geometries(y)[i]);
                    }
                }
            },
            _ => {},
        }
    }
}

/// Where every field is kept, so is every property.
pub proof fn all_members_are_kept(members: Seq<(Seq<char>, Seq<char>)>)
    ensures
        kept_members(members, None) == members,
    decreases members.len(),
{
    if members.len() > 0 {
        all_members_are_kept(members.drop_last());
        assert(members.drop_last().push(members.last()) =~= members);
    }
}

/// The members that are kept are those whose fields are listed, in their order, with
/// their values as they are.
pub proof fn just_the_listed_members_are_kept(
    members: Seq<(Seq<char>, Seq<char>)>,
    keep: Option<Vec<String>>,
)
    ensures
        kept_members(members, keep) == members.filter(
            |m: (Seq<char>, Seq<char>)| keep is None || text_views(keep->0@).contains(m.0),
        ),
    decreases members.len(),
{
    reveal(Seq::filter);
    if members.len() > 0 {
        just_the_listed_members_are_kept(members.drop_last(), keep);
    }
}

/// An item is a feature with a geometry.
pub open spec fn has_geometry(item: RawItem) -> bool {
    item matches RawItem::Feature { geometry: Some(_), .. }
}

/// The geometry of a feature that has one.
pub open spec fn geometry_of(item: RawItem) -> Geometry<Coord> {
    item->Feature_geometry->0
}

/// The members of a feature, as sequences.
pub open spec fn members_of(item: RawItem) -> Seq<(Seq<char>, Seq<char>)> {
    member_views(item->Feature_members@)
}

/// A layer is read in without an error exactly if every item can be read. Its features
/// are then the items with a geometry, in their order, each with its geometry and the
/// values of its kept members.
pub proof fn every_feature_with_a_geometry_is_read_in(
    items: Seq<RawItem>,
    keep: Option<Vec<String>>,
)
    ensures
        ingested(items, keep) is Ok <==> forall|i: int|
            0 <= i < items.len() ==> !((#[trigger] items[i]) is Unreadable),
        ingested(items, keep) matches Ok(st) ==> {
            let shown = items.filter(|item: RawItem| has_geometry(item));
            &&& st.features.len() == shown.len()
            &&& forall|k: int|
                0 <= k < shown.len() ==> (#[trigger] st.features[k]).0 == geometry_of(shown[k])
            &&& forall|k: int|
                0 <= k < shown.len() ==> (#[trigger] st.features[k]).1 == props_read(
                    kept_members(members_of(shown[k]), keep),
                )
        },
    decreases items.len(),
{
    reveal(Seq::filter);
    if items.len() > 0 {
        let rest = items.drop_last();
        every_feature_with_a_geometry_is_read_in(rest, keep);
        assert forall|i: int| 0 <= i < rest.len() implies #[trigger] rest[i] == items[i] by {}
        assert(items.last() == items[items.len() - 1]);
        if ingested(rest, keep) is Err {
            let i = choose|i: int| 0 <= i < rest.len() && (#[trigger] rest[i]) is Unreadable;
            assert(items[i] is Unreadable);
        } else {
            assert forall|i: int| 0 <= i < rest.len() implies !((
            #[trigger] items[i]) is Unreadable) by {
                assert(rest[i] == items[i]);
            }
        }
    }
}

/// The first item that cannot be read is the one that is reported.
pub proof fn the_first_unreadable_item_is_reported(items: Seq<RawItem>, keep: Option<Vec<String>>)
    requires
        ingested(items, keep) is Err,
    ensures
        exists|i: int|
            0 <= i < items.len() && #[trigger] items[i] is Unreadable && ingested(items, keep)
                == Err::<LayerState, BakeErrorView>(
                BakeErrorView::GeoJson(items[i]->Unreadable_0@),
            ) && forall|k: int| 0 <= k < i ==> !((#[trigger] items[k]) is Unreadable),
    decreases items.len(),
{
    let rest = items.drop_last();
    assert forall|i: int| 0 <= i < rest.len() implies #[trigger] rest[i] == items[i] by {}
    if ingested(rest, keep) is Err {
        the_first_unreadable_item_is_reported(rest, keep);
        let i = choose|i: int|
            0 <= i < rest.len() && #[trigger] rest[i] is Unreadable && ingested(rest, keep)
                == Err::<LayerState, BakeErrorView>(
                BakeErrorView::GeoJson(rest[i]->Unreadable_0@),
            ) && forall|k: int| 0 <= k < i ==> !((#[trigger] rest[k]) is Unreadable);
        assert(items[i] is Unreadable);
        assert forall|k: int| 0 <= k < i implies !((#[trigger] items[k]) is Unreadable) by {
            assert(rest[k] == items[k]);
        }
    } else {
        every_feature_with_a_geometry_is_read_in(rest, keep);
        let i = items.len() - 1;
        assert(items[i] is Unreadable);
        assert forall|k: int| 0 <= k < i implies !((#[trigger] items[k]) is Unreadable) by {
            assert(rest[k] == items[k]);
        }
    }
}

/// The points that the extent of a layer depends on.
pub open spec fn layer_outline(items: Seq<RawItem>) -> Seq<Coord>
    decreases items.len(),
{
    if items.len() == 0 {
        Seq::empty()
    } else if has_geometry(items.last()) {
        layer_outline(items.drop_last()) + outline(geometry_of(items.last()))
    } else {
        layer_outline(items.drop_last())
    }
}

proof fn lemma_layer_outline_holds(items: Seq<RawItem>, i: int, c: Coord)
    requires
        0 <= i < items.len(),
        has_geometry(items[i]),
        outline(geometry_of(items[i])).contains(c),
    ensures
        layer_outline(items).contains(c),
    decreases items.len(),
{
    let rest = items.drop_last();
    let head = layer_outline(rest);
    if i < rest.len() {
        assert(rest[i] == items[i]);
        lemma_layer_outline_holds(rest, i, c);
        let k = choose|k: int| 0 <= k < head.len() && head[k] == c;
        assert(layer_outline(items)[k] == c);
    } else {
        let tail = outline(geometry_of(items[i]));
        let k = choose|k: int| 0 <= k < tail.len() && tail[k] == c;
        assert((head + tail)[head.len() + k] == c);
    }
}

proof fn lemma_layer_extent(items: Seq<RawItem>, keep: Option<Vec<String>>)
    requires
        ingested(items, keep) is Ok,
    ensures
        ingested(items, keep)->Ok_0.extent == stretched_over(nothing_held(), layer_outline(items)),
    decreases items.len(),
{
    if items.len() > 0 {
        lemma_layer_extent(items.drop_last(), keep);
        if has_geometry(items.last()) {
            stretching_goes_on(
                nothing_held(),
                layer_outline(items.drop_last()),
                outline(geometry_of(items.last())),
            );
        }
    }
}

/// The extent of a layer holds every point of every one of its features, but for those
/// of the inner rings of polygons, where all coordinates are numbers.
pub proof fn the_extent_holds_every_feature(
    items: Seq<RawItem>,
    keep: Option<Vec<String>>,
    i: int,
    c: Coord,
)
    requires
        ingested(items, keep) is Ok,
        all_numbers(layer_outline(items)),
        0 <= i < items.len(),
        has_geometry(items[i]),
        outline(geometry_of(items[i])).contains(c),
    ensures
        holds(ingested(items, keep)->Ok_0.extent, c),
{
    lemma_layer_extent(items, keep);
    lemma_layer_outline_holds(items, i, c);
    let all = layer_outline(items);
    let k = choose|k: int| 0 <= k < all.len() && all[k] == c;
    stretched_box_holds_all(nothing_held(), all, k);
}

proof fn lemma_seen_sum(
    a: Seq<(Seq<char>, Seq<char>)>,
    b: Seq<(Seq<char>, Seq<char>)>,
    name: Seq<char>,
)
    ensures
        was_seen(a + b, name) <==> was_seen(a, name) || was_seen(b, name),
{
    if was_seen(a, name) {
        let i = choose|i: int| 0 <= i < a.len() && (#[trigger] a[i]).0 == name;
        assert((a + b)[i].0 == name);
    }
    if was_seen(b, name) {
        let i = choose|i: int| 0 <= i < b.len() && (#[trigger] b[i]).0 == name;
        assert((a + b)[a.len() + i].0 == name);
    }
    if was_seen(a + b, name) {
        let i = choose|i: int| 0 <= i < (a + b).len() && (#[trigger] (a + b)[i]).0 == name;
        if i < a.len() {
            assert(a[i].0 == name);
        } else {
            assert(b[i - a.len()].0 == name);
        }
    }
}

/// The names and types of the values in the features with a geometry.
pub open spec fn layer_labels(items: Seq<RawItem>, keep: Option<Vec<String>>) -> Seq<
    (Seq<char>, Seq<char>),
>
    decreases items.len(),
{
    if items.len() == 0 {
        Seq::empty()
    } else if has_geometry(items.last()) {
        layer_labels(items.drop_last(), keep) + pair_labels(
            props_read(kept_members(members_of(items.last()), keep)),
        )
    } else {
        layer_labels(items.drop_last(), keep)
    }
}

proof fn lemma_layer_fields(items: Seq<RawItem>, keep: Option<Vec<String>>)
    requires
        ingested(items, keep) is Ok,
    ensures
        ingested(items, keep)->Ok_0.schema.fields == noted_all(
            Seq::empty(),
            layer_labels(items, keep),
        ),
        forall|k: int|
            0 <= k < items.len() && has_geometry(#[trigger] items[k]) ==> ingested(
                items,
                keep,
            )->Ok_0.schema.kinds.contains(kind_name(geometry_of(items[k]))),
        ingested(items, keep)->Ok_0.schema.kinds.no_duplicates(),
    decreases items.len(),
{
    if items.len() > 0 {
        let rest = items.drop_last();
        lemma_layer_fields(rest, keep);
        let kinds = ingested(rest, keep)->Ok_0.schema.kinds;
        let now = ingested(items, keep)->Ok_0.schema.kinds;
        if has_geometry(items.last()) {
            let kind = kind_name(geometry_of(items.last()));
            noting_goes_on(
                Seq::empty(),
                layer_labels(rest, keep),
                pair_labels(props_read(kept_members(members_of(items.last()), keep))),
            );
            interning_is_faithful(kinds, kind);
            assert(now == interned(kinds, kind));
            assert(now.contains(kind)) by {
                let p = place(now, kind)->0;
                assert(now[p] == kind);
            }
        }
        assert forall|k: int| 0 <= k < items.len() && has_geometry(#[trigger] items[k]) implies
            now.contains(kind_name(geometry_of(items[k]))) by {
            if k < rest.len() {
                assert(rest[k] == items[k]);
                let kind = kind_name(geometry_of(items[k]));
                let i = choose|i: int| 0 <= i < kinds.len() && kinds[i] == kind;
                assert(now[i] == kind);
            }
        }
    }
}

proof fn lemma_layer_labels_hold(items: Seq<RawItem>, keep: Option<Vec<String>>, name: Seq<char>)
    ensures
        was_seen(layer_labels(items, keep), name) <==> exists|i: int, j: int|
            0 <= i < items.len() && has_geometry(#[trigger] items[i]) && 0 <= j < kept_members(
                members_of(items[i]),
                keep,
            ).len() && (#[trigger] kept_members(members_of(items[i]), keep)[j]).0 == name,
    decreases items.len(),
{
    if items.len() > 0 {
        let rest = items.drop_last();
        let last = items.last();
        let n = items.len() - 1;
        lemma_layer_labels_hold(rest, keep, name);
        assert forall|i: int| 0 <= i < rest.len() implies #[trigger] rest[i] == items[i] by {}
        let kept = kept_members(members_of(last), keep);
        let more = pair_labels(props_read(kept));
        if has_geometry(last) {
            lemma_seen_sum(layer_labels(rest, keep), more, name);
        }
        if was_seen(layer_labels(rest, keep), name) {
            let (i, j) = choose|i: int, j: int|
                0 <= i < rest.len() && has_geometry(#[trigger] rest[i]) && 0 <= j < kept_members(
                    members_of(rest[i]),
                    keep,
                ).len() && (#[trigger] kept_members(members_of(rest[i]), keep)[j]).0 == name;
            assert(has_geometry(items[i]));
            assert(kept_members(members_of(items[i]), keep)[j].0 == name);
        }
        if has_geometry(last) && was_seen(more, name) {
            let j = choose|j: int| 0 <= j < more.len() && (#[trigger] more[j]).0 == name;
            assert(has_geometry(items[n]));
            assert(kept_members(members_of(items[n]), keep)[j].0 == name);
        }
        if exists|i: int, j: int|
            0 <= i < items.len() && has_geometry(#[trigger] items[i]) && 0 <= j < kept_members(
                members_of(items[i]),
                keep,
            ).len() && (#[trigger] kept_members(members_of(items[i]), keep)[j]).0 == name {
            let (i, j) = choose|i: int, j: int|
                0 <= i < items.len() && has_geometry(#[trigger] items[i]) && 0 <= j < kept_members(
                    members_of(items[i]),
                    keep,
                ).len() && (#[trigger] kept_members(members_of(items[i]), keep)[j]).0 == name;
            if i < n {
                assert(has_geometry(rest[i]));
                assert(kept_members(members_of(rest[i]), keep)[j].0 == name);
            } else {
                assert(more[j].0 == name);
            }
        }
    }
}

/// The metadata of a layer lists exactly the names of the kept members of the features
/// with a geometry, each once, and the kinds of all their geometries, each once.
pub proof fn every_field_and_kind_is_listed(
    items: Seq<RawItem>,
    keep: Option<Vec<String>>,
    name: Seq<char>,
)
    requires
        ingested(items, keep) is Ok,
    ensures
        ({
            let schema = ingested(items, keep)->Ok_0.schema;
            &&& field_names(schema.fields).no_duplicates()
            &&& field_names(schema.fields).contains(name) <==> exists|i: int, j: int|
                0 <= i < items.len() && has_geometry(#[trigger] items[i]) && 0 <= j < kept_members(
                    members_of(items[i]),
                    keep,
                ).len() && (#[trigger] kept_members(members_of(items[i]), keep)[j]).0 == name
            &&& schema.kinds.no_duplicates()
            &&& forall|k: int|
                0 <= k < items.len() && has_geometry(#[trigger] items[k])
                    ==> schema.kinds.contains(kind_name(geometry_of(items[k])))
        }),
{
    lemma_layer_fields(items, keep);
    lemma_layer_labels_hold(items, keep, name);
    schema_sums_up(layer_labels(items, keep));
    assert(was_seen(layer_labels(items, keep), name) <==> field_names(
        ingested(items, keep)->Ok_0.schema.fields,
    ).contains(name));
}

/// What is learnt of a layer while its features are stored one after the other.
pub open spec fn stored(items: Seq<RawItem>, keep: Option<Vec<String>>) -> Result<
    (SchemaView, Bounds),
    BakeErrorView,
>
    decreases items.len(),
{
    if items.len() == 0 {
        Ok((empty_layer().schema, nothing_held()))
    } else {
        match stored(items.drop_last(), keep) {
            Err(e) => Err(e),
            Ok((schema, extent)) => match items.last() {
                RawItem::Unreadable(t) => Err(BakeErrorView::GeoJson(t@)),
                RawItem::Feature { geometry: None, .. } => Ok((schema, extent)),
                RawItem::Feature { geometry: Some(g), members } => Ok(
                    (
                        schema_with(
                            schema,
                            kind_name(g),
                            props_read(kept_members(member_views(members@), keep)),
                            true,
                        ),
                        stretched_over(extent, outline(g)),
                    ),
                ),
            },
        }
    }
}

/// Storing the features of a layer learns the same of it as reading it in.
pub proof fn storing_learns_the_same(items: Seq<RawItem>, keep: Option<Vec<String>>)
    ensures
        match (stored(items, keep), ingested(items, keep)) {
            (Ok((schema, extent)), Ok(layer)) => schema == layer.schema && extent == layer.extent,
            (Err(a), Err(b)) => a == b,
            _ => false,
        },
    decreases items.len(),
{
    if items.len() > 0 {
        storing_learns_the_same(items.drop_last(), keep);
    }
}

/// `r` is what reading in the items comes to. A layer without features is an error.
pub open spec fn comes_to(
    r: Result<IngestedLayer, BakeError>,
    name: Seq<char>,
    items: Seq<RawItem>,
    keep: Option<Vec<String>>,
) -> bool {
    match ingested(items, keep) {
        Err(e) => r matches Err(x) && x@ == e,
        Ok(st) => if st.features.len() == 0 {
            r matches Err(x) && x@ == BakeErrorView::Empty
        } else {
            r matches Ok(l) && l.name@ == name && feature_views(l.features@) == st.features
                && l.layer_info.name@ == name && field_views(l.layer_info.fields@)
                == st.schema.fields && text_views(l.layer_info.geometry_types@) == st.schema.kinds
                && l.bounds@ == degrees_of(st.extent)
        },
    }
}

/// Read in a layer: the features with geometry, their properties reduced to the
/// kept fields, and the schema. A layer without features is an error.
pub fn ingest_features(name: &str, given: Vec<RawItem>, keep: &Option<Vec<String>>) -> (r: Result<
    IngestedLayer,
    BakeError,
>)
    ensures
        comes_to(r, name@, given@, *keep),
{
    let ghost all = given@;
    let mut items = given;
    let mut features: Vec<(Geometry<Coord>, Vec<(String, PropValue)>)> = Vec::new();
    let mut extent = Extent::new();
    let mut schema = SchemaBuilder::new();
    let mut i: usize = 0;
    proof {
        assert(all.take(0) =~= Seq::<RawItem>::empty());
        assert(feature_views(features@) =~= empty_layer().features);
    }
    while i < items.len()
        invariant
            i <= items.len(),
            items.len() == all.len(),
            all == given@,
            forall|k: int| i <= k < items.len() ==> #[trigger] items@[k] == all[k],
            schema.wf(),
            ingested(all.take(i as int), *keep) == Ok::<LayerState, BakeErrorView>(
                LayerState {
                    features: feature_views(features@),
                    extent: extent.bounds(),
                    schema: schema.learnt(),
                },
            ),
            schema.learnt().stored == features.len(),
        decreases items.len() - i,
    {
        let ghost prev = items@;
        let ghost before = feature_views(features@);
        let ghost learnt = schema.learnt();
        let mut item = RawItem::Unreadable(String::new());
        std::mem::swap(&mut items[i], &mut item);
        proof {
            assert(prev[i as int] == all[i as int]);
            assert(item == all[i as int]);
            assert forall|k: int| i < k < items.len() implies #[trigger] items@[k] == all[k] by {
                assert(items@[k] == prev[k]);
            }
            assert(all.take(i + 1).drop_last() =~= all.take(i as int));
            assert(all.take(i + 1).last() == all[i as int]);
        }
        match item {
            RawItem::Unreadable(t) => {
                proof {
                    lemma_ingested_stuck(all, *keep, i + 1);
                }
                return Err(BakeError::GeoJson(t));
            },
            RawItem::Feature { geometry, members } => match geometry {
                None => {},
                Some(g) => {
                    extent.cover(&g);
                    let kept = read_props(&retain_members(members, keep));
                    schema.note_kind(g.kind());
                    schema.note_props(&kept);
                    schema.note_stored();
                    features.push((g, kept));
                    proof {
                        let pairs = prop_pairs(kept@);
                        assert(labels_of(kept@) =~= pair_labels(pairs));
                        assert(feature_views(features@) =~= before.push((g, pairs)));
                        assert(schema.learnt() =~= schema_with(learnt, kind_name(g), pairs, true));
                    }
                },
            },
        }
        i = i + 1;
    }
    assert(all.take(i as int) =~= all);
    match schema.finish(name) {
        Err(e) => Err(e),
        Ok(layer_info) => Ok(
            IngestedLayer {
                name: name.to_owned(),
                features,
                bounds: extent.degrees(),
                layer_info,
            },
        ),
    }
}

/// The line without record separators in front and white space around.
pub open spec fn line_content(s: Seq<char>) -> Seq<char>
    decreases s.len(),
{
    if s.len() > 0 && s[0] == '\x1e' {
        line_content(s.skip(1))
    } else {
        trimmed(s)
    }
}

/// The text of the feature in a line of a line-delimited input; `None` for a
/// blank line.
pub fn feature_line(line: &str) -> (r: Option<String>)
    ensures
        match r {
            Some(t) => t@ == line_content(line@) && t@.len() > 0,
            None => line_content(line@).len() == 0,
        },
{
    let v = chars_of(line);
    let mut start: usize = 0;
    assert(v@.subrange(0, v@.len() as int) =~= v@);
    while start < v.len() && v[start] == '\x1e'
        invariant
            start <= v.len(),
            v@ == line@,
            line_content(v@.subrange(start as int, v@.len() as int)) == line_content(line@),
        decreases v.len() - start,
    {
        assert(v@.subrange(start as int, v@.len() as int).skip(1) =~= v@.subrange(
            start + 1,
            v@.len() as int,
        ));
        start = start + 1;
    }
    let (a, b) = trim_range(&v, start, v.len());
    if a == b {
        assert(v@.subrange(a as int, b as int).len() == 0);
        return None;
    }
    Some(text_of(&v, a, b))
}

/// `r` is the layer that a parsed document comes to.
pub open spec fn document_comes_to(
    r: Result<IngestedLayer, BakeError>,
    name: Seq<char>,
    keep: Option<Vec<String>>,
    parsed: Result<DocumentView, Seq<char>>,
) -> bool {
    match parsed {
        Err(t) => r matches Err(x) && x@ == BakeErrorView::GeoJson(t),
        Ok(d) => exists|items: Seq<RawItem>| #[trigger]
            are_items(items, listed_features(d)) && comes_to(r, name, items, keep),
    }
}

/// `r` is the layer that the features in lines come to.
pub open spec fn sequence_comes_to(
    r: Result<IngestedLayer, BakeError>,
    name: Seq<char>,
    keep: Option<Vec<String>>,
    lines: Seq<Seq<char>>,
) -> bool {
    exists|items: Seq<RawItem>| #[trigger]
        are_read(items, lines_parsed(lines)) && comes_to(r, name, items, keep)
}

/// Read in a layer from a document: a collection of features, or a feature or a
/// geometry that stands alone.
///
/// A geometry, the feature of it and the collection of that feature come to the same
/// layer, and a collection to the same layer as its features line by line.
pub fn ingest_geojson(name: &str, src: &str, keep: &Option<Vec<String>>) -> (r: Result<
    IngestedLayer,
    BakeError,
>)
    ensures
        document_comes_to(r, name@, *keep, document_parsed(src@)),
        forall|g: Seq<char>|
            (src@ == #[trigger] lone_feature(g) || src@ == collection_text(seq![lone_feature(g)]))
                && is_geometry(g) ==> document_comes_to(r, name@, *keep, document_parsed(g)),
        forall|lines: Seq<Seq<char>>|
            src@ == collection_text(#[trigger] line_contents(lines)) && are_features(
                line_contents(lines),
            ) ==> sequence_comes_to(r, name@, *keep, lines),
{
    match read_document(src) {
        Err(t) => Err(BakeError::GeoJson(t)),
        Ok(items) => {
            let ghost all = items@;
            let r = ingest_features(name, items, keep);
            proof {
                if let Ok(d) = document_parsed(src@) {
                    assert(are_items(all, listed_features(d)));
                }
                assert forall|g: Seq<char>|
                    (src@ == #[trigger] lone_feature(g) || src@ == collection_text(
                        seq![lone_feature(g)],
                    )) && is_geometry(g) implies document_comes_to(
                    r,
                    name@,
                    *keep,
                    document_parsed(g),
                ) by {
                    lone_parts_are_collections(lone_parsed(g).0->0, lone_parsed(g));
                    let d = document_parsed(g)->Ok_0;
                    assert(are_items(all, listed_features(d)));
                }
                assert forall|lines: Seq<Seq<char>>|
                    src@ == collection_text(#[trigger] line_contents(lines)) && are_features(
                        line_contents(lines),
                    ) implies sequence_comes_to(r, name@, *keep, lines) by {
                    lemma_lines_collected(lines);
                    let texts = line_contents(lines);
                    let features = document_parsed(src@)->Ok_0->Collection_0;
                    assert(lines_parsed(lines) =~= all_ok(features)) by {
                        assert forall|i: int| 0 <= i < texts.len() implies feature_parsed(
                            #[trigger] texts[i],
                        ) is Ok by {}
                    }
                    sequences_are_collections(all, features, lines);
                    assert(are_read(all, lines_parsed(lines)));
                }
            }
            r
        },
    }
}

/// The features in the lines that are not blank.
pub open spec fn lines_parsed(lines: Seq<Seq<char>>) -> Seq<
    Result<(Option<Seq<u8>>, Option<Seq<(Seq<char>, Seq<char>)>>), Seq<char>>,
>
    decreases lines.len(),
{
    if lines.len() == 0 {
        Seq::empty()
    } else {
        let head = lines_parsed(lines.drop_last());
        let content = line_content(lines.last());
        if content.len() == 0 {
            head
        } else {
            head.push(feature_parsed(content))
        }
    }
}

/// What stands in the lines that are not blank.
pub open spec fn line_contents(lines: Seq<Seq<char>>) -> Seq<Seq<char>>
    decreases lines.len(),
{
    if lines.len() == 0 {
        Seq::empty()
    } else {
        let head = line_contents(lines.drop_last());
        let content = line_content(lines.last());
        if content.len() == 0 {
            head
        } else {
            head.push(content)
        }
    }
}

/// The features in lines are what stands in them, parsed.
proof fn lemma_lines_collected(lines: Seq<Seq<char>>)
    requires
        are_features(line_contents(lines)),
    ensures
        lines_parsed(lines) == Seq::new(
            line_contents(lines).len(),
            |i: int| feature_parsed(line_contents(lines)[i]),
        ),
    decreases lines.len(),
{
    let texts = line_contents(lines);
    let parsed = Seq::new(texts.len(), |i: int| feature_parsed(texts[i]));
    if lines.len() > 0 {
        let rest = lines.drop_last();
        let head = line_contents(rest);
        assert(are_features(head)) by {
            assert forall|i: int| 0 <= i < head.len() implies is_shallow(#[trigger] head[i])
                && feature_parsed(head[i]) is Ok by {
                assert(texts[i] == head[i]);
            }
        }
        lemma_lines_collected(rest);
        assert(lines_parsed(lines) =~= parsed);
    } else {
        assert(lines_parsed(lines) =~= parsed);
    }
}

/// Every line that is not blank holds a feature, in the order of the lines.
pub proof fn every_line_holds_a_feature(lines: Seq<Seq<char>>)
    ensures
        lines_parsed(lines) == lines.filter(
            |l: Seq<char>| line_content(l).len() > 0,
        ).map_values(|l: Seq<char>| feature_parsed(line_content(l))),
        line_contents(lines) == lines.filter(
            |l: Seq<char>| line_content(l).len() > 0,
        ).map_values(|l: Seq<char>| line_content(l)),
    decreases lines.len(),
{
    let filled = |l: Seq<char>| line_content(l).len() > 0;
    let parsed = |l: Seq<char>| feature_parsed(line_content(l));
    let content = |l: Seq<char>| line_content(l);
    reveal(Seq::filter);
    if lines.len() > 0 {
        let rest = lines.drop_last();
        every_line_holds_a_feature(rest);
        if filled(lines.last()) {
            let kept = rest.filter(filled);
            assert(kept.push(lines.last()).map_values(parsed) =~= kept.map_values(parsed).push(
                parsed(lines.last()),
            ));
            assert(kept.push(lines.last()).map_values(content) =~= kept.map_values(content).push(
                content(lines.last()),
            ));
        }
    } else {
        assert(lines.filter(filled).map_values(parsed) =~= lines_parsed(lines));
        assert(lines.filter(filled).map_values(content) =~= line_contents(lines));
    }
}

/// A line that starts with no record separator is taken as it stands, but for the white
/// space around it.
pub proof fn lines_are_trimmed(line: Seq<char>)
    requires
        line.len() == 0 || line[0] != '\x1e',
    ensures
        line_content(line) == trimmed(line),
{
}

/// Blank lines make no difference.
pub proof fn blank_lines_do_not_matter(lines: Seq<Seq<char>>, i: int)
    requires
        0 <= i < lines.len(),
        line_content(lines[i]).len() == 0,
    ensures
        lines_parsed(lines.remove(i)) == lines_parsed(lines),
    decreases lines.len(),
{
    if i < lines.len() - 1 {
        blank_lines_do_not_matter(lines.drop_last(), i);
        assert(lines.remove(i).drop_last() =~= lines.drop_last().remove(i));
        assert(lines.remove(i).last() == lines.last());
    } else {
        assert(lines.remove(i) =~= lines.drop_last());
    }
}

/// Record separators in front of a line make no difference.
pub proof fn record_separators_do_not_matter(line: Seq<char>)
    ensures
        line_content(seq!['\x1e'] + line) == line_content(line),
{
    assert((seq!['\x1e'] + line).skip(1) =~= line);
}

/// `items` are what the features in lines come to.
pub open spec fn are_read(
    items: Seq<RawItem>,
    parsed: Seq<Result<(Option<Seq<u8>>, Option<Seq<(Seq<char>, Seq<char>)>>), Seq<char>>>,
) -> bool {
    items.len() == parsed.len() && forall|i: int|
        0 <= i < items.len() ==> is_read(#[trigger] items[i], parsed[i])
}

/// Features that were parsed without an error.
pub open spec fn all_ok(
    features: Seq<(Option<Seq<u8>>, Option<Seq<(Seq<char>, Seq<char>)>>)>,
) -> Seq<Result<(Option<Seq<u8>>, Option<Seq<(Seq<char>, Seq<char>)>>), Seq<char>>> {
    Seq::new(features.len(), |i: int| Ok(features[i]))
}

/// A sequence comes to the same as the collection of its features.
pub proof fn sequences_are_collections(
    items: Seq<RawItem>,
    features: Seq<(Option<Seq<u8>>, Option<Seq<(Seq<char>, Seq<char>)>>)>,
    lines: Seq<Seq<char>>,
)
    requires
        lines_parsed(lines) == all_ok(features),
    ensures
        are_read(items, lines_parsed(lines)) <==> are_items(
            items,
            listed_features(DocumentView::Collection(features)),
        ),
{
    let parsed = lines_parsed(lines);
    if items.len() == features.len() {
        assert(forall|i: int|
            0 <= i < items.len() ==> is_read(#[trigger] items[i], parsed[i]) == is_item(
                items[i],
                features[i],
            ));
    }
}

/// Read the feature in one more line, unless it is blank.
fn read_line(line: &str, items: &mut Vec<RawItem>, Ghost(before): Ghost<Seq<Seq<char>>>)
    requires
        are_read(old(items)@, lines_parsed(before)),
    ensures
        are_read(final(items)@, lines_parsed(before.push(line@))),
{
    proof {
        assert(before.push(line@).drop_last() =~= before);
    }
    match feature_line(line) {
        None => {},
        Some(text) => {
            let item = read_feature(text.as_str());
            items.push(item);
        },
    }
}

/// Read the features of line-delimited text. Each line that is not blank holds a
/// feature, with or without record separators in front.
pub fn read_sequence(src: &str) -> (items: Vec<RawItem>)
    ensures
        are_read(items@, lines_parsed(split(src@, '\n'))),
{
    let v = chars_of(src);
    let mut items: Vec<RawItem> = Vec::new();
    let mut start: usize = 0;
    let mut i: usize = 0;
    proof {
        assert(v@.take(0) =~= Seq::<char>::empty());
        assert(v@.subrange(0, 0) =~= Seq::<char>::empty());
        assert(split(v@.take(0), '\n').drop_last() =~= Seq::<Seq<char>>::empty());
    }
    while i < v.len()
        invariant
            start <= i <= v.len(),
            v@ == src@,
            split(v@.take(i as int), '\n').len() >= 1,
            split(v@.take(i as int), '\n').last() == v@.subrange(start as int, i as int),
            are_read(items@, lines_parsed(split(v@.take(i as int), '\n').drop_last())),
        decreases v.len() - i,
    {
        let ghost prev = split(v@.take(i as int), '\n');
        proof {
            assert(v@.take(i + 1).drop_last() =~= v@.take(i as int));
        }
        if v[i] == '\n' {
            let line = text_of(&v, start, i);
            read_line(line.as_str(), &mut items, Ghost(prev.drop_last()));
            start = i + 1;
            proof {
                let next = split(v@.take(i + 1), '\n');
                assert(next.drop_last() =~= prev);
                assert(prev =~= prev.drop_last().push(prev.last()));
                assert(v@.subrange(start as int, i + 1) =~= Seq::<char>::empty());
            }
        } else {
            proof {
                let next = split(v@.take(i + 1), '\n');
                assert(next.drop_last() =~= prev.drop_last());
                assert(next.last() =~= v@.subrange(start as int, i + 1));
            }
        }
        i = i + 1;
    }
    let line = text_of(&v, start, v.len());
    let ghost all = split(src@, '\n');
    proof {
        assert(v@.take(i as int) =~= v@);
        assert(all =~= all.drop_last().push(all.last()));
    }
    read_line(line.as_str(), &mut items, Ghost(all.drop_last()));
    items
}

/// Read in a layer from line-delimited text.
pub fn ingest_geojsonseq(name: &str, src: &str, keep: &Option<Vec<String>>) -> (r: Result<
    IngestedLayer,
    BakeError,
>)
    ensures
        sequence_comes_to(r, name@, *keep, split(src@, '\n')),
{
    let items = read_sequence(src);
    let ghost all = items@;
    let r = ingest_features(name, items, keep);
    assert(are_read(all, lines_parsed(split(src@, '\n'))));
    r
}

/// What to do with a feature that is to be stored.
pub enum StoreStep {
    /// Stop with the error.
    Fail(BakeError),
    /// Go on with the next feature.
    Skip,
    /// Project the geometry and add the feature.
    Store { geometry: Geometry<Coord>, members: Vec<(String, String)> },
}

/// What to do with a feature that is to be stored: one without geometry is left
/// out, and one that cannot be read ends the storing.
pub fn store_step(item: RawItem) -> (r: StoreStep)
    ensures
        match item {
            RawItem::Unreadable(t) => r matches StoreStep::Fail(e) && e@
                == BakeErrorView::GeoJson(t@),
            RawItem::Feature { geometry: None, .. } => r is Skip,
            RawItem::Feature { geometry: Some(g), members } => r == (StoreStep::Store {
                geometry: g,
                members,
            }),
        },
{
    match item {
        RawItem::Unreadable(t) => StoreStep::Fail(BakeError::GeoJson(t)),
        RawItem::Feature { geometry, members } => match geometry {
            None => StoreStep::Skip,
            Some(g) => StoreStep::Store { geometry: g, members },
        },
    }
}

/// Fills the feature store: keeps the index and the schema of what was stored.
pub struct StoreBuilder {
    writer: StoreWriter,
    extent: Extent,
    schema: SchemaBuilder,
    index: Vec<FeatureMeta>,
}

impl StoreBuilder {
    /// Where the next record goes.
    pub closed spec fn end(&self) -> int {
        self.writer.end()
    }

    /// The extent of the features in degrees.
    pub closed spec fn extent(&self) -> Bounds {
        self.extent.bounds()
    }

    /// What has been learnt of the layer so far.
    pub closed spec fn learnt(&self) -> SchemaView {
        self.schema.learnt()
    }

    /// The index entries of the stored features.
    pub closed spec fn entries(&self) -> Seq<FeatureMeta> {
        self.index@
    }

    pub closed spec fn wf(&self) -> bool {
        self.schema.wf() && self.schema.learnt().stored == self.index@.len()
    }

    /// A store that holds nothing.
    pub fn new() -> (b: StoreBuilder)
        ensures
            b.wf(),
            b.end() == 0,
            b.extent() == nothing_held(),
            b.learnt() == empty_layer().schema,
            b.entries() == Seq::<FeatureMeta>::empty(),
    {
        StoreBuilder {
            writer: StoreWriter::create(),
            extent: Extent::new(),
            schema: SchemaBuilder::new(),
            index: Vec::new(),
        }
    }

    /// Whether the store can take one more record of any length.
    pub open spec fn has_room(&self) -> bool {
        self.end() + u32::MAX <= u64::MAX
    }

    /// Whether the store can take one more record of any length.
    pub fn is_open(&self) -> (r: bool)
        requires
            self.wf(),
        ensures
            r == self.has_room(),
    {
        self.writer.position() <= u64::MAX - u32::MAX as u64
    }

    /// Take in one feature: its geometry in degrees, the projected geometry with
    /// its bounding box, and the members of its properties, which are reduced to
    /// the kept fields. A feature without a bounding box is not stored, but its
    /// schema counts. Returns the record to be appended to the store.
    pub fn add(
        &mut self,
        degrees: &Geometry<Coord>,
        geom: &Geometry<Coord>,
        bbox: Option<[u64; 4]>,
        members: Vec<(String, String)>,
        keep: &Option<Vec<String>>,
    ) -> (r: Option<Vec<u8>>)
        requires
            old(self).wf(),
            old(self).has_room(),
        ensures
            final(self).wf(),
            ({
                let kept = kept_members(member_views(members@), *keep);
                let rec = record_bytes(
                    storable_shape(*geom, origin()),
                    encode_utf8(object_text(kept)),
                );
                &&& final(self).learnt() == schema_with(
                    old(self).learnt(),
                    kind_name(*degrees),
                    props_read(kept),
                    bbox is Some,
                )
                &&& final(self).extent() == stretched_over(old(self).extent(), outline(*degrees))
                &&& match bbox {
                    None => r is None && final(self).entries() == old(self).entries()
                        && final(self).end() == old(self).end(),
                    Some(b) => {
                        let meta = FeatureMeta {
                            bbox: b,
                            offset: old(self).end() as u64,
                            len: low32(rec.len() as int),
                        };
                        &&& r matches Some(v) && v@ == rec
                        &&& final(self).entries() == old(self).entries().push(meta)
                        &&& final(self).end() == old(self).end() + meta.len
                    },
                }
            }),
    {
        let ghost learnt = self.schema.learnt();
        let kept = retain_members(members, keep);
        let props = read_props(&kept);
        self.extent.cover(degrees);
        self.schema.note_kind(degrees.kind());
        self.schema.note_props(&props);
        proof {
            assert(labels_of(props@) =~= pair_labels(prop_pairs(props@)));
        }
        match bbox {
            None => {
                assert(self.schema.learnt() =~= schema_with(
                    learnt,
                    kind_name(*degrees),
                    prop_pairs(props@),
                    false,
                ));
                None
            },
            Some(b) => {
                let json = write_object(&kept);
                let (rec, meta) = self.writer.append(geom, b, json.as_str().as_bytes());
                self.schema.note_stored();
                self.index.push(meta);
                assert(self.schema.learnt() =~= schema_with(
                    learnt,
                    kind_name(*degrees),
                    prop_pairs(props@),
                    true,
                ));
                Some(rec)
            },
        }
    }

    /// The index, the bounds in degrees and the layer; a store without features is
    /// an error.
    pub fn finish(self, name: &str) -> (r: Result<
        (Vec<FeatureMeta>, [u64; 4], LayerInfo),
        BakeError,
    >)
        requires
            self.wf(),
        ensures
            if self.entries().len() == 0 {
                r matches Err(e) && e@ == BakeErrorView::Empty
            } else {
                r matches Ok((index, bounds, info)) && index@ == self.entries() && bounds@
                    == degrees_of(self.extent()) && info.name@ == name@
                    && field_views(info.fields@) == self.learnt().fields && text_views(
                    info.geometry_types@,
                ) == self.learnt().kinds
            },
    {
        match self.schema.finish(name) {
            Err(e) => Err(e),
            Ok(info) => Ok((self.index, self.extent.degrees(), info)),
        }
    }
}

/// The features as a collection: text that starts as an object is one already.
pub open spec fn as_collection(s: Seq<char>) -> Seq<char> {
    let t = trim_front(s);
    if t.len() > 0 && t[0] == '{' {
        s
    } else {
        "{\"type\":\"FeatureCollection\",\"features\":["@ + s + "]}"@
    }
}

/// The GeoJSON text of a shapefile with `count` records, given the text that its
/// records were turned into. A shapefile without records is an error.
pub fn shapefile_source(count: usize, text: String) -> (r: Result<String, BakeError>)
    ensures
        if count == 0 {
            r matches Err(e) && e@ == BakeErrorView::Empty
        } else {
            r matches Ok(t) && t@ == as_collection(text@)
        },
{
    if count == 0 {
        return Err(BakeError::Empty);
    }
    let v = chars_of(text.as_str());
    let mut at: usize = 0;
    assert(v@.skip(0) =~= text@);
    while at < v.len() && space(v[at])
        invariant
            at <= v.len(),
            trim_front(v@.skip(at as int)) == trim_front(text@),
        decreases v.len() - at,
    {
        assert(v@.skip(at as int).skip(1) =~= v@.skip(at + 1));
        at = at + 1;
    }
    if at < v.len() && v[at] == '{' {
        return Ok(text);
    }
    let mut r = "{\"type\":\"FeatureCollection\",\"features\":[".to_owned();
    push_text(&mut r, text.as_str());
    push_text(&mut r, "]}");
    Ok(r)
}

/// A feature teaches its kind and the types of its values; only one that is stored counts.
pub proof fn every_feature_teaches_its_schema(
    s: SchemaView,
    kind: Seq<char>,
    pairs: Seq<(Seq<char>, PropView)>,
    stored: bool,
)
    ensures
        schema_with(s, kind, pairs, stored).kinds.contains(kind),
        schema_with(s, kind, pairs, stored).fields == noted_all(
            s.fields,
            Seq::new(pairs.len(), |i: int| (pairs[i].0, crate::props::type_label(pairs[i].1))),
        ),
        schema_with(s, kind, pairs, stored).stored == s.stored + if stored {
            1int
        } else {
            0
        },
{
    interning_is_faithful(s.kinds, kind);
    let kinds = schema_with(s, kind, pairs, stored).kinds;
    let p = place(kinds, kind)->0;
    assert(kinds[p] == kind);
    assert(pair_labels(pairs) =~= Seq::new(
        pairs.len(),
        |i: int| (pairs[i].0, crate::props::type_label(pairs[i].1)),
    ));
}

/// Text that starts with an object, white space aside, is taken as it is; any other text
/// is put between the brackets of a collection.
pub proof fn only_bare_features_are_wrapped(blanks: Seq<char>, c: char, rest: Seq<char>)
    requires
        forall|i: int| 0 <= i < blanks.len() ==> is_space(#[trigger] blanks[i]),
        !is_space(c),
    ensures
        as_collection(blanks + seq![c] + rest) == (if c == '{' {
            blanks + seq![c] + rest
        } else {
            "{\"type\":\"FeatureCollection\",\"features\":["@ + (blanks + seq![c] + rest) + "]}"@
        }),
{
    lemma_front_blanks(blanks, seq![c] + rest);
    assert(blanks + seq![c] + rest =~= blanks + (seq![c] + rest));
    assert((seq![c] + rest)[0] == c);
}

proof fn lemma_front_blanks(blanks: Seq<char>, s: Seq<char>)
    requires
        forall|i: int| 0 <= i < blanks.len() ==> is_space(#[trigger] blanks[i]),
        s.len() > 0,
        !is_space(s[0]),
    ensures
        trim_front(blanks + s) == s,
    decreases blanks.len(),
{
    if blanks.len() == 0 {
        assert(blanks + s =~= s);
    } else {
        let rest = blanks.skip(1);
        assert((blanks + s)[0] == blanks[0]);
        assert((blanks + s).skip(1) =~= rest + s);
        assert forall|i: int| 0 <= i < rest.len() implies is_space(#[trigger] rest[i]) by {
            assert(rest[i] == blanks[i + 1]);
        }
        lemma_front_blanks(rest, s);
    }
}

} // verus!
