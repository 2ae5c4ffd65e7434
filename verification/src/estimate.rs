//! Sampling an input before it is baked: how many features it has, and what each
//! property field costs.

use vstd::prelude::*;
use vstd::utf8::encode_utf8;

use crate::order::{is_stable_order, positions, stable_order};
use crate::feature_text::{
    coordinates_written, feature_parsed, members_or_none, parse_feature, write_coordinates,
};
use crate::geometry::{
    geometry_view, line_shapes, polygon_shapes, Coord, Geometry, GeometryView, Polygon,
    PolygonShape,
};
use crate::ingest::{feature_line, line_content};
use crate::json_text::{member_views, object_text, read_value, value_read, write_object};
use crate::props::{json_kind, kind_label, PropValue, PropView};
use crate::text::{
    comes_before, lemma_text_less_total, lemma_text_less_transitive, same_text, text_less,
};
use crate::wkb::{read_geometry, wkb_read};

verus! {

/// How many features are sampled. Big enough to stabilise the averages, small
/// enough to read at once.
pub const SAMPLE_LINES: usize = 20_000;

/// Sums stop growing at the largest number that 64 bits hold.
pub open spec fn capped(n: int) -> int {
    if n > u64::MAX {
        u64::MAX as int
    } else {
        n
    }
}

fn add_capped(a: u64, b: u64) -> (r: u64)
    ensures
        r == capped(a + b),
{
    match a.checked_add(b) {
        Some(r) => r,
        None => u64::MAX,
    }
}

/// What was sampled of a field.
pub struct FieldSample {
    pub name: String,
    /// The length of its values as JSON, summed up.
    pub value_bytes: u64,
    /// How many features carried it.
    pub present: u64,
    /// The most common kind of its values; of several that are equally common, the
    /// one that was seen first.
    pub kind: &'static str,
}

/// A sampled field as mathematical values.
pub struct SampleOfField {
    pub name: Seq<char>,
    pub value_bytes: int,
    pub present: int,
    pub kind: Seq<char>,
}

impl View for FieldSample {
    type V = SampleOfField;

    open spec fn view(&self) -> SampleOfField {
        SampleOfField {
            name: self.name@,
            value_bytes: self.value_bytes as int,
            present: self.present as int,
            kind: self.kind@,
        }
    }
}

/// What is kept of a field while it is sampled.
struct FieldTally {
    name: String,
    value_bytes: u64,
    present: u64,
    /// How often each kind was seen, in the order of their first occurrence.
    kinds: Vec<(&'static str, u64)>,
}

/// What is kept of a field, as mathematical values.
pub struct FieldView {
    pub name: Seq<char>,
    pub value_bytes: int,
    pub present: int,
    pub kinds: Seq<(Seq<char>, int)>,
}

spec fn kind_views(kinds: Seq<(&'static str, u64)>) -> Seq<(Seq<char>, int)> {
    Seq::new(kinds.len(), |i: int| (kinds[i].0@, kinds[i].1 as int))
}

spec fn tally_view(t: FieldTally) -> FieldView {
    FieldView {
        name: t.name@,
        value_bytes: t.value_bytes as int,
        present: t.present as int,
        kinds: kind_views(t.kinds@),
    }
}

/// The kinds after one more was seen.
pub open spec fn with_kind(kinds: Seq<(Seq<char>, int)>, kind: Seq<char>) -> Seq<
    (Seq<char>, int),
>
    decreases kinds.len(),
{
    if kinds.len() == 0 {
        seq![(kind, 1int)]
    } else if kinds[0].0 == kind {
        kinds.update(0, (kind, capped(kinds[0].1 + 1)))
    } else {
        seq![kinds[0]] + with_kind(kinds.skip(1), kind)
    }
}

/// The position of the most common kind, the first of several.
pub open spec fn most_common(kinds: Seq<(Seq<char>, int)>) -> int
    decreases kinds.len(),
{
    if kinds.len() <= 1 {
        0
    } else {
        let best = most_common(kinds.drop_last());
        if kinds.last().1 > kinds[best].1 {
            kinds.len() - 1
        } else {
            best
        }
    }
}

/// What is told of a sampled field.
pub open spec fn told_of(f: FieldView) -> SampleOfField {
    SampleOfField {
        name: f.name,
        value_bytes: f.value_bytes,
        present: f.present,
        kind: f.kinds[most_common(f.kinds)].0,
    }
}

/// The most common kind was seen at least as often as any other, and oftener than
/// every kind that was seen before it.
pub proof fn the_most_common_kind_is_told(kinds: Seq<(Seq<char>, int)>)
    requires
        kinds.len() > 0,
    ensures
        0 <= most_common(kinds) < kinds.len(),
        forall|i: int|
            0 <= i < kinds.len() ==> (#[trigger] kinds[i]).1 <= kinds[most_common(kinds)].1,
        forall|i: int|
            0 <= i < most_common(kinds) ==> (#[trigger] kinds[i]).1 < kinds[most_common(kinds)].1,
    decreases kinds.len(),
{
    if kinds.len() > 1 {
        let rest = kinds.drop_last();
        the_most_common_kind_is_told(rest);
        assert forall|i: int| 0 <= i < kinds.len() implies (#[trigger] kinds[i]).1
            <= kinds[most_common(kinds)].1 by {
            if i < rest.len() {
                assert(rest[i] == kinds[i]);
            }
        }
        assert forall|i: int| 0 <= i < most_common(kinds) implies (#[trigger] kinds[i]).1
            < kinds[most_common(kinds)].1 by {
            assert(rest[i] == kinds[i]);
        }
    }
}

proof fn lemma_with_kind_at(kinds: Seq<(Seq<char>, int)>, kind: Seq<char>, i: int)
    requires
        0 <= i <= kinds.len(),
        forall|k: int| 0 <= k < i ==> (#[trigger] kinds[k]).0 != kind,
        i < kinds.len() ==> kinds[i].0 == kind,
    ensures
        with_kind(kinds, kind) == (if i < kinds.len() {
            kinds.update(i, (kind, capped(kinds[i].1 + 1)))
        } else {
            kinds.push((kind, 1int))
        }),
    decreases i,
{
    if i == 0 {
        if kinds.len() == 0 {
            assert(with_kind(kinds, kind) =~= kinds.push((kind, 1int)));
        }
    } else {
        let rest = kinds.skip(1);
        assert(kinds[0].0 != kind);
        assert forall|k: int| 0 <= k < i - 1 implies (#[trigger] rest[k]).0 != kind by {
            assert(kinds[k + 1].0 != kind);
        }
        lemma_with_kind_at(rest, kind, i - 1);
        if i < kinds.len() {
            assert(with_kind(kinds, kind) =~= kinds.update(i, (kind, capped(kinds[i].1 + 1))));
        } else {
            assert(with_kind(kinds, kind) =~= kinds.push((kind, 1int)));
        }
    }
}

fn add_kind(kinds: &mut Vec<(&'static str, u64)>, kind: &'static str)
    ensures
        kind_views(final(kinds)@) == with_kind(kind_views(old(kinds)@), kind@),
{
    let ghost before = kind_views(kinds@);
    let mut i: usize = 0;
    while i < kinds.len() && !same_text(kinds[i].0, kind)
        invariant
            i <= kinds.len(),
            kinds@ == old(kinds)@,
            before == kind_views(kinds@),
            forall|k: int| 0 <= k < i ==> (#[trigger] before[k]).0 != kind@,
        decreases kinds.len() - i,
    {
        i = i + 1;
    }
    proof {
        lemma_with_kind_at(before, kind@, i as int);
    }
    if i < kinds.len() {
        let times: u64 = add_capped(kinds[i].1, 1);
        kinds.set(i, (kind, times));
        assert(kind_views(kinds@) =~= before.update(
            i as int,
            (kind@, capped(before[i as int].1 + 1)),
        ));
    } else {
        kinds.push((kind, 1));
        assert(kind_views(kinds@) =~= before.push((kind@, 1int)));
    }
}

fn most_common_kind(kinds: &Vec<(&'static str, u64)>) -> (r: &'static str)
    requires
        kinds.len() > 0,
    ensures
        r@ == kind_views(kinds@)[most_common(kind_views(kinds@))].0,
{
    let ghost all = kind_views(kinds@);
    let mut best: usize = 0;
    let mut i: usize = 1;
    while i < kinds.len()
        invariant
            1 <= i <= kinds.len(),
            best < i,
            all == kind_views(kinds@),
            best == most_common(all.take(i as int)),
        decreases kinds.len() - i,
    {
        proof {
            assert(all.take(i + 1).drop_last() =~= all.take(i as int));
            assert(all.take(i + 1)[best as int] == all[best as int]);
        }
        if kinds[i].1 > kinds[best].1 {
            best = i;
        }
        i = i + 1;
    }
    assert(all.take(i as int) =~= all);
    kinds[best].0
}

/// The fields after one more value; they stay in the order of their names.
pub open spec fn with_sample(
    fields: Seq<FieldView>,
    name: Seq<char>,
    bytes: int,
    kind: Seq<char>,
) -> Seq<FieldView>
    decreases fields.len(),
{
    let new = FieldView { name, value_bytes: bytes, present: 1, kinds: seq![(kind, 1int)] };
    if fields.len() == 0 {
        seq![new]
    } else if fields[0].name == name {
        fields.update(
            0,
            FieldView {
                value_bytes: capped(fields[0].value_bytes + bytes),
                present: capped(fields[0].present + 1),
                kinds: with_kind(fields[0].kinds, kind),
                ..fields[0]
            },
        )
    } else if text_less(name, fields[0].name) {
        seq![new] + fields
    } else {
        seq![fields[0]] + with_sample(fields.skip(1), name, bytes, kind)
    }
}

/// The fields are in the order of their names, and no name occurs twice.
pub open spec fn in_name_order(fields: Seq<FieldView>) -> bool {
    forall|i: int, j: int|
        0 <= i < j < fields.len() ==> text_less(#[trigger] fields[i].name, #[trigger] fields[j].name)
}

proof fn lemma_with_sample_names(
    fields: Seq<FieldView>,
    name: Seq<char>,
    bytes: int,
    kind: Seq<char>,
    k: int,
)
    requires
        0 <= k < with_sample(fields, name, bytes, kind).len(),
    ensures
        ({
            let n = with_sample(fields, name, bytes, kind)[k].name;
            n == name || exists|i: int| 0 <= i < fields.len() && n == (#[trigger] fields[i]).name
        }),
    decreases fields.len(),
{
    let next = with_sample(fields, name, bytes, kind);
    if fields.len() == 0 {
    } else if fields[0].name == name {
        assert(next[k].name == fields[k].name);
    } else if text_less(name, fields[0].name) {
        if k > 0 {
            assert(next[k] == fields[k - 1]);
        }
    } else if k == 0 {
        assert(next[0] == fields[0]);
    } else {
        let rest = fields.skip(1);
        lemma_with_sample_names(rest, name, bytes, kind, k - 1);
        let n = with_sample(rest, name, bytes, kind)[k - 1].name;
        assert(next[k].name == n);
        if n != name {
            let i = choose|i: int| 0 <= i < rest.len() && n == (#[trigger] rest[i]).name;
            assert(fields[i + 1].name == n);
        }
    }
}

/// Sampling one more value keeps the fields in the order of their names, each
/// listed once.
pub proof fn samples_stay_in_order(
    fields: Seq<FieldView>,
    name: Seq<char>,
    bytes: int,
    kind: Seq<char>,
)
    requires
        in_name_order(fields),
    ensures
        in_name_order(with_sample(fields, name, bytes, kind)),
    decreases fields.len(),
{
    let next = with_sample(fields, name, bytes, kind);
    if fields.len() == 0 {
    } else if fields[0].name == name {
        assert forall|i: int, j: int| 0 <= i < j < next.len() implies text_less(
            #[trigger] next[i].name,
            #[trigger] next[j].name,
        ) by {
            assert(text_less(fields[i].name, fields[j].name));
        }
    } else if text_less(name, fields[0].name) {
        assert forall|i: int, j: int| 0 <= i < j < next.len() implies text_less(
            #[trigger] next[i].name,
            #[trigger] next[j].name,
        ) by {
            assert(next[j] == fields[j - 1]);
            if i > 0 {
                assert(next[i] == fields[i - 1]);
                assert(text_less(fields[i - 1].name, fields[j - 1].name));
            } else if j > 1 {
                assert(text_less(fields[0].name, fields[j - 1].name));
                lemma_text_less_transitive(name, fields[0].name, fields[j - 1].name);
            }
        }
    } else {
        let rest = fields.skip(1);
        assert forall|i: int, j: int| 0 <= i < j < rest.len() implies text_less(
            #[trigger] rest[i].name,
            #[trigger] rest[j].name,
        ) by {
            assert(text_less(fields[i + 1].name, fields[j + 1].name));
        }
        samples_stay_in_order(rest, name, bytes, kind);
        let tail = with_sample(rest, name, bytes, kind);
        lemma_text_less_total(name, fields[0].name);
        assert forall|i: int, j: int| 0 <= i < j < next.len() implies text_less(
            #[trigger] next[i].name,
            #[trigger] next[j].name,
        ) by {
            assert(next[j] == tail[j - 1]);
            if i > 0 {
                assert(next[i] == tail[i - 1]);
                assert(text_less(tail[i - 1].name, tail[j - 1].name));
            } else {
                lemma_with_sample_names(rest, name, bytes, kind, j - 1);
                let n = tail[j - 1].name;
                if n != name {
                    let k = choose|k: int| 0 <= k < rest.len() && n == (#[trigger] rest[k]).name;
                    assert(text_less(fields[0].name, fields[k + 1].name));
                }
            }
        }
    }
}

proof fn lemma_with_sample_at(
    fields: Seq<FieldView>,
    name: Seq<char>,
    bytes: int,
    kind: Seq<char>,
    i: int,
)
    requires
        0 <= i <= fields.len(),
        forall|k: int|
            0 <= k < i ==> (#[trigger] fields[k]).name != name && !text_less(name, fields[k].name),
        i < fields.len() ==> fields[i].name == name || text_less(name, fields[i].name),
    ensures
        with_sample(fields, name, bytes, kind) == (if i < fields.len() && fields[i].name == name {
            fields.update(
                i,
                FieldView {
                    value_bytes: capped(fields[i].value_bytes + bytes),
                    present: capped(fields[i].present + 1),
                    kinds: with_kind(fields[i].kinds, kind),
                    ..fields[i]
                },
            )
        } else {
            fields.insert(
                i,
                FieldView { name, value_bytes: bytes, present: 1, kinds: seq![(kind, 1int)] },
            )
        }),
    decreases i,
{
    let new = FieldView { name, value_bytes: bytes, present: 1, kinds: seq![(kind, 1int)] };
    if i == 0 {
        if fields.len() == 0 || fields[0].name != name {
            assert(with_sample(fields, name, bytes, kind) =~= fields.insert(0, new));
        }
    } else {
        let rest = fields.skip(1);
        assert(fields[0].name != name);
        assert forall|k: int| 0 <= k < i - 1 implies (#[trigger] rest[k]).name != name
            && !text_less(name, rest[k].name) by {
            assert(fields[k + 1].name != name);
        }
        lemma_with_sample_at(rest, name, bytes, kind, i - 1);
        if i < fields.len() && fields[i].name == name {
            assert(with_sample(fields, name, bytes, kind) =~= fields.update(
                i,
                FieldView {
                    value_bytes: capped(fields[i].value_bytes + bytes),
                    present: capped(fields[i].present + 1),
                    kinds: with_kind(fields[i].kinds, kind),
                    ..fields[i]
                },
            ));
        } else {
            assert(with_sample(fields, name, bytes, kind) =~= fields.insert(i, new));
        }
    }
}

/// A feature as far as sampling looks at it.
pub struct SampledFeature {
    /// The number of points in the geometry, if there is one.
    pub points: Option<u64>,
    /// The properties, each with the length of its value as JSON.
    pub props: Vec<(String, PropValue, u64)>,
    /// The length of all properties as JSON.
    pub props_bytes: u64,
}

/// The properties as sequences, each with the length of its value as JSON.
pub open spec fn sized_views(v: Seq<(String, PropValue, u64)>) -> Seq<
    (Seq<char>, PropView, int),
> {
    Seq::new(v.len(), |i: int| (v[i].0@, v[i].1@, v[i].2 as int))
}

/// A sampled feature as mathematical values.
pub struct FeatureSizes {
    pub points: Option<int>,
    pub props: Seq<(Seq<char>, PropView, int)>,
    pub props_bytes: int,
}

impl View for SampledFeature {
    type V = FeatureSizes;

    open spec fn view(&self) -> FeatureSizes {
        FeatureSizes {
            points: match self.points {
                Some(n) => Some(n as int),
                None => None,
            },
            props: sized_views(self.props@),
            props_bytes: self.props_bytes as int,
        }
    }
}

/// The number of points on the lines.
pub open spec fn line_points<C>(ls: Seq<Seq<C>>) -> int
    decreases ls.len(),
{
    if ls.len() == 0 {
        0
    } else {
        line_points(ls.drop_last()) + ls.last().len()
    }
}

/// The number of points on the rings of a polygon.
pub open spec fn ring_points<C>(p: PolygonShape<C>) -> int {
    p.exterior.len() + line_points(p.interiors)
}

/// The number of points on the rings of polygons.
pub open spec fn polygon_points<C>(ps: Seq<PolygonShape<C>>) -> int
    decreases ps.len(),
{
    if ps.len() == 0 {
        0
    } else {
        polygon_points(ps.drop_last()) + ring_points(ps.last())
    }
}

/// The number of points in a geometry. A collection counts as one point.
pub open spec fn point_count<C>(g: GeometryView<C>) -> int {
    match g {
        GeometryView::Point(_) => 1,
        GeometryView::Line(_, _) => 2,
        GeometryView::LineString(v) => v.len() as int,
        GeometryView::Polygon(p) => ring_points(p),
        GeometryView::MultiPoint(v) => v.len() as int,
        GeometryView::MultiLineString(ls) => line_points(ls),
        GeometryView::MultiPolygon(ps) => polygon_points(ps),
        GeometryView::GeometryCollection(_) => 1,
        GeometryView::Other => 1,
    }
}

/// Roughly what a geometry takes up in the feature store: 16 bytes a point, and
/// something on top.
pub open spec fn geometry_bytes(points: Option<int>) -> int {
    match points {
        Some(n) => n * 16 + 8,
        None => 0,
    }
}

/// The fields after the properties of one more feature.
pub open spec fn with_samples(
    fields: Seq<FieldView>,
    props: Seq<(Seq<char>, PropView, int)>,
) -> Seq<FieldView>
    decreases props.len(),
{
    if props.len() == 0 {
        fields
    } else {
        let p = props.last();
        with_sample(with_samples(fields, props.drop_last()), p.0, p.2, kind_label(p.1))
    }
}

/// What has been sampled.
#[verifier::ext_equal]
pub struct SampleView {
    pub lines: int,
    pub bytes: int,
    pub record_bytes: int,
    pub fields: Seq<FieldView>,
}

/// The sample after one more line that is not blank. Its length counts with its
/// line end; only a line that holds a feature is a sampled line.
pub open spec fn with_line(
    s: SampleView,
    content_bytes: int,
    feature: Option<FeatureSizes>,
) -> SampleView {
    match feature {
        None => SampleView { bytes: capped(s.bytes + content_bytes + 1), ..s },
        Some(f) => SampleView {
            lines: s.lines + 1,
            bytes: capped(s.bytes + content_bytes + 1),
            record_bytes: capped(s.record_bytes + geometry_bytes(f.points) + f.props_bytes),
            fields: with_samples(s.fields, f.props),
        },
    }
}

spec fn tally_views(fields: Seq<FieldTally>) -> Seq<FieldView> {
    Seq::new(fields.len(), |i: int| tally_view(fields[i]))
}

pub open spec fn sample_views(fields: Seq<FieldSample>) -> Seq<SampleOfField> {
    Seq::new(fields.len(), |i: int| fields[i]@)
}

/// What is told of the sampled fields.
pub open spec fn told_of_all(fields: Seq<FieldView>) -> Seq<SampleOfField> {
    Seq::new(fields.len(), |i: int| told_of(fields[i]))
}

/// A kind was seen of every field.
pub open spec fn kinds_seen(fields: Seq<FieldView>) -> bool {
    forall|i: int| 0 <= i < fields.len() ==> (#[trigger] fields[i]).kinds.len() > 0
}

/// Sums up the first features of an input.
pub struct Sampler {
    lines: usize,
    bytes: u64,
    record_bytes: u64,
    fields: Vec<FieldTally>,
}

proof fn lemma_points_nonneg<C>(ls: Seq<Seq<C>>)
    ensures
        line_points(ls) >= 0,
    decreases ls.len(),
{
    if ls.len() > 0 {
        lemma_points_nonneg(ls.drop_last());
    }
}

fn count_lines(ls: &Vec<Vec<Coord>>) -> (n: u64)
    ensures
        n == capped(line_points(line_shapes(ls@))),
{
    let ghost all = line_shapes(ls@);
    let mut n: u64 = 0;
    let mut i: usize = 0;
    assert(all.take(0) =~= Seq::<Seq<Coord>>::empty());
    while i < ls.len()
        invariant
            i <= ls.len(),
            all == line_shapes(ls@),
            n == capped(line_points(all.take(i as int))),
        decreases ls.len() - i,
    {
        proof {
            lemma_points_nonneg(all.take(i as int));
            assert(all.take(i + 1).drop_last() =~= all.take(i as int));
            assert(all.take(i + 1).last() == ls@[i as int]@);
        }
        n = add_capped(n, ls[i].len() as u64);
        i = i + 1;
    }
    assert(all.take(i as int) =~= all);
    n
}

fn count_rings(p: &Polygon<Coord>) -> (n: u64)
    ensures
        n == capped(ring_points(p.shape())),
{
    proof {
        lemma_points_nonneg(p.shape().interiors);
    }
    add_capped(p.exterior.len() as u64, count_lines(&p.interiors))
}

proof fn lemma_polygon_points_nonneg<C>(ps: Seq<PolygonShape<C>>)
    ensures
        polygon_points(ps) >= 0,
    decreases ps.len(),
{
    if ps.len() > 0 {
        lemma_polygon_points_nonneg(ps.drop_last());
        lemma_points_nonneg(ps.last().interiors);
    }
}

fn count_polygons(ps: &Vec<Polygon<Coord>>) -> (n: u64)
    ensures
        n == capped(polygon_points(polygon_shapes(ps@))),
{
    let ghost all = polygon_shapes(ps@);
    let mut n: u64 = 0;
    let mut i: usize = 0;
    assert(all.take(0) =~= Seq::<PolygonShape<Coord>>::empty());
    while i < ps.len()
        invariant
            i <= ps.len(),
            all == polygon_shapes(ps@),
            n == capped(polygon_points(all.take(i as int))),
        decreases ps.len() - i,
    {
        proof {
            lemma_polygon_points_nonneg(all.take(i as int));
            lemma_points_nonneg(all[i as int].interiors);
            assert(all.take(i + 1).drop_last() =~= all.take(i as int));
            assert(all.take(i + 1).last() == ps@[i as int].shape());
        }
        n = add_capped(n, count_rings(&ps[i]));
        i = i + 1;
    }
    assert(all.take(i as int) =~= all);
    n
}

/// Count the points in a geometry.
pub fn count_points(g: &Geometry<Coord>) -> (n: u64)
    ensures
        n == capped(point_count(geometry_view(*g))),
{
    match g {
        Geometry::Point(_) => 1,
        Geometry::Line(_, _) => 2,
        Geometry::LineString(v) => v.len() as u64,
        Geometry::Polygon(p) => count_rings(p),
        Geometry::MultiPoint(v) => v.len() as u64,
        Geometry::MultiLineString(ls) => count_lines(ls),
        Geometry::MultiPolygon(ps) => count_polygons(ps),
        Geometry::GeometryCollection(_) => 1,
        Geometry::Other => 1,
    }
}

fn count_bytes(points: Option<u64>) -> (n: u64)
    ensures
        n == capped(
            geometry_bytes(
                match points {
                    Some(k) => Some(k as int),
                    None => None,
                },
            ),
        ),
{
    match points {
        None => 0,
        Some(k) => {
            let n: u128 = k as u128 * 16 + 8;
            if n > u64::MAX as u128 {
                u64::MAX
            } else {
                n as u64
            }
        },
    }
}

impl View for Sampler {
    type V = SampleView;

    closed spec fn view(&self) -> SampleView {
        SampleView {
            lines: self.lines as int,
            bytes: self.bytes as int,
            record_bytes: self.record_bytes as int,
            fields: tally_views(self.fields@),
        }
    }
}

impl Sampler {
    /// The fields stand in the order of their names, and the sample is no larger
    /// than it has to be.
    pub open spec fn wf(&self) -> bool {
        in_name_order(self@.fields) && kinds_seen(self@.fields) && self@.lines <= SAMPLE_LINES
    }

    /// Nothing has been sampled.
    pub fn new() -> (s: Sampler)
        ensures
            s.wf(),
            s@ == (SampleView { lines: 0, bytes: 0, record_bytes: 0, fields: Seq::empty() }),
    {
        let s = Sampler { lines: 0, bytes: 0, record_bytes: 0, fields: Vec::new() };
        assert(s@ =~= (SampleView { lines: 0, bytes: 0, record_bytes: 0, fields: Seq::empty() }));
        s
    }

    /// The sample is large enough.
    pub open spec fn full(&self) -> bool {
        self@.lines >= SAMPLE_LINES
    }

    /// Whether the sample is large enough.
    pub fn is_full(&self) -> (r: bool)
        ensures
            r == self.full(),
    {
        self.lines >= SAMPLE_LINES
    }

    fn add_value(&mut self, name: &str, bytes: u64, kind: &'static str)
        requires
            old(self).wf(),
        ensures
            final(self).wf(),
            tally_views(final(self).fields@) == with_sample(
                tally_views(old(self).fields@),
                name@,
                bytes as int,
                kind@,
            ),
            final(self).lines == old(self).lines,
            final(self).bytes == old(self).bytes,
            final(self).record_bytes == old(self).record_bytes,
    {
        let ghost before = tally_views(self.fields@);
        let mut i: usize = 0;
        while i < self.fields.len() && !same_text(self.fields[i].name.as_str(), name) && !comes_before(
            name,
            self.fields[i].name.as_str(),
        )
            invariant
                i <= self.fields.len(),
                self == old(self),
                before == tally_views(self.fields@),
                forall|k: int|
                    0 <= k < i ==> (#[trigger] before[k]).name != name@ && !text_less(
                        name@,
                        before[k].name,
                    ),
            decreases self.fields.len() - i,
        {
            assert(before[i as int].name == self.fields@[i as int].name@);
            i = i + 1;
        }
        proof {
            if i < self.fields.len() {
                assert(before[i as int].name == self.fields@[i as int].name@);
            }
            lemma_with_sample_at(before, name@, bytes as int, kind@, i as int);
            samples_stay_in_order(before, name@, bytes as int, kind@);
        }
        if i < self.fields.len() && same_text(self.fields[i].name.as_str(), name) {
            let sum: u64 = add_capped(self.fields[i].value_bytes, bytes);
            let times: u64 = add_capped(self.fields[i].present, 1);
            self.fields[i].value_bytes = sum;
            self.fields[i].present = times;
            add_kind(&mut self.fields[i].kinds, kind);
            proof {
                let next = before.update(
                    i as int,
                    FieldView {
                        value_bytes: capped(before[i as int].value_bytes + bytes),
                        present: capped(before[i as int].present + 1),
                        kinds: with_kind(before[i as int].kinds, kind@),
                        ..before[i as int]
                    },
                );
                assert(tally_views(self.fields@) =~= next);
            }
        } else {
            let new = FieldTally {
                name: name.to_owned(),
                value_bytes: bytes,
                present: 1,
                kinds: vec![(kind, 1)],
            };
            let ghost view = tally_view(new);
            assert(view.kinds =~= seq![(kind@, 1int)]);
            self.fields.insert(i, new);
            assert(tally_views(self.fields@) =~= before.insert(i as int, view));
        }
    }

    /// Take in a line that is not blank: its length, and the feature in it.
    pub fn add_line(&mut self, content_bytes: u64, feature: &Option<SampledFeature>)
        requires
            old(self).wf(),
            !old(self).full(),
        ensures
            final(self).wf(),
            final(self)@ == with_line(
                old(self)@,
                content_bytes as int,
                match *feature {
                    Some(f) => Some(f@),
                    None => None,
                },
            ),
    {
        self.bytes = add_capped(add_capped(self.bytes, content_bytes), 1);
        match feature {
            None => {
                assert(self@ =~= with_line(old(self)@, content_bytes as int, None));
            },
            Some(f) => {
                let ghost start = tally_views(self.fields@);
                let ghost props = sized_views(f.props@);
                let mut i: usize = 0;
                proof {
                    assert(props.take(0) =~= Seq::<(Seq<char>, PropView, int)>::empty());
                }
                while i < f.props.len()
                    invariant
                        i <= f.props.len(),
                        props == sized_views(f.props@),
                        self.wf(),
                        tally_views(self.fields@) == with_samples(start, props.take(i as int)),
                        self.lines == old(self).lines,
                        self.bytes == capped(old(self).bytes + content_bytes + 1),
                        self.record_bytes == old(self).record_bytes,
                    decreases f.props.len() - i,
                {
                    proof {
                        assert(props.take(i + 1).drop_last() =~= props.take(i as int));
                        assert(props.take(i + 1).last() == props[i as int]);
                    }
                    self.add_value(
                        f.props[i].0.as_str(),
                        f.props[i].2,
                        json_kind(&f.props[i].1),
                    );
                    i = i + 1;
                }
                proof {
                    assert(props.take(i as int) =~= props);
                }
                self.record_bytes = add_capped(
                    add_capped(self.record_bytes, count_bytes(f.points)),
                    f.props_bytes,
                );
                self.lines = self.lines + 1;
                assert(self@ =~= with_line(old(self)@, content_bytes as int, Some(f@)));
            },
        }
    }

    /// Take in the text of a line that is not blank.
    pub fn add_text(&mut self, content: &str)
        requires
            old(self).wf(),
            !old(self).full(),
        ensures
            final(self).wf(),
            final(self)@ == with_line(
                old(self)@,
                encode_utf8(content@).len() as int,
                sizes_of(content@),
            ),
    {
        let bytes: u64 = content.as_bytes().len() as u64;
        let feature = read_sizes(content);
        self.add_line(bytes, &feature);
    }

    /// Take in a line of the input, unless it is blank or the sample is large enough.
    /// Says whether to go on.
    pub fn take_line(&mut self, line: &str) -> (go_on: bool)
        requires
            old(self).wf(),
        ensures
            final(self).wf(),
            go_on == !final(self).full(),
            final(self)@ == (if old(self).full() || line_content(line@).len() == 0 {
                old(self)@
            } else {
                with_line(
                    old(self)@,
                    encode_utf8(line_content(line@)).len() as int,
                    sizes_of(line_content(line@)),
                )
            }),
    {
        if !self.is_full() {
            match feature_line(line) {
                Some(text) => self.add_text(text.as_str()),
                None => {},
            }
        }
        !self.is_full()
    }

    /// The number of sampled features, their bytes with line ends, the sum of
    /// their store records, and the fields.
    pub fn finish(self) -> (r: (usize, u64, u64, Vec<FieldSample>))
        requires
            self.wf(),
        ensures
            r.0 == self@.lines,
            r.1 == self@.bytes,
            r.2 == self@.record_bytes,
            sample_views(r.3@) == told_of_all(self@.fields),
            in_name_order(self@.fields),
    {
        let ghost all = tally_views(self.fields@);
        let mut told: Vec<FieldSample> = Vec::new();
        let mut i: usize = 0;
        while i < self.fields.len()
            invariant
                i <= self.fields.len(),
                all == tally_views(self.fields@),
                kinds_seen(all),
                sample_views(told@) == told_of_all(all).take(i as int),
            decreases self.fields.len() - i,
        {
            let ghost before = sample_views(told@);
            assert(all[i as int].kinds.len() > 0);
            let kind = most_common_kind(&self.fields[i].kinds);
            told.push(
                FieldSample {
                    name: self.fields[i].name.clone(),
                    value_bytes: self.fields[i].value_bytes,
                    present: self.fields[i].present,
                    kind,
                },
            );
            i = i + 1;
            proof {
                assert(sample_views(told@) =~= before.push(told_of_all(all)[i - 1]));
                assert(sample_views(told@) =~= told_of_all(all).take(i as int));
            }
        }
        assert(told_of_all(all).take(i as int) =~= told_of_all(all));
        (self.lines, self.bytes, self.record_bytes, told)
    }
}

/// The properties, each with the length of its value as JSON.
pub open spec fn sized_props(members: Seq<(Seq<char>, Seq<char>)>) -> Seq<
    (Seq<char>, PropView, int),
> {
    Seq::new(
        members.len(),
        |i: int|
            (members[i].0, value_read(members[i].1), encode_utf8(members[i].1).len() as int),
    )
}

/// The sizes of the feature in a text, if there is one. Its points are those that
/// stand in the text; a geometry that cannot be read counts as none.
pub open spec fn sizes_of(text: Seq<char>) -> Option<FeatureSizes> {
    match feature_parsed(text) {
        Err(_) => None,
        Ok((geometry, members)) => Some(
            FeatureSizes {
                points: match (geometry, wkb_read(coordinates_written(text), 0)) {
                    (Some(_), Some((g, _))) => Some(capped(point_count(g))),
                    _ => None,
                },
                props: sized_props(members_or_none(members)),
                props_bytes: match members {
                    Some(m) => encode_utf8(object_text(m)).len() as int,
                    None => 0,
                },
            },
        ),
    }
}

fn measure_props(members: &Vec<(String, String)>) -> (r: Vec<(String, PropValue, u64)>)
    ensures
        sized_views(r@) == sized_props(member_views(members@)),
{
    let ghost wanted = sized_props(member_views(members@));
    let mut r: Vec<(String, PropValue, u64)> = Vec::new();
    let mut i: usize = 0;
    while i < members.len()
        invariant
            i <= members.len(),
            wanted == sized_props(member_views(members@)),
            sized_views(r@) == wanted.take(i as int),
        decreases members.len() - i,
    {
        let ghost before = sized_views(r@);
        let bytes: u64 = members[i].1.as_str().as_bytes().len() as u64;
        r.push((members[i].0.clone(), read_value(members[i].1.as_str()), bytes));
        i = i + 1;
        proof {
            assert(sized_views(r@) =~= before.push(wanted[i - 1]));
            assert(sized_views(r@) =~= wanted.take(i as int));
        }
    }
    assert(wanted.take(i as int) =~= wanted);
    r
}

fn read_sizes(text: &str) -> (r: Option<SampledFeature>)
    ensures
        match sizes_of(text@) {
            Some(s) => r matches Some(f) && f@ == s,
            None => r is None,
        },
{
    let feature = match parse_feature(text) {
        Ok(f) => f,
        Err(_) => return None,
    };
    let points: Option<u64> = match &feature.wkb {
        None => None,
        Some(_) => match read_geometry(write_coordinates(text).as_slice(), 0) {
            Some((g, _)) => Some(count_points(&g)),
            None => None,
        },
    };
    match feature.members {
        Some(m) => {
            let props = measure_props(&m);
            let json = write_object(&m);
            let props_bytes: u64 = json.as_str().as_bytes().len() as u64;
            Some(SampledFeature { points, props, props_bytes })
        },
        None => {
            let f = SampledFeature { points, props: Vec::new(), props_bytes: 0 };
            assert(f@.props =~= sized_props(Seq::empty()));
            Some(f)
        },
    }
}

/// The costs with the highest first.
pub open spec fn inverted(costs: Seq<u64>) -> Seq<u64> {
    Seq::new(costs.len(), |i: int| (u64::MAX - costs[i]) as u64)
}

/// The positions of the fields, the heaviest first; among equals the earlier
/// comes first.
pub fn heaviest_first(costs: &Vec<u64>) -> (order: Vec<usize>)
    ensures
        is_stable_order(inverted(costs@), positions(order@)),
{
    let mut keys: Vec<u64> = Vec::new();
    let mut i: usize = 0;
    while i < costs.len()
        invariant
            i <= costs.len(),
            keys@ == inverted(costs@).take(i as int),
        decreases costs.len() - i,
    {
        keys.push(u64::MAX - costs[i]);
        i = i + 1;
        assert(keys@ =~= inverted(costs@).take(i as int));
    }
    assert(inverted(costs@).take(i as int) =~= inverted(costs@));
    stable_order(&keys)
}

/// Every sampled field is told of, with its name, its bytes and how often it was there, and
/// with a kind that was seen as often as any other.
pub proof fn every_sampled_field_is_told_of(fields: Seq<FieldView>, i: int, k: int)
    requires
        kinds_seen(fields),
        0 <= i < fields.len(),
        0 <= k < fields[i].kinds.len(),
    ensures
        told_of_all(fields).len() == fields.len(),
        told_of_all(fields)[i].name == fields[i].name,
        told_of_all(fields)[i].value_bytes == fields[i].value_bytes,
        told_of_all(fields)[i].present == fields[i].present,
        exists|m: int|
            0 <= m < fields[i].kinds.len() && (#[trigger] fields[i].kinds[m]).0 == told_of_all(
                fields,
            )[i].kind && fields[i].kinds[k].1 <= fields[i].kinds[m].1,
{
    let kinds = fields[i].kinds;
    the_most_common_kind_is_told(kinds);
    assert(kinds[most_common(kinds)].0 == told_of_all(fields)[i].kind);
}

} // verus!
