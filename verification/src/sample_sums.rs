//! What a sample of features adds up to.

use vstd::prelude::*;

use crate::estimate::{
    capped, in_name_order, inverted, line_points, point_count, polygon_points, with_kind, with_line,
    with_sample, with_samples, FeatureSizes, FieldView, SampleView,
};
use crate::geometry::{GeometryView, PolygonShape};
use crate::order::{before, is_stable_order};
use crate::props::{kind_label, PropView};
use crate::text::{lemma_text_less_strict, lemma_text_less_transitive, text_less};

verus! {

/// How often a kind was seen.
pub open spec fn times_seen(kinds: Seq<(Seq<char>, int)>, kind: Seq<char>) -> int
    decreases kinds.len(),
{
    if kinds.len() == 0 {
        0
    } else if kinds[0].0 == kind {
        kinds[0].1
    } else {
        times_seen(kinds.skip(1), kind)
    }
}

/// Seeing a kind once more counts it once more, and no other kind; kinds stay in the
/// order in which they were first seen.
pub proof fn every_kind_is_counted(
    kinds: Seq<(Seq<char>, int)>,
    kind: Seq<char>,
    other: Seq<char>,
)
    ensures
        times_seen(with_kind(kinds, kind), kind) == (if exists|i: int|
            0 <= i < kinds.len() && (#[trigger] kinds[i]).0 == kind {
            capped(times_seen(kinds, kind) + 1)
        } else {
            1
        }),
        other != kind ==> times_seen(with_kind(kinds, kind), other) == times_seen(kinds, other),
        kinds.len() <= with_kind(kinds, kind).len() <= kinds.len() + 1,
        forall|i: int| 0 <= i < kinds.len() ==> (#[trigger] with_kind(kinds, kind)[i]).0 == kinds[i].0,
    decreases kinds.len(),
{
    reveal_with_fuel(times_seen, 2);
    let next = with_kind(kinds, kind);
    if kinds.len() == 0 {
        assert(next.skip(1) =~= Seq::<(Seq<char>, int)>::empty());
    } else if kinds[0].0 == kind {
        assert(next.skip(1) =~= kinds.skip(1));
        assert(exists|i: int| 0 <= i < kinds.len() && (#[trigger] kinds[i]).0 == kind);
    } else {
        let rest = kinds.skip(1);
        every_kind_is_counted(rest, kind, other);
        assert(next.skip(1) =~= with_kind(rest, kind));
        assert forall|i: int| 0 <= i < kinds.len() implies (#[trigger] next[i]).0 == kinds[i].0 by {
            if i > 0 {
                assert(next[i] == with_kind(rest, kind)[i - 1]);
                assert(rest[i - 1] == kinds[i]);
            }
        }
        if exists|i: int| 0 <= i < rest.len() && (#[trigger] rest[i]).0 == kind {
            let i = choose|i: int| 0 <= i < rest.len() && (#[trigger] rest[i]).0 == kind;
            assert(kinds[i + 1].0 == kind);
        }
        if exists|i: int| 0 <= i < kinds.len() && (#[trigger] kinds[i]).0 == kind {
            let i = choose|i: int| 0 <= i < kinds.len() && (#[trigger] kinds[i]).0 == kind;
            assert(rest[i - 1].0 == kind);
        }
    }
}

/// What was tallied of the field with the given name; nothing where it was never seen.
pub open spec fn tally_of(fields: Seq<FieldView>, name: Seq<char>) -> FieldView
    decreases fields.len(),
{
    if fields.len() == 0 {
        FieldView { name, value_bytes: 0, present: 0, kinds: Seq::empty() }
    } else if fields[0].name == name {
        fields[0]
    } else {
        tally_of(fields.skip(1), name)
    }
}

proof fn lemma_never_seen(fields: Seq<FieldView>, name: Seq<char>)
    requires
        in_name_order(fields),
        fields.len() > 0,
        text_less(name, fields[0].name),
    ensures
        tally_of(fields, name) == (FieldView {
            name,
            value_bytes: 0,
            present: 0,
            kinds: Seq::empty(),
        }),
    decreases fields.len(),
{
    lemma_text_less_strict(name);
    reveal_with_fuel(tally_of, 2);
    let rest = fields.skip(1);
    if rest.len() > 0 {
        assert(text_less(fields[0].name, fields[1].name));
        lemma_text_less_transitive(name, fields[0].name, fields[1].name);
        assert(in_name_order(rest)) by {
            assert forall|i: int, j: int| 0 <= i < j < rest.len() implies text_less(
                #[trigger] rest[i].name,
                #[trigger] rest[j].name,
            ) by {
                assert(text_less(fields[i + 1].name, fields[j + 1].name));
            }
        }
        lemma_never_seen(rest, name);
    }
}

/// One more value of a field is one more feature that carries it; its length is added
/// and its kind counted. The tallies of all other fields stay as they are.
pub proof fn every_value_is_tallied(
    fields: Seq<FieldView>,
    name: Seq<char>,
    bytes: int,
    kind: Seq<char>,
    other: Seq<char>,
)
    requires
        in_name_order(fields),
        0 <= bytes <= u64::MAX,
    ensures
        tally_of(with_sample(fields, name, bytes, kind), name) == (FieldView {
            name,
            value_bytes: capped(tally_of(fields, name).value_bytes + bytes),
            present: capped(tally_of(fields, name).present + 1),
            kinds: with_kind(tally_of(fields, name).kinds, kind),
        }),
        other != name ==> tally_of(with_sample(fields, name, bytes, kind), other) == tally_of(
            fields,
            other,
        ),
    decreases fields.len(),
{
    reveal_with_fuel(tally_of, 2);
    let next = with_sample(fields, name, bytes, kind);
    if fields.len() == 0 {
        assert(next.skip(1) =~= Seq::<FieldView>::empty());
        assert(with_kind(Seq::empty(), kind) =~= seq![(kind, 1int)]);
    } else if fields[0].name == name {
        assert(next.skip(1) =~= fields.skip(1));
    } else if text_less(name, fields[0].name) {
        assert(next.skip(1) =~= fields);
        lemma_never_seen(fields, name);
        assert(with_kind(Seq::empty(), kind) =~= seq![(kind, 1int)]);
    } else {
        let rest = fields.skip(1);
        assert(in_name_order(rest)) by {
            assert forall|i: int, j: int| 0 <= i < j < rest.len() implies text_less(
                #[trigger] rest[i].name,
                #[trigger] rest[j].name,
            ) by {
                assert(text_less(fields[i + 1].name, fields[j + 1].name));
            }
        }
        every_value_is_tallied(rest, name, bytes, kind, other);
        assert(next.skip(1) =~= with_sample(rest, name, bytes, kind));
    }
}

/// The properties of a feature are tallied one after the other, wherever their list is
/// cut in two, and a property alone as one value.
pub proof fn properties_are_tallied_in_turn(
    fields: Seq<FieldView>,
    front: Seq<(Seq<char>, PropView, int)>,
    back: Seq<(Seq<char>, PropView, int)>,
    p: (Seq<char>, PropView, int),
)
    ensures
        with_samples(fields, front + back) == with_samples(with_samples(fields, front), back),
        with_samples(fields, seq![p]) == with_sample(fields, p.0, p.2, kind_label(p.1)),
    decreases back.len(),
{
    let one = seq![p];
    assert(one.drop_last() =~= Seq::<(Seq<char>, PropView, int)>::empty());
    assert(with_samples(fields, one.drop_last()) == fields);
    if back.len() == 0 {
        assert(front + back =~= front);
    } else {
        properties_are_tallied_in_turn(fields, front, back.drop_last(), p);
        assert((front + back).drop_last() =~= front + back.drop_last());
    }
}

/// Every line that is not blank counts with its length and its line end. Only one that
/// holds a feature is a sampled line; it adds its geometry, at sixteen bytes a point and
/// eight more, the length of its properties, and the values of these. Sums stop at the
/// largest number of 64 bits.
pub proof fn every_line_is_added(s: SampleView, content_bytes: int, f: FeatureSizes)
    requires
        0 <= content_bytes,
    ensures
        ({
            let plain = with_line(s, content_bytes, None);
            let sampled = with_line(s, content_bytes, Some(f));
            let points = f.points;
            let record = s.record_bytes + f.props_bytes + if points is Some {
                16 * points->0 + 8
            } else {
                0
            };
            &&& plain.lines == s.lines && sampled.lines == s.lines + 1
            &&& plain.bytes == sampled.bytes
            &&& s.bytes + content_bytes + 1 <= u64::MAX ==> plain.bytes == s.bytes + content_bytes
                + 1
            &&& s.bytes + content_bytes + 1 > u64::MAX ==> plain.bytes == u64::MAX
            &&& plain.record_bytes == s.record_bytes && plain.fields == s.fields
            &&& record <= u64::MAX ==> sampled.record_bytes == record
            &&& record > u64::MAX ==> sampled.record_bytes == u64::MAX
            &&& sampled.fields == with_samples(s.fields, f.props)
        }),
{
}

proof fn lemma_line_points_sum<C>(a: Seq<Seq<C>>, b: Seq<Seq<C>>)
    ensures
        line_points(a + b) == line_points(a) + line_points(b),
    decreases b.len(),
{
    if b.len() == 0 {
        assert(a + b =~= a);
    } else {
        lemma_line_points_sum(a, b.drop_last());
        assert((a + b).drop_last() =~= a + b.drop_last());
    }
}

proof fn lemma_polygon_points_sum<C>(a: Seq<PolygonShape<C>>, b: Seq<PolygonShape<C>>)
    ensures
        polygon_points(a + b) == polygon_points(a) + polygon_points(b),
    decreases b.len(),
{
    if b.len() == 0 {
        assert(a + b =~= a);
    } else {
        lemma_polygon_points_sum(a, b.drop_last());
        assert((a + b).drop_last() =~= a + b.drop_last());
    }
}

/// Every point of every part of a geometry counts, holes included: the parts of a
/// geometry count as much together as apart. A collection counts as one point.
pub proof fn every_point_is_counted<C>(
    c: C,
    d: C,
    l: Seq<C>,
    a: Seq<Seq<C>>,
    b: Seq<Seq<C>>,
    ps: Seq<PolygonShape<C>>,
    qs: Seq<PolygonShape<C>>,
    gs: Seq<GeometryView<C>>,
)
    ensures
        point_count(GeometryView::Point(c)) == 1,
        point_count(GeometryView::Line(c, d)) == 2,
        point_count(GeometryView::LineString(l)) == l.len(),
        point_count(GeometryView::MultiPoint(l)) == l.len(),
        point_count(GeometryView::MultiLineString(seq![l])) == l.len(),
        point_count(GeometryView::MultiLineString(a + b)) == point_count(
            GeometryView::MultiLineString(a),
        ) + point_count(GeometryView::MultiLineString(b)),
        point_count(GeometryView::Polygon(PolygonShape { exterior: l, interiors: a })) == l.len()
            + point_count(GeometryView::MultiLineString(a)),
        ps.len() == 1 ==> point_count(GeometryView::MultiPolygon(ps)) == point_count(
            GeometryView::Polygon(ps[0]),
        ),
        point_count(GeometryView::MultiPolygon(ps + qs)) == point_count(
            GeometryView::MultiPolygon(ps),
        ) + point_count(GeometryView::MultiPolygon(qs)),
        point_count(GeometryView::GeometryCollection(gs)) == 1,
{
    lemma_line_points_sum(a, b);
    lemma_polygon_points_sum(ps, qs);
    let one = seq![l];
    assert(one.drop_last() =~= Seq::<Seq<C>>::empty());
    assert(line_points(one.drop_last()) == 0);
    if ps.len() == 1 {
        assert(ps.drop_last() =~= Seq::<PolygonShape<C>>::empty());
        assert(polygon_points(ps.drop_last()) == 0);
    }
}

/// The heaviest fields come first: each is followed by lighter ones, or by equally heavy
/// ones that stand behind it in the list.
pub proof fn heavier_fields_come_first(costs: Seq<u64>, order: Seq<int>, a: int, b: int)
    requires
        is_stable_order(inverted(costs), order),
        0 <= a < b < order.len(),
    ensures
        costs[order[a]] > costs[order[b]] || (costs[order[a]] == costs[order[b]] && order[a]
            < order[b]),
{
    assert(before(inverted(costs), order[a], order[b]));
}

} // verus!
