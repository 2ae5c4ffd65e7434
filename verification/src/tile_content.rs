//! What a tile shows of the features that are encoded into it.

use vstd::prelude::*;

use crate::geometry::{line_shapes, polygon_shapes, Geometry, PolygonShape};
use crate::le::low32;
use crate::props::PropView;
use crate::tile_encode::{
    command, drawn_part, drawn_parts, drawn_paths, drawn_polygon, drawn_polygons, geom_type,
    geometry_commands, interned, interning_is_faithful, known_as, layer_parts, marked_points,
    mvt_value, parameter, path_commands, place, prev_point, prop_views, step, steps, tables_after,
    tags_of, tile_bytes, tile_message, value_parts, EncodableFeature, GridPoint, MvtView, Path,
    Tables,
};

verus! {

proof fn lemma_parts_are_all(ls: Seq<Seq<GridPoint>>, ring: bool)
    ensures
        forall|i: int|
            0 <= i < drawn_parts(ls, ring).len() ==> (#[trigger] drawn_parts(ls, ring)[i]).closed
                == ring,
    decreases ls.len(),
{
    if ls.len() > 0 {
        lemma_parts_are_all(ls.skip(1), ring);
        let head = drawn_part(ls[0], ring);
        let tail = drawn_parts(ls.skip(1), ring);
        assert forall|i: int| 0 <= i < (head + tail).len() implies (
        #[trigger] (head + tail)[i]).closed == ring by {
            if i >= head.len() {
                assert(tail[i - head.len()].closed == ring);
            }
        }
    }
}

proof fn lemma_polygons_are_closed(ps: Seq<PolygonShape<GridPoint>>)
    ensures
        forall|i: int|
            0 <= i < drawn_polygons(ps).len() ==> (#[trigger] drawn_polygons(ps)[i]).closed,
    decreases ps.len(),
{
    if ps.len() > 0 {
        lemma_polygons_are_closed(ps.skip(1));
        lemma_parts_are_all(ps[0].interiors, true);
        let outer = drawn_part(ps[0].exterior, true);
        let holes = drawn_parts(ps[0].interiors, true);
        let tail = drawn_polygons(ps.skip(1));
        assert forall|i: int| 0 <= i < (outer + holes + tail).len() implies (
        #[trigger] (outer + holes + tail)[i]).closed by {
            if i >= outer.len() + holes.len() {
                assert(tail[i - outer.len() - holes.len()].closed);
            } else if i >= outer.len() {
                assert(holes[i - outer.len()].closed);
            }
        }
    }
}

/// The kind of a feature tells how it is drawn: 3 for polygons, which are drawn as
/// closed paths, 2 for lines, which are drawn as open ones, and 1 for points, which are
/// not drawn but marked.
pub proof fn the_kind_tells_how_a_feature_is_drawn(g: Geometry<GridPoint>)
    ensures
        geom_type(g) == 3 <==> g is Polygon || g is MultiPolygon,
        geom_type(g) == 2 <==> g is Line || g is LineString || g is MultiLineString,
        geom_type(g) == 1 || geom_type(g) == 2 || geom_type(g) == 3,
        marked_points(g) is Some ==> geom_type(g) == 1,
        drawn_paths(g) is Some <==> geom_type(g) != 1,
        drawn_paths(g) matches Some(paths) ==> forall|i: int|
            0 <= i < paths.len() ==> ((#[trigger] paths[i]).closed <==> geom_type(g) == 3),
        geometry_commands(g) is None <==> g is GeometryCollection || g is Other || (g is MultiPoint
            && g->MultiPoint_0@.len() == 0),
{
    match g {
        Geometry::MultiLineString(ls) => {
            lemma_parts_are_all(line_shapes(ls@), false);
        },
        Geometry::Polygon(p) => {
            let one = seq![p.shape()];
            lemma_polygons_are_closed(one);
            assert(one.skip(1) =~= Seq::<PolygonShape<GridPoint>>::empty());
            reveal_with_fuel(drawn_polygons, 2);
            assert(drawn_polygons(one) =~= drawn_polygon(p.shape()));
        },
        Geometry::MultiPolygon(ps) => {
            lemma_polygons_are_closed(polygon_shapes(ps@));
        },
        _ => {},
    }
}

/// Every line of at least two points is drawn with all its points, and every ring of at
/// least four with all of them but the last, which closes it: in their order, and
/// nothing else is drawn.
pub proof fn every_part_is_drawn(ls: Seq<Seq<GridPoint>>, ring: bool)
    ensures
        drawn_parts(ls, ring) == ls.filter(
            |l: Seq<GridPoint>|
                l.len() >= if ring {
                    4nat
                } else {
                    2
                },
        ).map_values(
            |l: Seq<GridPoint>|
                Path {
                    points: if ring {
                        l.drop_last()
                    } else {
                        l
                    },
                    closed: ring,
                },
        ),
    decreases ls.len(),
{
    let long = |l: Seq<GridPoint>|
        l.len() >= if ring {
            4nat
        } else {
            2
        };
    let path = |l: Seq<GridPoint>|
        Path {
            points: if ring {
                l.drop_last()
            } else {
                l
            },
            closed: ring,
        };
    reveal(Seq::filter);
    if ls.len() > 0 {
        let rest = ls.skip(1);
        every_part_is_drawn(rest, ring);
        lemma_filter_first(ls, long);
        if long(ls[0]) {
            assert((seq![ls[0]] + rest.filter(long)).map_values(path) =~= drawn_part(ls[0], ring)
                + rest.filter(long).map_values(path));
        } else {
            assert(drawn_part(ls[0], ring) + drawn_parts(rest, ring) =~= drawn_parts(rest, ring));
        }
    } else {
        assert(ls.filter(long).map_values(path) =~= Seq::<Path>::empty());
    }
}

proof fn lemma_filter_first<T>(s: Seq<T>, pred: spec_fn(T) -> bool)
    requires
        s.len() > 0,
    ensures
        s.filter(pred) == if pred(s[0]) {
            seq![s[0]] + s.skip(1).filter(pred)
        } else {
            s.skip(1).filter(pred)
        },
    decreases s.len(),
{
    reveal(Seq::filter);
    let rest = s.skip(1);
    if s.len() == 1 {
        assert(rest =~= Seq::<T>::empty());
        assert(s.drop_last() =~= Seq::<T>::empty());
        assert(s.last() == s[0]);
        assert(s.filter(pred) =~= if pred(s[0]) {
            seq![s[0]] + rest.filter(pred)
        } else {
            rest.filter(pred)
        });
    } else {
        lemma_filter_first(s.drop_last(), pred);
        assert(s.drop_last().skip(1) =~= rest.drop_last());
        assert(rest.last() == s.last());
        assert(s.filter(pred) =~= if pred(s[0]) {
            seq![s[0]] + rest.filter(pred)
        } else {
            rest.filter(pred)
        });
    }
}

/// Polygons are drawn one after the other, wherever their list is cut in two, and a
/// polygon alone is its outer ring followed by its holes.
pub proof fn polygons_are_drawn_in_turn(
    front: Seq<PolygonShape<GridPoint>>,
    back: Seq<PolygonShape<GridPoint>>,
    p: PolygonShape<GridPoint>,
)
    ensures
        drawn_polygons(front + back) == drawn_polygons(front) + drawn_polygons(back),
        drawn_polygons(seq![p]) == drawn_parts(seq![p.exterior] + p.interiors, true),
    decreases front.len(),
{
    let one = seq![p];
    assert(one.skip(1) =~= Seq::<PolygonShape<GridPoint>>::empty());
    let rings = seq![p.exterior] + p.interiors;
    assert(rings.skip(1) =~= p.interiors);
    reveal_with_fuel(drawn_polygons, 2);
    assert(drawn_polygons(one) =~= drawn_parts(rings, true));
    if front.len() == 0 {
        assert(front + back =~= back);
        assert(drawn_polygons(front) + drawn_polygons(back) =~= drawn_polygons(back));
    } else {
        polygons_are_drawn_in_turn(front.skip(1), back, p);
        assert((front + back).skip(1) =~= front.skip(1) + back);
        assert(drawn_polygon(front[0]) + (drawn_polygons(front.skip(1)) + drawn_polygons(back))
            =~= (drawn_polygon(front[0]) + drawn_polygons(front.skip(1))) + drawn_polygons(back));
    }
}

/// What is drawn of a geometry is drawn of its lines, or of the rings of its polygons,
/// and points are marked where they are.
pub proof fn every_kind_is_drawn_from_its_parts(g: Geometry<GridPoint>)
    ensures
        match g {
            Geometry::Point(c) => marked_points(g) == Some(seq![c]),
            Geometry::MultiPoint(cs) => cs@.len() > 0 ==> marked_points(g) == Some(cs@),
            Geometry::Line(a, b) => drawn_paths(g) == Some(drawn_parts(seq![seq![a, b]], false)),
            Geometry::LineString(cs) => drawn_paths(g) == Some(drawn_parts(seq![cs@], false)),
            Geometry::MultiLineString(ls) => drawn_paths(g) == Some(
                drawn_parts(line_shapes(ls@), false),
            ),
            Geometry::Polygon(p) => drawn_paths(g) == Some(drawn_polygons(seq![p.shape()])),
            Geometry::MultiPolygon(ps) => drawn_paths(g) == Some(
                drawn_polygons(polygon_shapes(ps@)),
            ),
            _ => drawn_paths(g) is None && marked_points(g) is None,
        },
{
    match g {
        Geometry::Line(a, b) => {
            let one = seq![seq![a, b]];
            assert(one.skip(1) =~= Seq::<Seq<GridPoint>>::empty());
            reveal_with_fuel(drawn_parts, 2);
            assert(drawn_parts(one, false) =~= drawn_part(seq![a, b], false));
        },
        Geometry::LineString(cs) => {
            let one = seq![cs@];
            assert(one.skip(1) =~= Seq::<Seq<GridPoint>>::empty());
            reveal_with_fuel(drawn_parts, 2);
            assert(drawn_parts(one, false) =~= drawn_part(cs@, false));
        },
        Geometry::Polygon(p) => {
            let one = seq![p.shape()];
            assert(one.skip(1) =~= Seq::<PolygonShape<GridPoint>>::empty());
            reveal_with_fuel(drawn_polygons, 2);
            assert(drawn_polygons(one) =~= drawn_polygon(p.shape()));
        },
        _ => {},
    }
}

/// One table goes on where the other ends.
pub open spec fn extends<T>(longer: Seq<T>, table: Seq<T>) -> bool {
    table.len() <= longer.len() && longer.take(table.len() as int) == table
}

proof fn lemma_interned_extends<T>(longer: Seq<T>, table: Seq<T>, v: T)
    requires
        extends(longer, interned(table, v)),
    ensures
        extends(longer, table),
{
    assert(longer.take(table.len() as int) =~= table) by {
        let next = interned(table, v);
        assert forall|i: int| 0 <= i < table.len() implies longer[i] == #[trigger] table[i] by {
            assert(next[i] == table[i]);
            assert(longer.take(next.len() as int)[i] == longer[i]);
        }
    }
}

proof fn lemma_tables_extend(t: Tables, props: Seq<(Seq<char>, MvtView)>, full: Tables)
    requires
        extends(full.keys, tables_after(t, props).keys),
        extends(full.values, tables_after(t, props).values),
    ensures
        extends(full.keys, t.keys),
        extends(full.values, t.values),
    decreases props.len(),
{
    if props.len() > 0 {
        let head = tables_after(t, props.drop_last());
        lemma_interned_extends(full.keys, head.keys, props.last().0);
        lemma_interned_extends(full.values, head.values, props.last().1);
        lemma_tables_extend(t, props.drop_last(), full);
    }
}

/// Pair `j` of the tags leads to property `j`: to its name in the table of names and to
/// its value in the table of values.
pub open spec fn tag_leads_to(
    full: Tables,
    tags: Seq<u32>,
    props: Seq<(Seq<char>, MvtView)>,
    j: int,
) -> bool {
    &&& tags[2 * j] < full.keys.len()
    &&& tags[2 * j + 1] < full.values.len()
    &&& full.keys[tags[2 * j] as int] == props[j].0
    &&& full.values[tags[2 * j + 1] as int] == props[j].1
}

/// The tags of a feature lead to its properties, one pair to each.
pub open spec fn tags_lead_to(
    full: Tables,
    tags: Seq<u32>,
    props: Seq<(Seq<char>, MvtView)>,
) -> bool {
    tags.len() == 2 * props.len() && forall|j: int|
        0 <= j < props.len() ==> #[trigger] tag_leads_to(full, tags, props, j)
}

proof fn lemma_known_leads<T>(table: Seq<T>, v: T, full: Seq<T>)
    requires
        extends(full, interned(table, v)),
        full.len() <= 0x1_0000_0000,
    ensures
        known_as(interned(table, v), v) is Some,
        known_as(interned(table, v), v)->0 < full.len(),
        full[known_as(interned(table, v), v)->0 as int] == v,
{
    interning_is_faithful(table, v);
    let next = interned(table, v);
    let i = place(next, v)->0;
    assert(low32(i) == i);
    assert(full.take(next.len() as int)[i] == full[i]);
}

proof fn lemma_tags_lead(t: Tables, props: Seq<(Seq<char>, MvtView)>, full: Tables)
    requires
        extends(full.keys, tables_after(t, props).keys),
        extends(full.values, tables_after(t, props).values),
        full.keys.len() <= 0x1_0000_0000,
        full.values.len() <= 0x1_0000_0000,
    ensures
        tags_lead_to(full, tags_of(t, props), props),
    decreases props.len(),
{
    if props.len() > 0 {
        let rest = props.drop_last();
        let head = tables_after(t, rest);
        let last = props.last();
        lemma_interned_extends(full.keys, head.keys, last.0);
        lemma_interned_extends(full.values, head.values, last.1);
        lemma_tags_lead(t, rest, full);
        lemma_known_leads(head.keys, last.0, full.keys);
        lemma_known_leads(head.values, last.1, full.values);
        let tags = tags_of(t, props);
        let before = tags_of(t, rest);
        assert forall|j: int| 0 <= j < props.len() implies #[trigger] tag_leads_to(
            full,
            tags,
            props,
            j,
        ) by {
            if j < rest.len() {
                assert(tag_leads_to(full, before, rest, j));
                assert(rest[j] == props[j]);
                assert(tags[2 * j] == before[2 * j]);
                assert(tags[2 * j + 1] == before[2 * j + 1]);
            }
        }
    }
}

proof fn lemma_layer_leads(fs: Seq<EncodableFeature>, full: Tables)
    requires
        extends(full.keys, layer_parts(fs).1.keys),
        extends(full.values, layer_parts(fs).1.values),
        full.keys.len() <= 0x1_0000_0000,
        full.values.len() <= 0x1_0000_0000,
    ensures
        ({
            let shown = fs.filter(|f: EncodableFeature| geometry_commands(f.geom) is Some);
            let written = layer_parts(fs).0;
            &&& written.len() == shown.len()
            &&& forall|k: int|
                0 <= k < written.len() ==> (#[trigger] written[k]).0 == geom_type(shown[k].geom)
                    && Some(written[k].2) == geometry_commands(shown[k].geom) && tags_lead_to(
                    full,
                    written[k].1,
                    prop_views(shown[k].props@),
                )
        }),
    decreases fs.len(),
{
    let drawable = |f: EncodableFeature| geometry_commands(f.geom) is Some;
    reveal(Seq::filter);
    if fs.len() > 0 {
        let f = fs.last();
        let t = layer_parts(fs.drop_last()).1;
        let props = prop_views(f.props@);
        if drawable(f) {
            lemma_tables_extend(t, props, full);
            lemma_tags_lead(t, props, full);
        }
        lemma_layer_leads(fs.drop_last(), full);
    }
}

/// The features of a layer are those that a tile can represent, in their order, each
/// with its kind, its commands and tags that lead to its properties in the tables of
/// the layer, as long as 32 bits can number the entries of the tables.
pub proof fn every_drawable_feature_is_written(fs: Seq<EncodableFeature>)
    requires
        layer_parts(fs).1.keys.len() <= 0x1_0000_0000,
        layer_parts(fs).1.values.len() <= 0x1_0000_0000,
    ensures
        ({
            let shown = fs.filter(|f: EncodableFeature| geometry_commands(f.geom) is Some);
            let (written, t) = layer_parts(fs);
            &&& written.len() == shown.len()
            &&& forall|k: int|
                0 <= k < written.len() ==> (#[trigger] written[k]).0 == geom_type(shown[k].geom)
                    && Some(written[k].2) == geometry_commands(shown[k].geom) && tags_lead_to(
                    t,
                    written[k].1,
                    prop_views(shown[k].props@),
                )
        }),
{
    let t = layer_parts(fs).1;
    assert(t.keys.take(t.keys.len() as int) =~= t.keys);
    assert(t.values.take(t.values.len() as int) =~= t.values);
    lemma_layer_leads(fs, t);
}

/// A value keeps its type and what it says: a truth value, an integer, a floating-point
/// number and a text stay what they are, and everything else is given as text. It is
/// written in exactly one of four parts.
pub proof fn values_keep_their_type(s: Seq<char>, b: bool, i: i64, d: u64)
    ensures
        mvt_value(PropView::Bool(b)) == MvtView::Bool(b),
        mvt_value(PropView::Int(i)) == MvtView::Sint(i),
        mvt_value(PropView::Float(d)) == MvtView::Double(d),
        mvt_value(PropView::Text(s)) == MvtView::Text(s),
        mvt_value(PropView::Array(s)) == MvtView::Text(s),
        mvt_value(PropView::Object(s)) == MvtView::Text(s),
        mvt_value(PropView::Null) == MvtView::Text("null"@),
        value_parts(MvtView::Text(s)) == (Some(s), None::<u64>, None::<i64>, None::<bool>),
        value_parts(MvtView::Double(d)) == (None::<Seq<char>>, Some(d), None::<i64>, None::<bool>),
        value_parts(MvtView::Sint(i)) == (None::<Seq<char>>, None::<u64>, Some(i), None::<bool>),
        value_parts(MvtView::Bool(b)) == (None::<Seq<char>>, None::<u64>, None::<i64>, Some(b)),
{
}

/// A command word holds what to do in its three low bits and how often above them: to move
/// is 1, to draw a line 2, to close a path 7. A parameter is twice a step forward, and one
/// less than twice a step back.
pub proof fn words_of_commands(n: int, v: int)
    requires
        0 <= n < 0x2000_0000,
        -0x4000_0000 <= v < 0x4000_0000,
    ensures
        command(1, 1) == 9,
        command(7, 1) == 15,
        command(2, n) == 8 * n + 2,
        command(1, n) == 8 * n + 1,
        v >= 0 ==> parameter(v) == 2 * v,
        v < 0 ==> parameter(v) == -2 * v - 1,
{
}

/// A path is drawn by a move to its first point, one command for the lines to all others,
/// and a last one that closes it if it is closed; a point is marked by moves alone.
pub proof fn paths_are_moves_and_lines(at: GridPoint, p: Path)
    requires
        2 <= p.points.len() < 0x2000_0000,
    ensures
        ({
            let c = path_commands(at, p);
            let n = p.points.len();
            &&& c.len() == 4 + 2 * (n - 1) + if p.closed {
                1int
            } else {
                0
            }
            &&& c[0] == 9
            &&& c[1] == parameter(p.points[0].0 - at.0)
            &&& c[2] == parameter(p.points[0].1 - at.1)
            &&& c[3] == 8 * (n - 1) + 2
            &&& forall|k: int|
                0 < k < n ==> c.subrange(2 + 2 * k, 4 + 2 * k) == step(
                    p.points[k - 1],
                    #[trigger] p.points[k],
                )
            &&& p.closed ==> c.last() == 15
        }),
{
    let first = p.points[0];
    let rest = p.points.skip(1);
    let c = path_commands(at, p);
    let way = steps(first, rest);
    lemma_steps_apart(first, rest);
    assert(c.subrange(4, 4 + way.len() as int) =~= way);
    assert forall|k: int| 0 < k < p.points.len() implies c.subrange(2 + 2 * k, 4 + 2 * k) == step(
        p.points[k - 1],
        #[trigger] p.points[k],
    ) by {
        assert(way.subrange(2 * (k - 1), 2 * k) == step(prev_point(first, rest, k - 1), rest[k - 1]));
        assert(c.subrange(2 + 2 * k, 4 + 2 * k) =~= way.subrange(2 * (k - 1), 2 * k));
        if k > 1 {
            assert(rest[k - 2] == p.points[k - 1]);
        }
    }
}

proof fn lemma_steps_apart(a: GridPoint, cs: Seq<GridPoint>)
    ensures
        steps(a, cs).len() == 2 * cs.len(),
        forall|i: int|
            0 <= i < cs.len() ==> steps(a, cs).subrange(2 * i, 2 * i + 2) == step(
                #[trigger] prev_point(a, cs, i),
                cs[i],
            ),
    decreases cs.len(),
{
    if cs.len() > 0 {
        let rest = cs.drop_last();
        lemma_steps_apart(a, rest);
        let all = steps(a, cs);
        assert forall|i: int| 0 <= i < cs.len() implies all.subrange(2 * i, 2 * i + 2) == step(
            #[trigger] prev_point(a, cs, i),
            cs[i],
        ) by {
            if i < rest.len() {
                assert(prev_point(a, cs, i) == prev_point(a, rest, i));
                assert(all.subrange(2 * i, 2 * i + 2) =~= steps(a, rest).subrange(
                    2 * i,
                    2 * i + 2,
                ));
            } else {
                assert(all.subrange(2 * i, 2 * i + 2) =~= step(prev_point(a, cs, i), cs[i]));
            }
        }
    }
}

/// A tile is a message of version 2 with one layer on a grid of 4096 steps, made up of the
/// features that were written and their tables.
pub proof fn tiles_hold_one_layer(name: Seq<char>, fs: Seq<EncodableFeature>)
    ensures
        tile_bytes(name, fs) == tile_message(
            2,
            name,
            4096,
            layer_parts(fs).0,
            layer_parts(fs).1.keys,
            layer_parts(fs).1.values.map_values(|v: MvtView| value_parts(v)),
        ),
{
}

} // verus!
