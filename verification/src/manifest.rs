//! What an archive says of its layers: names, attribute types, geometry types.

use vstd::hash_map::StringHashMap;
use vstd::prelude::*;

use crate::bake_args::text_option;
use crate::error::{BakeError, BakeErrorView};
use crate::pipeline::{compression_label, compression_name, BakeConfig};
use crate::props::{json_type_name, type_label, PropValue};
use crate::text::{same_text, text_views};
use crate::tile_encode::{interned, lemma_place_found, lemma_place_push, place};

verus! {

/// An attribute of a layer and the type of its values.
#[derive(Debug)]
pub struct FieldInfo {
    pub name: String,
    pub field_type: String,
}

/// A layer: its attributes and the kinds of geometry in it.
#[derive(Debug)]
pub struct LayerInfo {
    pub name: String,
    pub fields: Vec<FieldInfo>,
    pub geometry_types: Vec<String>,
}

/// The attributes as pairs of a name and a type.
pub open spec fn field_views(fields: Seq<FieldInfo>) -> Seq<(Seq<char>, Seq<char>)> {
    Seq::new(fields.len(), |i: int| (fields[i].name@, fields[i].field_type@))
}

/// The names of the attributes.
pub open spec fn field_names(fields: Seq<(Seq<char>, Seq<char>)>) -> Seq<Seq<char>> {
    Seq::new(fields.len(), |i: int| fields[i].0)
}

/// The attributes after one more value has been seen: a new attribute has the
/// type of the value, and one whose values differ in type is mixed.
pub open spec fn noted(
    fields: Seq<(Seq<char>, Seq<char>)>,
    name: Seq<char>,
    label: Seq<char>,
) -> Seq<(Seq<char>, Seq<char>)> {
    match place(field_names(fields), name) {
        None => fields.push((name, label)),
        Some(i) => if fields[i].1 == label {
            fields
        } else {
            fields.update(i, (name, "mixed"@))
        },
    }
}

/// The attributes after several values have been seen.
pub open spec fn noted_all(
    fields: Seq<(Seq<char>, Seq<char>)>,
    seen: Seq<(Seq<char>, Seq<char>)>,
) -> Seq<(Seq<char>, Seq<char>)>
    decreases seen.len(),
{
    if seen.len() == 0 {
        fields
    } else {
        noted(noted_all(fields, seen.drop_last()), seen.last().0, seen.last().1)
    }
}

/// What has been seen first and what was seen later sum up to the same as all of it.
pub proof fn noting_goes_on(
    fields: Seq<(Seq<char>, Seq<char>)>,
    first: Seq<(Seq<char>, Seq<char>)>,
    later: Seq<(Seq<char>, Seq<char>)>,
)
    ensures
        noted_all(fields, first + later) == noted_all(noted_all(fields, first), later),
    decreases later.len(),
{
    if later.len() == 0 {
        assert(first + later =~= first);
    } else {
        assert((first + later).drop_last() =~= first + later.drop_last());
        noting_goes_on(fields, first, later.drop_last());
    }
}

/// All values that were seen under a name have the type `label`.
pub open spec fn all_labelled(
    seen: Seq<(Seq<char>, Seq<char>)>,
    name: Seq<char>,
    label: Seq<char>,
) -> bool {
    forall|i: int| 0 <= i < seen.len() && (#[trigger] seen[i]).0 == name ==> seen[i].1 == label
}

/// A name was seen.
pub open spec fn was_seen(seen: Seq<(Seq<char>, Seq<char>)>, name: Seq<char>) -> bool {
    exists|i: int| 0 <= i < seen.len() && (#[trigger] seen[i]).0 == name
}

/// The schema sums up what was seen: it lists exactly the names that were seen,
/// each once, with the type that all values under the name have in common, or as
/// mixed where they have none.
pub proof fn schema_sums_up(seen: Seq<(Seq<char>, Seq<char>)>)
    ensures
        field_names(noted_all(Seq::empty(), seen)).no_duplicates(),
        forall|name: Seq<char>| #[trigger]
            was_seen(seen, name) <==> field_names(noted_all(Seq::empty(), seen)).contains(name),
        forall|k: int|
            0 <= k < noted_all(Seq::empty(), seen).len() ==> {
                let f = #[trigger] noted_all(Seq::empty(), seen)[k];
                ||| all_labelled(seen, f.0, f.1)
                ||| f.1 == "mixed"@ && forall|label: Seq<char>| !all_labelled(seen, f.0, label)
            },
    decreases seen.len(),
{
    let fields = noted_all(Seq::empty(), seen);
    if seen.len() == 0 {
        assert forall|name: Seq<char>| #[trigger] was_seen(seen, name) <==> field_names(
            fields,
        ).contains(name) by {}
    } else {
        let rest = seen.drop_last();
        let (name, label) = seen.last();
        let prev = noted_all(Seq::<(Seq<char>, Seq<char>)>::empty(), rest);
        schema_sums_up(rest);
        let names = field_names(prev);
        lemma_place_found(names, name);
        match place(names, name) {
            None => {
                assert(field_names(fields) =~= names.push(name));
                assert(!names.contains(name));
            },
            Some(i) => {
                assert(field_names(fields) =~= names);
                assert(names[i] == name);
            },
        }
        assert forall|n: Seq<char>| #[trigger] was_seen(seen, n) <==> field_names(fields).contains(
            n,
        ) by {
            lemma_seen_push(rest, seen.last(), n);
            assert(seen =~= rest.push(seen.last()));
            assert(was_seen(rest, n) <==> names.contains(n));
            if place(names, name) is None {
                assert(names.push(name)[names.len() as int] == name);
                if names.contains(n) {
                    let j = choose|j: int| 0 <= j < names.len() && names[j] == n;
                    assert(names.push(name)[j] == n);
                }
            }
        }
        assert forall|k: int| 0 <= k < fields.len() implies {
            let f = #[trigger] fields[k];
            ||| all_labelled(seen, f.0, f.1)
            ||| f.1 == "mixed"@ && forall|l: Seq<char>| !all_labelled(seen, f.0, l)
        } by {
            assert(seen =~= rest.push(seen.last()));
            lemma_schema_entry(rest, seen.last(), prev, k);
        }
    }
}

proof fn lemma_seen_push(
    seen: Seq<(Seq<char>, Seq<char>)>,
    last: (Seq<char>, Seq<char>),
    n: Seq<char>,
)
    ensures
        was_seen(seen.push(last), n) <==> was_seen(seen, n) || last.0 == n,
{
    let more = seen.push(last);
    if was_seen(seen, n) {
        let i = choose|i: int| 0 <= i < seen.len() && (#[trigger] seen[i]).0 == n;
        assert(more[i].0 == n);
    }
    if last.0 == n {
        assert(more[seen.len() as int].0 == n);
    }
    if was_seen(more, n) && last.0 != n {
        let i = choose|i: int| 0 <= i < more.len() && (#[trigger] more[i]).0 == n;
        assert(seen[i].0 == n);
    }
}

proof fn lemma_labelled_push(
    seen: Seq<(Seq<char>, Seq<char>)>,
    last: (Seq<char>, Seq<char>),
    n: Seq<char>,
    l: Seq<char>,
)
    ensures
        all_labelled(seen.push(last), n, l) <==> all_labelled(seen, n, l) && (last.0 == n ==> last.1
            == l),
{
    let more = seen.push(last);
    if all_labelled(more, n, l) {
        assert forall|i: int| 0 <= i < seen.len() && (#[trigger] seen[i]).0 == n implies seen[i].1
            == l by {
            assert(more[i] == seen[i]);
        }
        assert(more[seen.len() as int] == last);
    }
}

proof fn lemma_schema_entry(
    rest: Seq<(Seq<char>, Seq<char>)>,
    last: (Seq<char>, Seq<char>),
    prev: Seq<(Seq<char>, Seq<char>)>,
    k: int,
)
    requires
        prev == noted_all(Seq::empty(), rest),
        0 <= k < noted(prev, last.0, last.1).len(),
        field_names(prev).no_duplicates(),
        forall|name: Seq<char>| #[trigger]
            was_seen(rest, name) <==> field_names(prev).contains(name),
        forall|j: int|
            0 <= j < prev.len() ==> {
                let f = #[trigger] prev[j];
                ||| all_labelled(rest, f.0, f.1)
                ||| f.1 == "mixed"@ && forall|label: Seq<char>| !all_labelled(rest, f.0, label)
            },
    ensures
        ({
            let f = noted(prev, last.0, last.1)[k];
            let seen = rest.push(last);
            ||| all_labelled(seen, f.0, f.1)
            ||| f.1 == "mixed"@ && forall|label: Seq<char>| !all_labelled(seen, f.0, label)
        }),
{
    let names = field_names(prev);
    let seen = rest.push(last);
    let f = noted(prev, last.0, last.1)[k];
    lemma_place_found(names, last.0);
    assert forall|l: Seq<char>| #[trigger] all_labelled(seen, f.0, l) <==> all_labelled(
        rest,
        f.0,
        l,
    ) && (last.0 == f.0 ==> last.1 == l) by {
        lemma_labelled_push(rest, last, f.0, l);
    }
    match place(names, last.0) {
        None => {
            if k == prev.len() {
                assert(all_labelled(rest, f.0, f.1)) by {
                    assert(!was_seen(rest, f.0)) by {
                        assert(!names.contains(f.0));
                    }
                    assert forall|i: int| 0 <= i < rest.len() && (#[trigger] rest[i]).0
                        == f.0 implies rest[i].1 == f.1 by {
                        assert(was_seen(rest, f.0));
                    }
                }
            } else {
                assert(prev[k] == f);
                assert(names[k] == f.0);
            }
        },
        Some(i) => {
            let old = prev[k];
            assert(names[k] == old.0 && names[i] == last.0);
            if k == i {
                assert(f.0 == last.0);
                if prev[i].1 != last.1 {
                    // The value that was just seen differs from what was known.
                    assert forall|l: Seq<char>| !all_labelled(seen, f.0, l) by {
                        if all_labelled(seen, f.0, l) {
                            assert(all_labelled(rest, f.0, l));
                            assert(names.contains(f.0)) by {
                                assert(names[i] == f.0);
                            }
                            assert(was_seen(rest, f.0));
                            let m = choose|m: int|
                                0 <= m < rest.len() && (#[trigger] rest[m]).0 == f.0;
                            assert(rest[m].1 == l);
                            assert(all_labelled(rest, old.0, old.1));
                            assert(rest[m].1 == old.1);
                        }
                    }
                }
            } else {
                assert(f == old);
                assert(names[k] != names[i]);
            }
        },
    }
}

/// The values of a feature as pairs of a name and a type.
pub open spec fn labels_of(props: Seq<(String, PropValue)>) -> Seq<(Seq<char>, Seq<char>)> {
    Seq::new(props.len(), |i: int| (props[i].0@, type_label(props[i].1@)))
}

/// What has been learnt of a layer so far.
#[verifier::ext_equal]
pub struct SchemaView {
    pub fields: Seq<(Seq<char>, Seq<char>)>,
    pub kinds: Seq<Seq<char>>,
    pub stored: nat,
}

/// Collects the schema of a layer, feature after feature.
pub struct SchemaBuilder {
    fields: Vec<FieldInfo>,
    index: StringHashMap<usize>,
    kinds: Vec<String>,
    stored: Ghost<nat>,
    any: bool,
}

impl SchemaBuilder {
    /// What has been learnt so far.
    pub closed spec fn learnt(&self) -> SchemaView {
        SchemaView {
            fields: field_views(self.fields@),
            kinds: text_views(self.kinds@),
            stored: self.stored@,
        }
    }

    /// The index knows where each attribute is.
    pub closed spec fn wf(&self) -> bool {
        &&& self.any == (self.stored@ > 0)
        &&& forall|n: Seq<char>| #[trigger]
            place(field_names(field_views(self.fields@)), n) == (if self.index@.contains_key(n) {
                Some(self.index@[n] as int)
            } else {
                None
            })
    }

    /// A layer of which nothing is known.
    pub fn new() -> (b: SchemaBuilder)
        ensures
            b.wf(),
            b.learnt() == (SchemaView {
                fields: Seq::empty(),
                kinds: Seq::empty(),
                stored: 0,
            }),
    {
        let b = SchemaBuilder {
            fields: Vec::new(),
            index: StringHashMap::new(),
            kinds: Vec::new(),
            stored: Ghost(0),
            any: false,
        };
        assert(b.learnt() =~= (SchemaView {
            fields: Seq::empty(),
            kinds: Seq::empty(),
            stored: 0,
        }));
        b
    }

    /// A value of the attribute `name` was seen.
    pub fn note_value(&mut self, name: &str, label: &str)
        requires
            old(self).wf(),
        ensures
            final(self).wf(),
            final(self).learnt() == (SchemaView {
                fields: noted(old(self).learnt().fields, name@, label@),
                ..old(self).learnt()
            }),
    {
        let ghost before = field_views(self.fields@);
        let ghost names = field_names(before);
        proof {
            assert(place(names, name@) == (if self.index@.contains_key(name@) {
                Some(self.index@[name@] as int)
            } else {
                None
            }));
            lemma_place_found(names, name@);
        }
        let found: Option<usize> = match self.index.get(name) {
            Some(i) => Some(*i),
            None => None,
        };
        match found {
            Some(i) => {
                if !same_text(self.fields[i].field_type.as_str(), label) {
                    let mut mixed = "mixed".to_owned();
                    std::mem::swap(&mut self.fields[i].field_type, &mut mixed);
                    proof {
                        assert(field_views(self.fields@) =~= before.update(
                            i as int,
                            (name@, "mixed"@),
                        ));
                        assert(field_names(field_views(self.fields@)) =~= names);
                    }
                }
            },
            None => {
                let i: usize = self.fields.len();
                self.fields.push(
                    FieldInfo { name: name.to_owned(), field_type: label.to_owned() },
                );
                self.index.insert(name.to_owned(), i);
                proof {
                    assert(field_views(self.fields@) =~= before.push((name@, label@)));
                    assert(field_names(field_views(self.fields@)) =~= names.push(name@));
                    assert forall|n: Seq<char>| #[trigger]
                        place(field_names(field_views(self.fields@)), n) == (
                        if self.index@.contains_key(n) {
                            Some(self.index@[n] as int)
                        } else {
                            None
                        }) by {
                        lemma_place_push(names, name@, n);
                        assert(place(names, n) == place(names, n));
                    }
                }
            },
        }
        assert(self.learnt() =~= (SchemaView {
            fields: noted(before, name@, label@),
            ..old(self).learnt()
        }));
    }

    /// A geometry of the given kind was seen.
    pub fn note_kind(&mut self, kind: &str)
        requires
            old(self).wf(),
        ensures
            final(self).wf(),
            final(self).learnt() == (SchemaView {
                kinds: interned(old(self).learnt().kinds, kind@),
                ..old(self).learnt()
            }),
    {
        let ghost before = text_views(self.kinds@);
        let mut i: usize = 0;
        proof {
            lemma_place_found(before, kind@);
        }
        while i < self.kinds.len()
            invariant
                i <= self.kinds.len(),
                self == old(self),
                self.wf(),
                before == text_views(self.kinds@),
                forall|k: int| 0 <= k < i ==> before[k] != kind@,
                match place(before, kind@) {
                    Some(p) => 0 <= p < before.len() && before[p] == kind@,
                    None => forall|p: int| 0 <= p < before.len() ==> #[trigger] before[p] != kind@,
                },
            decreases self.kinds.len() - i,
        {
            if same_text(self.kinds[i].as_str(), kind) {
                assert(before[i as int] == kind@);
                assert(self.learnt() =~= (SchemaView {
                    kinds: interned(before, kind@),
                    ..old(self).learnt()
                }));
                return;
            }
            assert(before[i as int] == self.kinds@[i as int]@);
            i = i + 1;
        }
        self.kinds.push(kind.to_owned());
        assert(text_views(self.kinds@) =~= before.push(kind@));
        assert(self.learnt() =~= (SchemaView {
            kinds: interned(before, kind@),
            ..old(self).learnt()
        }));
    }

    /// The attributes of a feature were seen.
    pub fn note_props(&mut self, props: &Vec<(String, PropValue)>)
        requires
            old(self).wf(),
        ensures
            final(self).wf(),
            final(self).learnt() == (SchemaView {
                fields: noted_all(old(self).learnt().fields, labels_of(props@)),
                ..old(self).learnt()
            }),
    {
        let ghost all = labels_of(props@);
        let ghost before = self.learnt();
        let mut i: usize = 0;
        assert(all.take(0) =~= Seq::<(Seq<char>, Seq<char>)>::empty());
        while i < props.len()
            invariant
                i <= props.len(),
                self.wf(),
                all == labels_of(props@),
                before == old(self).learnt(),
                self.learnt() == (SchemaView {
                    fields: noted_all(before.fields, all.take(i as int)),
                    ..before
                }),
            decreases props.len() - i,
        {
            self.note_value(props[i].0.as_str(), json_type_name(&props[i].1));
            i = i + 1;
            proof {
                assert(all.take(i as int).drop_last() =~= all.take(i - 1));
                assert(all.take(i as int).last() == all[i - 1]);
            }
        }
        assert(all.take(i as int) =~= all);
    }

    /// A feature was taken into the layer.
    pub fn note_stored(&mut self)
        requires
            old(self).wf(),
        ensures
            final(self).wf(),
            final(self).learnt() == (SchemaView {
                stored: old(self).learnt().stored + 1,
                ..old(self).learnt()
            }),
    {
        self.any = true;
        self.stored = Ghost(self.stored@ + 1);
        assert(self.learnt() =~= (SchemaView {
            stored: old(self).learnt().stored + 1,
            ..old(self).learnt()
        }));
    }

    /// The finished layer; a layer without features is an error.
    pub fn finish(self, name: &str) -> (r: Result<LayerInfo, BakeError>)
        requires
            self.wf(),
        ensures
            if self.learnt().stored == 0 {
                r matches Err(e) && e@ == BakeErrorView::Empty
            } else {
                r matches Ok(info) && info.name@ == name@ && field_views(info.fields@)
                    == self.learnt().fields && text_views(info.geometry_types@)
                    == self.learnt().kinds
            },
    {
        if !self.any {
            return Err(BakeError::Empty);
        }
        Ok(
            LayerInfo {
                name: name.to_owned(),
                fields: self.fields,
                geometry_types: self.kinds,
            },
        )
    }
}

/// What is written beside an archive and into its metadata, but for its
/// coordinates.
pub struct Manifest {
    pub name: String,
    pub min_zoom: u8,
    pub max_zoom: u8,
    pub center_zoom: u8,
    pub layers: Vec<LayerInfo>,
    pub tile_compression: String,
    pub attribution: Option<String>,
}

impl Manifest {
    /// The manifest of a bake.
    pub fn new(config: &BakeConfig, layers: Vec<LayerInfo>) -> (m: Manifest)
        requires
            config.min_zoom + config.max_zoom <= u8::MAX,
        ensures
            m.name@ == config.layer_name@,
            m.min_zoom == config.min_zoom,
            m.max_zoom == config.max_zoom,
            m.center_zoom == (config.min_zoom + config.max_zoom) / 2,
            m.layers == layers,
            m.tile_compression@ == compression_label(config.compression),
            text_option(m.attribution) == text_option(config.attribution),
    {
        Manifest {
            name: config.layer_name.clone(),
            min_zoom: config.min_zoom,
            max_zoom: config.max_zoom,
            center_zoom: (config.min_zoom + config.max_zoom) / 2,
            layers,
            tile_compression: compression_name(config.compression),
            attribution: match &config.attribution {
                Some(s) => Some(s.clone()),
                None => None,
            },
        }
    }
}

} // verus!
