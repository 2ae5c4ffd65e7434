//! Which property fields are kept.

use vstd::prelude::*;

use crate::bake_args::BakeArgs;
use crate::order::lemma_filter_push;
use crate::props::PropValue;
use crate::text::{listed_text, push_text, text_views};

verus! {

/// Where the set of kept fields comes from.
pub enum KeepPlan {
    /// Every field is kept.
    KeepAll,
    /// The fields of the list are kept.
    Keep(Vec<String>),
    /// The user picks them.
    Ask,
    /// The input is sampled for its fields; all but the dropped ones are kept.
    Sample,
}

/// Where the set of kept fields comes from: a list of fields to keep wins, then
/// comes the picker, then the list of fields to drop.
pub fn keep_plan(args: &BakeArgs) -> (p: KeepPlan)
    ensures
        match args.kept_fields {
            Some(list) => p matches KeepPlan::Keep(v) && text_views(v@) == text_views(list@),
            None => if args.interactive {
                p is Ask
            } else if args.dropped_fields@.len() > 0 {
                p is Sample
            } else {
                p is KeepAll
            },
        },
{
    match &args.kept_fields {
        Some(list) => KeepPlan::Keep(copy_texts(list)),
        None => if args.interactive {
            KeepPlan::Ask
        } else if args.dropped_fields.len() > 0 {
            KeepPlan::Sample
        } else {
            KeepPlan::KeepAll
        },
    }
}

pub(crate) fn copy_texts(list: &Vec<String>) -> (r: Vec<String>)
    ensures
        text_views(r@) == text_views(list@),
{
    let mut r: Vec<String> = Vec::new();
    let mut i: usize = 0;
    while i < list.len()
        invariant
            i <= list.len(),
            text_views(r@) == text_views(list@).take(i as int),
        decreases list.len() - i,
    {
        let ghost before = text_views(r@);
        r.push(list[i].clone());
        i = i + 1;
        assert(text_views(r@) =~= before.push(list@[i - 1]@));
        assert(text_views(r@) =~= text_views(list@).take(i as int));
    }
    assert(text_views(list@).take(i as int) =~= text_views(list@));
    r
}

/// The fields that are not in the list of dropped ones, in their order.
pub open spec fn undropped(fields: Seq<Seq<char>>, dropped: Seq<Seq<char>>) -> Seq<Seq<char>> {
    fields.filter(|f: Seq<char>| !dropped.contains(f))
}

/// The fields that are not in the list of dropped ones.
pub fn drop_fields(fields: &Vec<String>, dropped: &Vec<String>) -> (r: Vec<String>)
    ensures
        text_views(r@) == undropped(text_views(fields@), text_views(dropped@)),
{
    let ghost all = text_views(fields@);
    let ghost gone = text_views(dropped@);
    let ghost keep = |f: Seq<char>| !gone.contains(f);
    let mut r: Vec<String> = Vec::new();
    let mut i: usize = 0;
    proof {
        assert(all.take(0) =~= Seq::<Seq<char>>::empty());
        assert(text_views(r@) =~= all.take(0).filter(keep));
    }
    while i < fields.len()
        invariant
            i <= fields.len(),
            all == text_views(fields@),
            gone == text_views(dropped@),
            keep == (|f: Seq<char>| !gone.contains(f)),
            text_views(r@) == all.take(i as int).filter(keep),
        decreases fields.len() - i,
    {
        let ghost before = text_views(r@);
        proof {
            assert(all.take(i + 1) =~= all.take(i as int).push(all[i as int]));
            lemma_filter_push(all.take(i as int), keep, all[i as int]);
        }
        let hit: bool = listed_text(dropped, fields[i].as_str());
        proof {
            if hit {
                let k = choose|k: int|
                    0 <= k < dropped.len() && (#[trigger] dropped@[k])@ == fields@[i as int]@;
                assert(gone[k] == all[i as int]);
            } else if gone.contains(all[i as int]) {
                let k = choose|k: int| 0 <= k < gone.len() && gone[k] == all[i as int];
                assert(dropped@[k]@ == fields@[i as int]@);
            }
        }
        if !hit {
            r.push(fields[i].clone());
            assert(text_views(r@) =~= before.push(all[i as int]));
        }
        i = i + 1;
    }
    assert(all.take(i as int) =~= all);
    r
}

/// A field is kept: every field is, or this one is listed.
pub open spec fn is_kept(keep: Option<Vec<String>>, name: Seq<char>) -> bool {
    keep matches Some(list) ==> text_views(list@).contains(name)
}

/// Whether a field is kept.
pub fn keeps_field(keep: &Option<Vec<String>>, name: &str) -> (r: bool)
    ensures
        r == is_kept(*keep, name@),
{
    match keep {
        None => true,
        Some(list) => {
            let hit: bool = listed_text(list, name);
            proof {
                if hit {
                    let k = choose|k: int|
                        0 <= k < list.len() && (#[trigger] list@[k])@ == name@;
                    assert(text_views(list@)[k] == name@);
                } else if text_views(list@).contains(name@) {
                    let k = choose|k: int|
                        0 <= k < list.len() && text_views(list@)[k] == name@;
                    assert(list@[k]@ == name@);
                }
            }
            hit
        },
    }
}

/// The outcome of the interactive picker.
pub enum Choice {
    /// Proceed, keeping exactly these fields.
    Proceed(Vec<String>),
    /// The user aborted the bake.
    Abort,
}

/// The names at the chosen positions.
pub open spec fn chosen_names(fields: Seq<Seq<char>>, chosen: Seq<usize>) -> Seq<Seq<char>> {
    Seq::new(chosen.len(), |i: int| fields[chosen[i] as int])
}

/// What the user's answers come to. `chosen` holds the positions of the chosen
/// fields, or nothing where the user left the list; `confirmed` is the answer to
/// the final question. Without fields there is nothing to choose.
pub fn pick_fields(fields: &Vec<String>, chosen: &Option<Vec<usize>>, confirmed: bool) -> (c:
    Choice)
    requires
        *chosen matches Some(v) ==> forall|i: int|
            0 <= i < v.len() ==> #[trigger] v@[i] < fields.len(),
    ensures
        if fields@.len() == 0 {
            if confirmed {
                c matches Choice::Proceed(v) && v@.len() == 0
            } else {
                c is Abort
            }
        } else {
            match *chosen {
                None => c is Abort,
                Some(list) => if confirmed {
                    c matches Choice::Proceed(v) && text_views(v@) == chosen_names(
                        text_views(fields@),
                        list@,
                    )
                } else {
                    c is Abort
                },
            }
        },
{
    if fields.len() == 0 {
        return if confirmed {
            Choice::Proceed(Vec::new())
        } else {
            Choice::Abort
        };
    }
    match chosen {
        None => Choice::Abort,
        Some(list) => {
            if !confirmed {
                return Choice::Abort;
            }
            let ghost names = chosen_names(text_views(fields@), list@);
            let mut keep: Vec<String> = Vec::new();
            let mut i: usize = 0;
            while i < list.len()
                invariant
                    i <= list.len(),
                    forall|k: int| 0 <= k < list.len() ==> #[trigger] list@[k] < fields.len(),
                    names == chosen_names(text_views(fields@), list@),
                    text_views(keep@) == names.take(i as int),
                decreases list.len() - i,
            {
                let ghost before = text_views(keep@);
                keep.push(fields[list[i]].clone());
                i = i + 1;
                assert(text_views(keep@) =~= before.push(names[i - 1]));
                assert(text_views(keep@) =~= names.take(i as int));
            }
            assert(names.take(i as int) =~= names);
            Choice::Proceed(keep)
        },
    }
}

/// A line of the picker: the field, its kind and its projected cost.
pub fn field_label(name: &str, kind: &str, cost: &str) -> (r: String)
    ensures
        r@ == name@ + "   ("@ + kind@ + ", ~"@ + cost@ + ")"@,
{
    let mut r = name.to_owned();
    push_text(&mut r, "   (");
    push_text(&mut r, kind);
    push_text(&mut r, ", ~");
    push_text(&mut r, cost);
    push_text(&mut r, ")");
    r
}

/// The layer names, completed by the file stems of the inputs that have none;
/// an input without a stem is called `layer`.
pub open spec fn completed_names(
    names: Seq<Seq<char>>,
    stems: Seq<Option<Seq<char>>>,
) -> Seq<Seq<char>> {
    if names.len() >= stems.len() {
        names
    } else {
        names + Seq::new(
            (stems.len() - names.len()) as nat,
            |i: int|
                match stems[names.len() + i] {
                    Some(s) => s,
                    None => "layer"@,
                },
        )
    }
}

pub open spec fn stem_views(stems: Seq<Option<String>>) -> Seq<Option<Seq<char>>> {
    Seq::new(
        stems.len(),
        |i: int|
            match stems[i] {
                Some(s) => Some(s@),
                None => None,
            },
    )
}

/// Name the layers that have no name yet after their files.
pub fn fill_layer_names(names: Vec<String>, stems: &Vec<Option<String>>) -> (r: Vec<String>)
    ensures
        text_views(r@) == completed_names(text_views(names@), stem_views(stems@)),
{
    let ghost given = text_views(names@);
    let ghost wanted = completed_names(given, stem_views(stems@));
    let mut r = names;
    while r.len() < stems.len()
        invariant
            given.len() <= r.len(),
            r.len() <= wanted.len(),
            wanted.len() == given.len() || wanted.len() == stems.len(),
            wanted == completed_names(given, stem_views(stems@)),
            text_views(r@) == wanted.take(r.len() as int),
        decreases stems.len() - r.len(),
    {
        let k: usize = r.len();
        match &stems[k] {
            Some(s) => {
                r.push(s.clone());
            },
            None => {
                r.push("layer".to_owned());
            },
        }
        assert(text_views(r@) =~= wanted.take(r.len() as int));
    }
    assert(wanted.take(r.len() as int) =~= wanted);
    r
}

/// Layers that have a name keep it, and the others are named after their files; a file
/// without a stem is called `layer`. No name is lost, and no input goes without one.
pub proof fn every_layer_gets_a_name(names: Seq<Seq<char>>, stems: Seq<Option<Seq<char>>>, i: int)
    ensures
        completed_names(names, stems).len() == (if names.len() < stems.len() {
            stems.len()
        } else {
            names.len()
        }),
        0 <= i < names.len() ==> completed_names(names, stems)[i] == names[i],
        names.len() <= i < stems.len() ==> completed_names(names, stems)[i] == (if stems[i] is Some {
            stems[i]->0
        } else {
            "layer"@
        }),
{
}

/// Without a list every field is kept, and with one exactly those in it.
pub proof fn just_the_listed_fields_are_kept(list: Vec<String>, name: Seq<char>)
    ensures
        is_kept(None, name),
        is_kept(Some(list), name) <==> exists|i: int|
            0 <= i < list@.len() && (#[trigger] list@[i])@ == name,
{
    if exists|i: int| 0 <= i < list@.len() && (#[trigger] list@[i])@ == name {
        let i = choose|i: int| 0 <= i < list@.len() && (#[trigger] list@[i])@ == name;
        assert(text_views(list@)[i] == name);
    }
    if text_views(list@).contains(name) {
        let i = choose|i: int| 0 <= i < list@.len() && text_views(list@)[i] == name;
        assert(list@[i]@ == name);
    }
}

/// Fields are looked at one after the other: one that is dropped leaves no trace, and any
/// other one follows those before it.
pub proof fn dropped_fields_leave_no_trace(
    fields: Seq<Seq<char>>,
    field: Seq<char>,
    dropped: Seq<Seq<char>>,
)
    ensures
        undropped(Seq::empty(), dropped) == Seq::<Seq<char>>::empty(),
        dropped.contains(field) ==> undropped(fields.push(field), dropped) == undropped(
            fields,
            dropped,
        ),
        !dropped.contains(field) ==> undropped(fields.push(field), dropped) == undropped(
            fields,
            dropped,
        ).push(field),
{
    reveal(Seq::filter);
    assert(fields.push(field).drop_last() =~= fields);
}

} // verus!
