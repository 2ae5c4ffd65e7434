//! TileJSON: how clients learn about an archive.

use vstd::prelude::*;

use crate::bake_args::text_option;
use crate::manifest::{field_views, LayerInfo};
use crate::server::tiles_url;

verus! {

/// What the metadata of an archive says. Numbers in arrays, and the layers, are
/// given as JSON text.
pub struct StoredMetadata {
    pub name: Option<String>,
    pub min_zoom: Option<u64>,
    pub max_zoom: Option<u64>,
    pub bounds: Option<String>,
    pub center: Option<String>,
    pub attribution: Option<String>,
    pub layers: Option<String>,
}

/// A TileJSON 3.0 object. Arrays are JSON text.
pub struct TileJson {
    /// The version of TileJSON.
    pub tilejson: &'static str,
    pub name: String,
    pub minzoom: u64,
    pub maxzoom: u64,
    pub bounds: String,
    pub center: String,
    pub tiles: String,
    pub attribution: Option<String>,
    pub vector_layers: String,
}

/// The text, or the default.
pub open spec fn text_or(s: Option<String>, default: Seq<char>) -> Seq<char> {
    match s {
        Some(t) => t@,
        None => default,
    }
}

fn or_default(s: &Option<String>, default: &str) -> (r: String)
    ensures
        r@ == text_or(*s, default@),
{
    match s {
        Some(t) => t.clone(),
        None => default.to_owned(),
    }
}

/// The TileJSON object of the archive `set` of the server at `base`. What the
/// metadata leaves out has a default.
pub fn tile_json(base: &str, set: &str, meta: &StoredMetadata) -> (t: TileJson)
    ensures
        t.tilejson@ == "3.0.0"@,
        t.name@ == text_or(meta.name, set@),
        t.minzoom == (match meta.min_zoom {
            Some(z) => z,
            None => 0,
        }),
        t.maxzoom == (match meta.max_zoom {
            Some(z) => z,
            None => 14,
        }),
        t.bounds@ == text_or(meta.bounds, "[-180,-85,180,85]"@),
        t.center@ == text_or(meta.center, "[0,0,2]"@),
        t.tiles@ == base@ + "/tiles/"@ + set@ + "/{z}/{x}/{y}.mvt"@,
        text_option(t.attribution) == text_option(meta.attribution),
        t.vector_layers@ == text_or(meta.layers, "[]"@),
{
    TileJson {
        tilejson: "3.0.0",
        name: or_default(&meta.name, set),
        minzoom: match meta.min_zoom {
            Some(z) => z,
            None => 0,
        },
        maxzoom: match meta.max_zoom {
            Some(z) => z,
            None => 14,
        },
        bounds: or_default(&meta.bounds, "[-180,-85,180,85]"),
        center: or_default(&meta.center, "[0,0,2]"),
        tiles: tiles_url(base, set),
        attribution: match &meta.attribution {
            Some(a) => Some(a.clone()),
            None => None,
        },
        vector_layers: or_default(&meta.layers, "[]"),
    }
}

/// A layer as TileJSON describes it.
pub struct VectorLayer {
    pub id: String,
    pub minzoom: u8,
    pub maxzoom: u8,
    pub fields: Vec<(String, String)>,
}

pub open spec fn field_pairs(fields: Seq<(String, String)>) -> Seq<(Seq<char>, Seq<char>)> {
    Seq::new(fields.len(), |i: int| (fields[i].0@, fields[i].1@))
}

/// `v` describes the layer `l`.
pub open spec fn describes(v: VectorLayer, l: LayerInfo, min_zoom: u8, max_zoom: u8) -> bool {
    &&& v.id@ == l.name@
    &&& v.minzoom == min_zoom
    &&& v.maxzoom == max_zoom
    &&& field_pairs(v.fields@) == field_views(l.fields@)
}

fn describe(l: &LayerInfo, min_zoom: u8, max_zoom: u8) -> (v: VectorLayer)
    ensures
        describes(v, *l, min_zoom, max_zoom),
{
    let mut fields: Vec<(String, String)> = Vec::new();
    let mut i: usize = 0;
    while i < l.fields.len()
        invariant
            i <= l.fields.len(),
            field_pairs(fields@) == field_views(l.fields@).take(i as int),
        decreases l.fields.len() - i,
    {
        let ghost before = field_pairs(fields@);
        fields.push((l.fields[i].name.clone(), l.fields[i].field_type.clone()));
        i = i + 1;
        proof {
            assert(field_pairs(fields@) =~= before.push(field_views(l.fields@)[i - 1]));
            assert(field_pairs(fields@) =~= field_views(l.fields@).take(i as int));
        }
    }
    assert(field_views(l.fields@).take(i as int) =~= field_views(l.fields@));
    VectorLayer { id: l.name.clone(), minzoom: min_zoom, maxzoom: max_zoom, fields }
}

/// The layers of an archive as TileJSON describes them.
pub fn vector_layers(layers: &Vec<LayerInfo>, min_zoom: u8, max_zoom: u8) -> (r: Vec<VectorLayer>)
    ensures
        r@.len() == layers@.len(),
        forall|i: int|
            0 <= i < r@.len() ==> describes(#[trigger] r@[i], layers@[i], min_zoom, max_zoom),
{
    let mut r: Vec<VectorLayer> = Vec::new();
    let mut i: usize = 0;
    while i < layers.len()
        invariant
            i <= layers.len(),
            r@.len() == i,
            forall|k: int|
                0 <= k < r@.len() ==> describes(#[trigger] r@[k], layers@[k], min_zoom, max_zoom),
        decreases layers.len() - i,
    {
        r.push(describe(&layers[i], min_zoom, max_zoom));
        i = i + 1;
    }
    r
}

/// What the metadata says is told, and the default only where it says nothing.
pub proof fn defaults_stand_in_for_what_is_missing(t: String, default: Seq<char>)
    ensures
        text_or(Some(t), default) == t@,
        text_or(None, default) == default,
{
}

} // verus!
