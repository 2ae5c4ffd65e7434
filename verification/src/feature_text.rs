//! GeoJSON text: features are parsed, and their geometries and properties turned
//! into plain values.

use std::str::FromStr;

use geo_types::Geometry as Shape;
use geojson::Geometry as Written;
use geojson::{Feature, GeoJson};
use geozero::geojson::GeoJson as GeoJsonText;
use geozero::{CoordDimensions, ToWkb};
use vstd::prelude::*;

use crate::geometry::geometry_view;
use crate::ingest::RawItem;
use crate::json_text::member_views;
use crate::wkb::{read_geometry, wkb_read};

verus! {

/// A parsed feature: its geometry as well-known binary and the members of its
/// properties, the values as JSON, as far as it has them.
pub struct ParsedFeature {
    pub wkb: Option<Vec<u8>>,
    pub members: Option<Vec<(String, String)>>,
}

/// A parsed feature as sequences.
pub open spec fn parsed_view(f: ParsedFeature) -> (
    Option<Seq<u8>>,
    Option<Seq<(Seq<char>, Seq<char>)>>,
) {
    (
        match f.wkb {
            Some(b) => Some(b@),
            None => None,
        },
        match f.members {
            Some(m) => Some(member_views(m@)),
            None => None,
        },
    )
}

/// A parsed feature, or the text of the error.
pub open spec fn feature_view(r: Result<ParsedFeature, String>) -> Result<
    (Option<Seq<u8>>, Option<Seq<(Seq<char>, Seq<char>)>>),
    Seq<char>,
> {
    match r {
        Ok(f) => Ok(parsed_view(f)),
        Err(e) => Err(e@),
    }
}

/// A parsed document: a collection of features, or a feature or a geometry that
/// stands alone.
pub enum ParsedDocument {
    Collection(Vec<ParsedFeature>),
    Feature(ParsedFeature),
    Geometry(Vec<u8>),
}

/// A parsed document as sequences.
pub enum DocumentView {
    Collection(Seq<(Option<Seq<u8>>, Option<Seq<(Seq<char>, Seq<char>)>>)>),
    Feature((Option<Seq<u8>>, Option<Seq<(Seq<char>, Seq<char>)>>)),
    Geometry(Seq<u8>),
}

impl View for ParsedDocument {
    type V = DocumentView;

    open spec fn view(&self) -> DocumentView {
        match *self {
            ParsedDocument::Collection(v) => DocumentView::Collection(parsed_views(v@)),
            ParsedDocument::Feature(f) => DocumentView::Feature(parsed_view(f)),
            ParsedDocument::Geometry(b) => DocumentView::Geometry(b@),
        }
    }
}

/// Parsed features as sequences.
pub open spec fn parsed_views(v: Seq<ParsedFeature>) -> Seq<
    (Option<Seq<u8>>, Option<Seq<(Seq<char>, Seq<char>)>>),
> {
    Seq::new(v.len(), |i: int| parsed_view(v[i]))
}

/// A parsed document, or the text of the error.
pub open spec fn document_view(r: Result<ParsedDocument, String>) -> Result<
    DocumentView,
    Seq<char>,
> {
    match r {
        Ok(d) => Ok(d@),
        Err(e) => Err(e@),
    }
}

/// The feature in a text: its geometry as well-known binary and the members of its
/// properties; or the text of the error.
pub uninterp spec fn feature_parsed(text: Seq<char>) -> Result<
    (Option<Seq<u8>>, Option<Seq<(Seq<char>, Seq<char>)>>),
    Seq<char>,
>;

/// The document in a text, or the text of the error.
pub uninterp spec fn document_parsed(text: Seq<char>) -> Result<DocumentView, Seq<char>>;

/// The coordinates in a text as they stand there, as well-known binary.
pub uninterp spec fn coordinates_written(text: Seq<char>) -> Seq<u8>;

/// Calls `geojson::Feature::from_str`.
///
/// The geometry is handed over by way of `geo_types`, as `geozero` writes it in
/// well-known binary (no bytes, should that fail), the values of the properties as
/// `serde_json` writes them. Claimed: the result is a function of the text.
#[verifier::external_body]
pub(crate) fn parse_feature(text: &str) -> (r: Result<ParsedFeature, String>)
    ensures
        feature_view(r) == feature_parsed(text@),
{
    let f = text.parse::<Feature>().map_err(|e| e.to_string())?;
    let wkb = |g: Shape| g.to_wkb(CoordDimensions::xy()).unwrap_or_default();
    Ok(ParsedFeature {
        wkb: f.geometry.map(|g| g.try_into().map(wkb).unwrap_or_default()),
        members: f.properties.map(|p| p.into_iter().map(|(k, v)| (k, v.to_string())).collect()),
    })
}

/// The text of a feature with the given geometry and without properties.
pub open spec fn lone_feature(geometry: Seq<char>) -> Seq<char> {
    "{\"type\":\"Feature\",\"geometry\":"@ + geometry + ",\"properties\":null}"@
}

/// The texts with commas between them.
pub open spec fn with_commas(texts: Seq<Seq<char>>) -> Seq<char>
    decreases texts.len(),
{
    if texts.len() == 0 {
        Seq::empty()
    } else if texts.len() == 1 {
        texts[0]
    } else {
        with_commas(texts.drop_last()) + seq![','] + texts.last()
    }
}

/// The text of a collection of features.
pub open spec fn collection_text(features: Seq<Seq<char>>) -> Seq<char> {
    "{\"type\":\"FeatureCollection\",\"features\":["@ + with_commas(features) + "]}"@
}

/// The text opens so few brackets that it can stand within others: parsing stops at a
/// depth of 128.
pub open spec fn is_shallow(text: Seq<char>) -> bool {
    text.filter(|c: char| c == '[' || c == '{').len() <= 100
}

/// The text is that of a geometry that can stand within a collection.
pub open spec fn is_geometry(text: Seq<char>) -> bool {
    is_shallow(text) && document_parsed(text) matches Ok(DocumentView::Geometry(_))
}

/// The texts are those of features that can stand in a collection.
pub open spec fn are_features(texts: Seq<Seq<char>>) -> bool {
    forall|i: int|
        0 <= i < texts.len() ==> is_shallow(#[trigger] texts[i]) && feature_parsed(texts[i]) is Ok
}

/// What the feature of a geometry without properties is parsed as.
pub open spec fn lone_parsed(geometry: Seq<char>) -> (
    Option<Seq<u8>>,
    Option<Seq<(Seq<char>, Seq<char>)>>,
) {
    (Some(document_parsed(geometry)->Ok_0->Geometry_0), None)
}

/// What the collection of the given features is parsed as.
pub open spec fn collected(texts: Seq<Seq<char>>) -> Result<DocumentView, Seq<char>> {
    Ok(
        DocumentView::Collection(
            Seq::new(texts.len(), |i: int| feature_parsed(texts[i])->Ok_0),
        ),
    )
}

/// What a feature that stands alone is parsed as.
pub open spec fn alone(
    f: (Option<Seq<u8>>, Option<Seq<(Seq<char>, Seq<char>)>>),
) -> Result<DocumentView, Seq<char>> {
    Ok(DocumentView::Feature(f))
}

/// What the collection of one feature is parsed as.
pub open spec fn singled(
    f: (Option<Seq<u8>>, Option<Seq<(Seq<char>, Seq<char>)>>),
) -> Result<DocumentView, Seq<char>> {
    Ok(DocumentView::Collection(seq![f]))
}

/// Calls `geojson::GeoJson::from_str`.
///
/// Geometries and properties are handed over as in `parse_feature`. Claimed: the
/// result is a function of the text. The text of a collection is parsed as the
/// features whose texts stand in it; that of a feature without properties, alone or
/// in a collection, as the feature of the geometry whose text stands in it.
#[verifier::external_body]
fn parse_document(text: &str) -> (r: Result<ParsedDocument, String>)
    ensures
        document_view(r) == document_parsed(text@),
        forall|g: Seq<char>|
            text@ == #[trigger] lone_feature(g) && is_geometry(g) ==> document_view(r) == alone(
                lone_parsed(g),
            ),
        forall|g: Seq<char>|
            text@ == collection_text(seq![#[trigger] lone_feature(g)]) && is_geometry(g)
                ==> document_view(r) == singled(lone_parsed(g)),
        forall|fs: Seq<Seq<char>>|
            text@ == #[trigger] collection_text(fs) && are_features(fs) ==> document_view(r)
                == collected(fs),
{
    let wkb = |s: Shape| s.to_wkb(CoordDimensions::xy()).unwrap_or_default();
    let bytes = |g: Written| g.try_into().map(wkb).unwrap_or_default();
    let plain = |f: Feature| ParsedFeature {
        wkb: f.geometry.map(bytes),
        members: f.properties.map(|p| p.into_iter().map(|(k, v)| (k, v.to_string())).collect()),
    };
    Ok(match GeoJson::from_str(text).map_err(|e| e.to_string())? {
        GeoJson::FeatureCollection(c) =>
            ParsedDocument::Collection(c.features.into_iter().map(plain).collect()),
        GeoJson::Feature(f) => ParsedDocument::Feature(plain(f)),
        GeoJson::Geometry(g) => ParsedDocument::Geometry(bytes(g)),
    })
}

/// Calls `geozero::ToWkb::to_wkb` on a `geozero::geojson::GeoJson`, which writes the
/// positions of a GeoJSON text one by one (no bytes, should that fail).
///
/// Claimed: the bytes are a function of the text.
#[verifier::external_body]
pub(crate) fn write_coordinates(text: &str) -> (r: Vec<u8>)
    ensures
        r@ == coordinates_written(text@),
{
    GeoJsonText(text).to_wkb(CoordDimensions::xy()).unwrap_or_default()
}

/// The features of a document: those of a collection, or the one that stands alone. A
/// geometry that stands alone is a feature without properties.
pub open spec fn listed_features(d: DocumentView) -> Seq<
    (Option<Seq<u8>>, Option<Seq<(Seq<char>, Seq<char>)>>),
> {
    match d {
        DocumentView::Collection(v) => v,
        DocumentView::Feature(f) => seq![f],
        DocumentView::Geometry(b) => seq![(Some(b), None)],
    }
}

/// List the features of a document.
pub fn list_features(d: ParsedDocument) -> (r: Vec<ParsedFeature>)
    ensures
        parsed_views(r@) == listed_features(d@),
{
    match d {
        ParsedDocument::Collection(v) => v,
        ParsedDocument::Feature(f) => {
            let r = vec![f];
            assert(parsed_views(r@) =~= listed_features(d@));
            r
        },
        ParsedDocument::Geometry(b) => {
            let r = vec![ParsedFeature { wkb: Some(b), members: None }];
            assert(parsed_views(r@) =~= listed_features(d@));
            r
        },
    }
}

/// A geometry comes to the same as a feature of it without properties, and a feature
/// to the same as a collection of it alone.
pub proof fn lone_parts_are_collections(
    wkb: Seq<u8>,
    feature: (Option<Seq<u8>>, Option<Seq<(Seq<char>, Seq<char>)>>),
)
    ensures
        listed_features(DocumentView::Geometry(wkb)) == listed_features(
            DocumentView::Feature((Some(wkb), None)),
        ),
        listed_features(DocumentView::Feature(feature)) == listed_features(
            DocumentView::Collection(seq![feature]),
        ),
{
}

/// A collection lists every feature that stands in it, as many as there are.
pub proof fn collections_list_every_feature(
    features: Seq<(Option<Seq<u8>>, Option<Seq<(Seq<char>, Seq<char>)>>)>,
)
    ensures
        listed_features(DocumentView::Collection(features)) == features,
{
}

/// The members of the properties; a feature without properties has none.
pub open spec fn members_or_none(m: Option<Seq<(Seq<char>, Seq<char>)>>) -> Seq<
    (Seq<char>, Seq<char>),
> {
    match m {
        Some(m) => m,
        None => Seq::empty(),
    }
}

/// `item` is what a parsed feature comes to.
pub open spec fn is_item(
    item: RawItem,
    parsed: (Option<Seq<u8>>, Option<Seq<(Seq<char>, Seq<char>)>>),
) -> bool {
    match parsed.0 {
        None => item matches RawItem::Feature { geometry, members } && geometry is None
            && member_views(members@) == members_or_none(parsed.1),
        Some(b) => match wkb_read(b, 0) {
            Some((view, _)) => item matches RawItem::Feature { geometry: Some(g), members }
                && geometry_view(g) == view && member_views(members@) == members_or_none(parsed.1),
            None => item matches RawItem::Unreadable(s) && s@ == "the geometry cannot be read"@,
        },
    }
}

/// What a parsed feature comes to: its geometry is decoded.
pub fn item_of(f: ParsedFeature) -> (item: RawItem)
    ensures
        is_item(item, parsed_view(f)),
{
    let members: Vec<(String, String)> = match f.members {
        Some(m) => m,
        None => Vec::new(),
    };
    proof {
        if f.members is None {
            assert(member_views(members@) =~= Seq::<(Seq<char>, Seq<char>)>::empty());
        }
    }
    match f.wkb {
        None => RawItem::Feature { geometry: None, members },
        Some(b) => match read_geometry(b.as_slice(), 0) {
            Some((g, _)) => RawItem::Feature { geometry: Some(g), members },
            None => RawItem::Unreadable("the geometry cannot be read".to_owned()),
        },
    }
}

/// `item` is what a parsed feature, or the error in its place, comes to.
pub open spec fn is_read(
    item: RawItem,
    parsed: Result<(Option<Seq<u8>>, Option<Seq<(Seq<char>, Seq<char>)>>), Seq<char>>,
) -> bool {
    match parsed {
        Ok(f) => is_item(item, f),
        Err(t) => item matches RawItem::Unreadable(s) && s@ == t,
    }
}

/// Read the feature in a text.
pub fn read_feature(text: &str) -> (item: RawItem)
    ensures
        is_read(item, feature_parsed(text@)),
{
    match parse_feature(text) {
        Ok(f) => item_of(f),
        Err(t) => RawItem::Unreadable(t),
    }
}

/// `items` are what parsed features come to.
pub open spec fn are_items(
    items: Seq<RawItem>,
    parsed: Seq<(Option<Seq<u8>>, Option<Seq<(Seq<char>, Seq<char>)>>)>,
) -> bool {
    items.len() == parsed.len() && forall|i: int|
        0 <= i < items.len() ==> is_item(#[trigger] items[i], parsed[i])
}

/// Read the features of a document: a collection, or a feature or a geometry that
/// stands alone.
pub fn read_document(text: &str) -> (r: Result<Vec<RawItem>, String>)
    ensures
        forall|g: Seq<char>|
            text@ == #[trigger] lone_feature(g) && is_geometry(g) ==> document_parsed(text@)
                == alone(lone_parsed(g)),
        forall|g: Seq<char>|
            text@ == collection_text(seq![#[trigger] lone_feature(g)]) && is_geometry(g)
                ==> document_parsed(text@) == singled(lone_parsed(g)),
        forall|fs: Seq<Seq<char>>|
            text@ == #[trigger] collection_text(fs) && are_features(fs) ==> document_parsed(text@)
                == collected(fs),
        match document_parsed(text@) {
            Ok(d) => r matches Ok(items) && are_items(items@, listed_features(d)),
            Err(t) => r matches Err(s) && s@ == t,
        },
{
    match parse_document(text) {
        Err(t) => Err(t),
        Ok(d) => Ok(items_of(list_features(d))),
    }
}

/// What parsed features come to.
pub fn items_of(given: Vec<ParsedFeature>) -> (items: Vec<RawItem>)
    ensures
        are_items(items@, parsed_views(given@)),
{
    let ghost all = given@;
    let mut given = given;
    let mut items: Vec<RawItem> = Vec::new();
    let mut i: usize = 0;
    while i < given.len()
        invariant
            i <= given.len(),
            given.len() == all.len(),
            items.len() == i,
            forall|k: int| i <= k < all.len() ==> #[trigger] given@[k] == all[k],
            forall|k: int| 0 <= k < i ==> is_item(#[trigger] items@[k], parsed_view(all[k])),
        decreases given.len() - i,
    {
        let ghost prev = given@;
        let mut f = ParsedFeature { wkb: None, members: None };
        std::mem::swap(&mut given[i], &mut f);
        proof {
            assert(prev[i as int] == all[i as int]);
            assert forall|k: int| i < k < all.len() implies #[trigger] given@[k] == all[k] by {
                assert(given@[k] == prev[k]);
            }
        }
        items.push(item_of(f));
        i = i + 1;
    }
    items
}

} // verus!
