//! What can go wrong while baking.

use vstd::prelude::*;

use crate::text::push_text;

verus! {

/// What can go wrong while baking.
#[derive(Debug)]
pub enum BakeError {
    Io(String),
    GeoJson(String),
    Empty,
    Encode(String),
    Write(String),
}

/// An error with its text as a sequence of characters.
pub enum BakeErrorView {
    Io(Seq<char>),
    GeoJson(Seq<char>),
    Empty,
    Encode(Seq<char>),
    Write(Seq<char>),
}

impl View for BakeError {
    type V = BakeErrorView;

    open spec fn view(&self) -> BakeErrorView {
        match *self {
            BakeError::Io(s) => BakeErrorView::Io(s@),
            BakeError::GeoJson(s) => BakeErrorView::GeoJson(s@),
            BakeError::Empty => BakeErrorView::Empty,
            BakeError::Encode(s) => BakeErrorView::Encode(s@),
            BakeError::Write(s) => BakeErrorView::Write(s@),
        }
    }
}

/// The text of an error, for users.
pub open spec fn bake_error_text(e: BakeErrorView) -> Seq<char> {
    match e {
        BakeErrorView::Io(s) => "io: "@ + s,
        BakeErrorView::GeoJson(s) => "invalid GeoJSON: "@ + s,
        BakeErrorView::Empty => "empty feature collection — nothing to bake"@,
        BakeErrorView::Encode(s) => "mvt encode: "@ + s,
        BakeErrorView::Write(s) => "write: "@ + s,
    }
}

fn with_prefix(prefix: &str, s: &str) -> (r: String)
    ensures
        r@ == prefix@ + s@,
{
    let mut r = prefix.to_owned();
    push_text(&mut r, s);
    r
}

impl BakeError {
    /// The text of the error, for users.
    pub fn message(&self) -> (r: String)
        ensures
            r@ == bake_error_text(self@),
    {
        match self {
            BakeError::Io(s) => with_prefix("io: ", s.as_str()),
            BakeError::GeoJson(s) => with_prefix("invalid GeoJSON: ", s.as_str()),
            BakeError::Empty => "empty feature collection — nothing to bake".to_owned(),
            BakeError::Encode(s) => with_prefix("mvt encode: ", s.as_str()),
            BakeError::Write(s) => with_prefix("write: ", s.as_str()),
        }
    }
}

/// An error is told with what it comes from in front of its cause.
pub proof fn errors_are_told_with_their_cause(s: Seq<char>)
    ensures
        bake_error_text(BakeErrorView::Io(s)) == "io: "@ + s,
        bake_error_text(BakeErrorView::GeoJson(s)) == "invalid GeoJSON: "@ + s,
        bake_error_text(BakeErrorView::Encode(s)) == "mvt encode: "@ + s,
        bake_error_text(BakeErrorView::Write(s)) == "write: "@ + s,
        bake_error_text(BakeErrorView::Empty) == "empty feature collection — nothing to bake"@,
{
}

} // verus!
