//! The command line of the baker.

use vstd::prelude::*;

use crate::json_text::{number_parsed, parse_number};
use crate::order::lemma_filter_push;
use crate::pipeline::TileCompression;
use crate::text::{
    first_is, list_parts, listed_text, parse_unsigned, push_text, same_text, split_list, text_views,
    unsigned_value,
};

verus! {

/// The deepest zoom level that can be asked for.
pub const MAX_ZOOM: u64 = 30;

/// What the arguments ask for.
pub struct BakeArgs {
    pub inputs: Vec<String>,
    pub layer_names: Vec<String>,
    pub min_zoom: u8,
    pub max_zoom: u8,
    pub compression: TileCompression,
    pub attribution: Option<String>,
    pub output: String,
    /// The text of the simplification factor, a number.
    pub tolerance: Option<String>,
    pub interactive: bool,
    /// The fields to keep.
    pub kept_fields: Option<Vec<String>>,
    /// The fields to drop.
    pub dropped_fields: Vec<String>,
}

/// The arguments with their texts as sequences.
#[verifier::ext_equal]
pub struct ArgsView {
    pub inputs: Seq<Seq<char>>,
    pub layer_names: Seq<Seq<char>>,
    pub min_zoom: u8,
    pub max_zoom: u8,
    pub compression: TileCompression,
    pub attribution: Option<Seq<char>>,
    pub output: Seq<char>,
    pub tolerance: Option<Seq<char>>,
    pub interactive: bool,
    pub kept_fields: Option<Seq<Seq<char>>>,
    pub dropped_fields: Seq<Seq<char>>,
}

pub open spec fn text_option(s: Option<String>) -> Option<Seq<char>> {
    match s {
        Some(t) => Some(t@),
        None => None,
    }
}

impl View for BakeArgs {
    type V = ArgsView;

    open spec fn view(&self) -> ArgsView {
        ArgsView {
            inputs: text_views(self.inputs@),
            layer_names: text_views(self.layer_names@),
            min_zoom: self.min_zoom,
            max_zoom: self.max_zoom,
            compression: self.compression,
            attribution: text_option(self.attribution),
            output: self.output@,
            tolerance: text_option(self.tolerance),
            interactive: self.interactive,
            kept_fields: match self.kept_fields {
                Some(v) => Some(text_views(v@)),
                None => None,
            },
            dropped_fields: text_views(self.dropped_fields@),
        }
    }
}

/// What is wrong with the arguments.
#[derive(Debug)]
pub enum ArgsError {
    MissingValue(String),
    MinZoom,
    MaxZoom,
    Compression(String),
    Tolerance,
    UnknownFlag(String),
    NoInput,
    InspectPath,
}

/// An error with its text as a sequence of characters.
pub enum ArgsErrorView {
    MissingValue(Seq<char>),
    MinZoom,
    MaxZoom,
    Compression(Seq<char>),
    Tolerance,
    UnknownFlag(Seq<char>),
    NoInput,
    InspectPath,
}

impl View for ArgsError {
    type V = ArgsErrorView;

    open spec fn view(&self) -> ArgsErrorView {
        match *self {
            ArgsError::MissingValue(s) => ArgsErrorView::MissingValue(s@),
            ArgsError::MinZoom => ArgsErrorView::MinZoom,
            ArgsError::MaxZoom => ArgsErrorView::MaxZoom,
            ArgsError::Compression(s) => ArgsErrorView::Compression(s@),
            ArgsError::Tolerance => ArgsErrorView::Tolerance,
            ArgsError::UnknownFlag(s) => ArgsErrorView::UnknownFlag(s@),
            ArgsError::NoInput => ArgsErrorView::NoInput,
            ArgsError::InspectPath => ArgsErrorView::InspectPath,
        }
    }
}

/// The text of an error, for users.
pub open spec fn args_error_text(e: ArgsErrorView) -> Seq<char> {
    match e {
        ArgsErrorView::MissingValue(flag) => flag + " requires a value"@,
        ArgsErrorView::MinZoom => "--min-zoom must be 0-30"@,
        ArgsErrorView::MaxZoom => "--max-zoom must be 0-30"@,
        ArgsErrorView::Compression(s) => "--compression must be gzip or brotli, got "@ + s,
        ArgsErrorView::Tolerance => "--tolerance must be a number"@,
        ArgsErrorView::UnknownFlag(s) => "unknown flag: "@ + s,
        ArgsErrorView::NoInput => "no input files provided"@,
        ArgsErrorView::InspectPath => "inspect requires a path"@,
    }
}

impl ArgsError {
    /// The text of the error, for users.
    pub fn message(&self) -> (r: String)
        ensures
            r@ == args_error_text(self@),
    {
        match self {
            ArgsError::MissingValue(flag) => {
                let mut r = flag.clone();
                push_text(&mut r, " requires a value");
                r
            },
            ArgsError::MinZoom => "--min-zoom must be 0-30".to_owned(),
            ArgsError::MaxZoom => "--max-zoom must be 0-30".to_owned(),
            ArgsError::Compression(s) => {
                let mut r = "--compression must be gzip or brotli, got ".to_owned();
                push_text(&mut r, s.as_str());
                r
            },
            ArgsError::Tolerance => "--tolerance must be a number".to_owned(),
            ArgsError::UnknownFlag(s) => {
                let mut r = "unknown flag: ".to_owned();
                push_text(&mut r, s.as_str());
                r
            },
            ArgsError::NoInput => "no input files provided".to_owned(),
            ArgsError::InspectPath => "inspect requires a path".to_owned(),
        }
    }
}

/// What an argument is.
#[derive(Debug, Clone, Copy, PartialEq, Eq, Structural)]
pub enum Flag {
    Layer,
    MinZoom,
    MaxZoom,
    Compression,
    Attribution,
    Tolerance,
    Output,
    KeepFields,
    DropFields,
    Interactive,
    Unknown,
    Input,
}

pub open spec fn flag_of(a: Seq<char>) -> Flag {
    if a == "--layer"@ || a == "--layers"@ {
        Flag::Layer
    } else if a == "--min-zoom"@ {
        Flag::MinZoom
    } else if a == "--max-zoom"@ {
        Flag::MaxZoom
    } else if a == "--compression"@ {
        Flag::Compression
    } else if a == "--attribution"@ {
        Flag::Attribution
    } else if a == "--tolerance"@ {
        Flag::Tolerance
    } else if a == "-o"@ || a == "--output"@ {
        Flag::Output
    } else if a == "--interactive"@ {
        Flag::Interactive
    } else if a == "--include-fields"@ {
        Flag::KeepFields
    } else if a == "--exclude-fields"@ {
        Flag::DropFields
    } else if a.len() > 0 && a[0] == '-' {
        Flag::Unknown
    } else {
        Flag::Input
    }
}

fn classify(a: &str) -> (f: Flag)
    ensures
        f == flag_of(a@),
{
    if same_text(a, "--layer") || same_text(a, "--layers") {
        Flag::Layer
    } else if same_text(a, "--min-zoom") {
        Flag::MinZoom
    } else if same_text(a, "--max-zoom") {
        Flag::MaxZoom
    } else if same_text(a, "--compression") {
        Flag::Compression
    } else if same_text(a, "--attribution") {
        Flag::Attribution
    } else if same_text(a, "--tolerance") {
        Flag::Tolerance
    } else if same_text(a, "-o") || same_text(a, "--output") {
        Flag::Output
    } else if same_text(a, "--interactive") {
        Flag::Interactive
    } else if same_text(a, "--include-fields") {
        Flag::KeepFields
    } else if same_text(a, "--exclude-fields") {
        Flag::DropFields
    } else if first_is(a, '-') {
        Flag::Unknown
    } else {
        Flag::Input
    }
}

/// The name by which a flag without its value is reported. Only flags that take a
/// value are.
pub open spec fn flag_name(f: Flag) -> Seq<char>
    recommends
        takes_value(f),
{
    match f {
        Flag::Layer => "--layer"@,
        Flag::MinZoom => "--min-zoom"@,
        Flag::MaxZoom => "--max-zoom"@,
        Flag::Compression => "--compression"@,
        Flag::Attribution => "--attribution"@,
        Flag::Tolerance => "--tolerance"@,
        Flag::Output => "-o"@,
        Flag::KeepFields => "--include-fields"@,
        Flag::DropFields => "--exclude-fields"@,
        _ => Seq::empty(),
    }
}

fn name_of(f: Flag) -> (r: String)
    requires
        takes_value(f),
    ensures
        r@ == flag_name(f),
{
    match f {
        Flag::Layer => "--layer".to_owned(),
        Flag::MinZoom => "--min-zoom".to_owned(),
        Flag::MaxZoom => "--max-zoom".to_owned(),
        Flag::Compression => "--compression".to_owned(),
        Flag::Attribution => "--attribution".to_owned(),
        Flag::Tolerance => "--tolerance".to_owned(),
        Flag::Output => "-o".to_owned(),
        Flag::KeepFields => "--include-fields".to_owned(),
        _ => "--exclude-fields".to_owned(),
    }
}

/// The non-empty trimmed parts of a list that is separated by commas.
pub open spec fn field_list(s: Seq<char>) -> Seq<Seq<char>> {
    list_parts(s).filter(|p: Seq<char>| p.len() > 0)
}

/// The arguments after one flag with its value.
pub open spec fn with_value(st: ArgsView, f: Flag, v: Seq<char>, number: bool) -> Result<
    ArgsView,
    ArgsErrorView,
> {
    match f {
        Flag::Layer => Ok(ArgsView { layer_names: st.layer_names + list_parts(v), ..st }),
        Flag::MinZoom => match unsigned_value(v, MAX_ZOOM as int) {
            Some(z) => Ok(ArgsView { min_zoom: z as u8, ..st }),
            None => Err(ArgsErrorView::MinZoom),
        },
        Flag::MaxZoom => match unsigned_value(v, MAX_ZOOM as int) {
            Some(z) => Ok(ArgsView { max_zoom: z as u8, ..st }),
            None => Err(ArgsErrorView::MaxZoom),
        },
        Flag::Compression => if v == "gzip"@ {
            Ok(ArgsView { compression: TileCompression::Gzip, ..st })
        } else if v == "brotli"@ {
            Ok(ArgsView { compression: TileCompression::Brotli, ..st })
        } else {
            Err(ArgsErrorView::Compression(v))
        },
        Flag::Attribution => Ok(ArgsView { attribution: Some(v), ..st }),
        Flag::Tolerance => if number {
            Ok(ArgsView { tolerance: Some(v), ..st })
        } else {
            Err(ArgsErrorView::Tolerance)
        },
        Flag::Output => Ok(ArgsView { output: v, ..st }),
        Flag::KeepFields => Ok(ArgsView { kept_fields: Some(field_list(v)), ..st }),
        _ => Ok(ArgsView { dropped_fields: st.dropped_fields + field_list(v), ..st }),
    }
}

pub open spec fn takes_value(f: Flag) -> bool {
    !(f == Flag::Interactive || f == Flag::Unknown || f == Flag::Input)
}

/// The arguments from `i` on, read one after the other. `numbers` says which of
/// them are numbers.
pub open spec fn read_args(
    args: Seq<Seq<char>>,
    numbers: Seq<bool>,
    i: int,
    st: ArgsView,
) -> Result<ArgsView, ArgsErrorView>
    decreases args.len() - i,
{
    if i >= args.len() {
        Ok(st)
    } else {
        let f = flag_of(args[i]);
        if takes_value(f) {
            if i + 1 >= args.len() {
                Err(ArgsErrorView::MissingValue(flag_name(f)))
            } else {
                match with_value(st, f, args[i + 1], numbers[i + 1]) {
                    Err(e) => Err(e),
                    Ok(next) => read_args(args, numbers, i + 2, next),
                }
            }
        } else if f == Flag::Interactive {
            read_args(args, numbers, i + 1, ArgsView { interactive: true, ..st })
        } else if f == Flag::Unknown {
            Err(ArgsErrorView::UnknownFlag(args[i]))
        } else {
            read_args(args, numbers, i + 1, ArgsView { inputs: st.inputs.push(args[i]), ..st })
        }
    }
}

/// The arguments when none is given.
pub open spec fn default_args() -> ArgsView {
    ArgsView {
        inputs: Seq::empty(),
        layer_names: Seq::empty(),
        min_zoom: 0,
        max_zoom: 14,
        compression: TileCompression::Gzip,
        attribution: None,
        output: "out.pmtiles"@,
        tolerance: None,
        interactive: false,
        kept_fields: None,
        dropped_fields: Seq::empty(),
    }
}

/// What the baker is asked to do.
pub enum BakeCommand {
    Help,
    Inspect(String),
    Bake(BakeArgs),
}

pub enum BakeCommandView {
    Help,
    Inspect(Seq<char>),
    Bake(ArgsView),
}

impl View for BakeCommand {
    type V = BakeCommandView;

    open spec fn view(&self) -> BakeCommandView {
        match *self {
            BakeCommand::Help => BakeCommandView::Help,
            BakeCommand::Inspect(p) => BakeCommandView::Inspect(p@),
            BakeCommand::Bake(a) => BakeCommandView::Bake(a@),
        }
    }
}

/// What a command line asks for.
pub open spec fn command_of(args: Seq<Seq<char>>, numbers: Seq<bool>) -> Result<
    BakeCommandView,
    ArgsErrorView,
> {
    if args.len() == 0 || args[0] == "--help"@ || args[0] == "-h"@ {
        Ok(BakeCommandView::Help)
    } else if args[0] == "inspect"@ {
        if args.len() > 1 {
            Ok(BakeCommandView::Inspect(args[1]))
        } else {
            Err(ArgsErrorView::InspectPath)
        }
    } else {
        match read_args(args, numbers, 0, default_args()) {
            Err(e) => Err(e),
            Ok(st) => if st.inputs.len() == 0 {
                Err(ArgsErrorView::NoInput)
            } else {
                Ok(BakeCommandView::Bake(st))
            },
        }
    }
}

fn split_fields(s: &str) -> (r: Vec<String>)
    ensures
        text_views(r@) == field_list(s@),
{
    let parts = split_list(s);
    let mut out: Vec<String> = Vec::new();
    let ghost all = list_parts(s@);
    let ghost keep = |p: Seq<char>| p.len() > 0;
    let mut i: usize = 0;
    proof {
        assert(all.take(0) =~= Seq::<Seq<char>>::empty());
        assert(text_views(out@) =~= all.take(0).filter(keep));
    }
    while i < parts.len()
        invariant
            i <= parts.len(),
            all == text_views(parts@),
            all == list_parts(s@),
            keep == (|p: Seq<char>| p.len() > 0),
            text_views(out@) == all.take(i as int).filter(keep),
        decreases parts.len() - i,
    {
        let ghost before = text_views(out@);
        proof {
            assert(all.take(i + 1) =~= all.take(i as int).push(all[i as int]));
            lemma_filter_push(all.take(i as int), keep, all[i as int]);
        }
        if !parts[i].as_str().is_empty() {
            out.push(parts[i].clone());
            assert(text_views(out@) =~= before.push(all[i as int]));
        }
        i = i + 1;
    }
    assert(all.take(i as int) =~= all);
    out
}

fn push_all(to: &mut Vec<String>, from: Vec<String>)
    ensures
        text_views(final(to)@) == text_views(old(to)@) + text_views(from@),
{
    let mut from = from;
    let ghost added = from@;
    to.append(&mut from);
    assert(text_views(to@) =~= text_views(old(to)@) + text_views(added));
}

fn take_value(st: BakeArgs, f: Flag, v: &String, number: bool) -> (r: Result<BakeArgs, ArgsError>)
    requires
        takes_value(f),
    ensures
        match with_value(st@, f, v@, number) {
            Ok(a) => r matches Ok(b) && b@ == a,
            Err(e) => r matches Err(x) && x@ == e,
        },
{
    let ghost before = st@;
    let mut st = st;
    match f {
        Flag::Layer => {
            let parts = split_list(v.as_str());
            push_all(&mut st.layer_names, parts);
        },
        Flag::MinZoom => match parse_unsigned(v.as_str(), MAX_ZOOM) {
            Some(z) => {
                st.min_zoom = z as u8;
            },
            None => return Err(ArgsError::MinZoom),
        },
        Flag::MaxZoom => match parse_unsigned(v.as_str(), MAX_ZOOM) {
            Some(z) => {
                st.max_zoom = z as u8;
            },
            None => return Err(ArgsError::MaxZoom),
        },
        Flag::Compression => {
            if same_text(v.as_str(), "gzip") {
                st.compression = TileCompression::Gzip;
            } else if same_text(v.as_str(), "brotli") {
                st.compression = TileCompression::Brotli;
            } else {
                return Err(ArgsError::Compression(v.clone()));
            }
        },
        Flag::Attribution => {
            st.attribution = Some(v.clone());
        },
        Flag::Tolerance => {
            if !number {
                return Err(ArgsError::Tolerance);
            }
            st.tolerance = Some(v.clone());
        },
        Flag::Output => {
            st.output = v.clone();
        },
        Flag::KeepFields => {
            st.kept_fields = Some(split_fields(v.as_str()));
        },
        _ => {
            let parts = split_fields(v.as_str());
            push_all(&mut st.dropped_fields, parts);
        },
    }
    assert(st@ =~= with_value(before, f, v@, number)->Ok_0);
    Ok(st)
}

/// Read a command line. `numbers` says for each argument whether it is a
/// number.
pub fn parse_command(args: &Vec<String>, numbers: &Vec<bool>) -> (r: Result<
    BakeCommand,
    ArgsError,
>)
    requires
        args.len() == numbers.len(),
    ensures
        match command_of(text_views(args@), numbers@) {
            Ok(c) => r matches Ok(d) && d@ == c,
            Err(e) => r matches Err(x) && x@ == e,
        },
{
    let ghost all = text_views(args@);
    if args.len() == 0 || same_text(args[0].as_str(), "--help") || same_text(
        args[0].as_str(),
        "-h",
    ) {
        return Ok(BakeCommand::Help);
    }
    if same_text(args[0].as_str(), "inspect") {
        if args.len() > 1 {
            return Ok(BakeCommand::Inspect(args[1].clone()));
        }
        return Err(ArgsError::InspectPath);
    }
    let mut st = BakeArgs {
        inputs: Vec::new(),
        layer_names: Vec::new(),
        min_zoom: 0,
        max_zoom: 14,
        compression: TileCompression::Gzip,
        attribution: None,
        output: "out.pmtiles".to_owned(),
        tolerance: None,
        interactive: false,
        kept_fields: None,
        dropped_fields: Vec::new(),
    };
    assert(st@ =~= default_args());
    let mut i: usize = 0;
    while i < args.len()
        invariant
            i <= args.len(),
            args.len() == numbers.len(),
            all == text_views(args@),
            read_args(all, numbers@, 0, default_args()) == read_args(
                all,
                numbers@,
                i as int,
                st@,
            ),
            all.len() > 0,
            command_of(all, numbers@) == (match read_args(all, numbers@, 0, default_args()) {
                Err(e) => Err(e),
                Ok(a) => if a.inputs.len() == 0 {
                    Err(ArgsErrorView::NoInput)
                } else {
                    Ok(BakeCommandView::Bake(a))
                },
            }),
        decreases args.len() - i,
    {
        let f = classify(args[i].as_str());
        assert(all[i as int] == args@[i as int]@);
        match f {
            Flag::Interactive => {
                let ghost before = st@;
                st.interactive = true;
                assert(st@ =~= (ArgsView { interactive: true, ..before }));
                i = i + 1;
            },
            Flag::Unknown => {
                return Err(ArgsError::UnknownFlag(args[i].clone()));
            },
            Flag::Input => {
                let ghost before = st@;
                st.inputs.push(args[i].clone());
                assert(st@ =~= (ArgsView { inputs: before.inputs.push(all[i as int]), ..before }));
                i = i + 1;
            },
            _ => {
                if i + 1 >= args.len() {
                    return Err(ArgsError::MissingValue(name_of(f)));
                }
                assert(all[i + 1] == args@[i + 1]@);
                st = match take_value(st, f, &args[i + 1], numbers[i + 1]) {
                    Ok(next) => next,
                    Err(e) => return Err(e),
                };
                i = i + 2;
            },
        }
    }
    if st.inputs.len() == 0 {
        return Err(ArgsError::NoInput);
    }
    Ok(BakeCommand::Bake(st))
}

/// Which of the arguments are numbers.
pub open spec fn numbers_given(args: Seq<Seq<char>>) -> Seq<bool> {
    Seq::new(args.len(), |i: int| number_parsed(args[i]) is Some)
}

/// Read a command line.
pub fn read_command(args: &Vec<String>) -> (r: Result<BakeCommand, ArgsError>)
    ensures
        match command_of(text_views(args@), numbers_given(text_views(args@))) {
            Ok(c) => r matches Ok(d) && d@ == c,
            Err(e) => r matches Err(x) && x@ == e,
        },
{
    let ghost wanted = numbers_given(text_views(args@));
    let mut numbers: Vec<bool> = Vec::new();
    let mut i: usize = 0;
    while i < args.len()
        invariant
            i <= args.len(),
            wanted == numbers_given(text_views(args@)),
            numbers@ == wanted.take(i as int),
        decreases args.len() - i,
    {
        numbers.push(parse_number(args[i].as_str()).is_some());
        i = i + 1;
        assert(numbers@ =~= wanted.take(i as int));
    }
    assert(wanted.take(i as int) =~= wanted);
    parse_command(args, &numbers)
}

/// An error names the flag or the value that it is about.
pub proof fn errors_name_what_is_wrong(s: Seq<char>)
    ensures
        args_error_text(ArgsErrorView::MissingValue(s)) == s + " requires a value"@,
        args_error_text(ArgsErrorView::Compression(s))
            == "--compression must be gzip or brotli, got "@ + s,
        args_error_text(ArgsErrorView::UnknownFlag(s)) == "unknown flag: "@ + s,
        args_error_text(ArgsErrorView::MinZoom) == "--min-zoom must be 0-30"@,
        args_error_text(ArgsErrorView::MaxZoom) == "--max-zoom must be 0-30"@,
        args_error_text(ArgsErrorView::Tolerance) == "--tolerance must be a number"@,
        args_error_text(ArgsErrorView::NoInput) == "no input files provided"@,
        args_error_text(ArgsErrorView::InspectPath) == "inspect requires a path"@,
{
}

} // verus!
