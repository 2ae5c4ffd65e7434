//! JSON text: objects as names with the texts of their values, and what the texts
//! of values stand for.

use serde_json::Value;
use vstd::prelude::*;
use vstd::utf8::encode_utf8;

use crate::ingest::prop_pairs;
use crate::number::{settle, settled};
use crate::props::{PropValue, PropView};
use crate::text::{
    chars_of, decimal, decimal_reads_back, is_digit, parse_unsigned, push_text, text_less, text_of,
    unsigned_value,
};

verus! {

/// Names, each with a text, as sequences.
pub open spec fn member_views(v: Seq<(String, String)>) -> Seq<(Seq<char>, Seq<char>)> {
    Seq::new(v.len(), |i: int| (v[i].0@, v[i].1@))
}

/// The members of an object, or the text of the error.
pub open spec fn object_view(r: Result<Vec<(String, String)>, String>) -> Result<
    Seq<(Seq<char>, Seq<char>)>,
    Seq<char>,
> {
    match r {
        Ok(v) => Ok(member_views(v@)),
        Err(e) => Err(e@),
    }
}

/// The names and the values, as JSON, of the object in a JSON document, or the text
/// of the error.
pub uninterp spec fn object_parsed(json: Seq<u8>) -> Result<
    Seq<(Seq<char>, Seq<char>)>,
    Seq<char>,
>;

/// What a JSON string stands for.
pub uninterp spec fn unquoted(json: Seq<char>) -> Seq<char>;

/// The JSON string that stands for a text.
pub uninterp spec fn quoted(text: Seq<char>) -> Seq<char>;

/// The bit pattern of the floating-point number that a text reads as; one pattern
/// stands for everything that is not a number.
pub uninterp spec fn number_parsed(text: Seq<char>) -> Option<u64>;

/// An object that was read, with the given members.
pub open spec fn plain_object(m: Seq<(Seq<char>, Seq<char>)>) -> Result<
    Seq<(Seq<char>, Seq<char>)>,
    Seq<char>,
> {
    Ok(m)
}

/// An integer as JSON.
pub open spec fn integer_text(n: int) -> Seq<char> {
    if n < 0 {
        seq!['-'] + decimal((-n) as nat)
    } else {
        decimal(n as nat)
    }
}

/// The JSON text is that of nothing, a truth value, an integer of 64 bits or a text.
pub open spec fn is_plain(json: Seq<char>) -> bool {
    ||| json == "null"@
    ||| json == "true"@
    ||| json == "false"@
    ||| exists|n: int| i64::MIN <= n <= u64::MAX && json == #[trigger] integer_text(n)
    ||| exists|t: Seq<char>| json == #[trigger] quoted(t)
}

/// The values are plain, and the names in their order, each listed once.
pub open spec fn are_plain(members: Seq<(Seq<char>, Seq<char>)>) -> bool {
    &&& forall|i: int| 0 <= i < members.len() ==> is_plain((#[trigger] members[i]).1)
    &&& forall|i: int, j: int|
        0 <= i < j < members.len() ==> text_less(
            (#[trigger] members[i]).0,
            (#[trigger] members[j]).0,
        )
}

/// Calls `serde_json::from_slice` for an object; each value is handed over as JSON.
///
/// Claimed: whether the bytes are an object, its members in the order of their names,
/// and the text of the error are a function of the bytes. An object whose values are
/// plain gives the members it was written from. Of other values that is not said:
/// `serde_json` may read a fraction as the number next to it.
#[verifier::external_body]
pub(crate) fn parse_object(json: &[u8]) -> (r: Result<Vec<(String, String)>, String>)
    ensures
        object_view(r) == object_parsed(json@),
        forall|m: Seq<(Seq<char>, Seq<char>)>|
            json@ == encode_utf8(#[trigger] object_text(m)) && are_plain(m) ==> object_view(r)
                == plain_object(m),
{
    match serde_json::from_slice::<serde_json::Map<String, Value>>(json) {
        Ok(members) => Ok(members.into_iter().map(|(k, v)| (k, v.to_string())).collect()),
        Err(e) => Err(e.to_string()),
    }
}

/// Calls `serde_json::from_str` for a string.
///
/// Claimed: the result is a function of the text. Text that is no JSON string
/// gives no characters.
#[verifier::external_body]
fn unquote(json: &str) -> (r: String)
    ensures
        r@ == unquoted(json@),
{
    serde_json::from_str(json).unwrap_or_default()
}

/// Calls `to_string` on a `serde_json` string value.
///
/// Claimed: the result is a function of the text, and `unquote` gives the text
/// back.
#[verifier::external_body]
fn quote(text: &str) -> (r: String)
    ensures
        r@ == quoted(text@),
        unquoted(r@) == text@,
{
    Value::String(text.to_owned()).to_string()
}

/// A bit pattern with one pattern for everything that is not a number.
pub open spec fn settled_number(n: Option<u64>) -> Option<u64> {
    match n {
        Some(bits) => Some(settled(bits)),
        None => None,
    }
}

/// Calls `str::parse` for a floating-point number, the type of a coordinate.
///
/// Claimed: whether the text reads as a number, and which, is a function of the
/// text. Of a text that reads as "not a number" the bit pattern is left open.
#[verifier::external_body]
fn parse_pattern(text: &str) -> (r: Option<u64>)
    ensures
        settled_number(r) == number_parsed(text@),
{
    let p: geo_types::Coord = geo_types::Coord { x: text.parse().ok()?, y: Default::default() };
    Some(p.x.to_bits())
}

/// Read a floating-point number.
pub(crate) fn parse_number(text: &str) -> (r: Option<u64>)
    ensures
        r == number_parsed(text@),
{
    match parse_pattern(text) {
        Some(bits) => Some(settle(bits)),
        None => None,
    }
}

/// The integer that a text spells, if 64 bits hold it.
pub open spec fn signed_value(s: Seq<char>) -> Option<int> {
    if s.len() > 0 && s[0] == '-' {
        match unsigned_value(s.skip(1), i64::MAX + 1) {
            Some(n) => Some(-n),
            None => None,
        }
    } else {
        unsigned_value(s, i64::MAX as int)
    }
}

/// Read a signed number.
pub fn parse_signed(s: &str) -> (r: Option<i64>)
    ensures
        match signed_value(s@) {
            Some(n) => r matches Some(i) && i == n,
            None => r is None,
        },
{
    let v = chars_of(s);
    if v.len() > 0 && v[0] == '-' {
        let digits = text_of(&v, 1, v.len());
        assert(digits@ =~= s@.skip(1));
        match parse_unsigned(digits.as_str(), 0x8000_0000_0000_0000) {
            None => None,
            Some(n) => if n == 0x8000_0000_0000_0000 {
                Some(i64::MIN)
            } else {
                Some(-(n as i64))
            },
        }
    } else {
        match parse_unsigned(s, 0x7fff_ffff_ffff_ffff) {
            None => None,
            Some(n) => Some(n as i64),
        }
    }
}

/// The value that a JSON text stands for. A number is an integer where 64 bits hold
/// it, else a floating-point number.
pub open spec fn value_read(json: Seq<char>) -> PropView {
    if json.len() == 0 || json[0] == 'n' {
        PropView::Null
    } else if json[0] == 't' || json[0] == 'f' {
        PropView::Bool(json[0] == 't')
    } else if json[0] == '"' {
        PropView::Text(unquoted(json))
    } else if json[0] == '[' {
        PropView::Array(json)
    } else if json[0] == '{' {
        PropView::Object(json)
    } else {
        match signed_value(json) {
            Some(n) => PropView::Int(n as i64),
            None => match number_parsed(json) {
                Some(bits) => PropView::Float(bits),
                None => PropView::Null,
            },
        }
    }
}

/// Read the value that a JSON text stands for.
pub fn read_value(json: &str) -> (r: PropValue)
    ensures
        r@ == value_read(json@),
{
    let v = chars_of(json);
    if v.len() == 0 {
        return PropValue::Null;
    }
    match v[0] {
        'n' => PropValue::Null,
        't' => PropValue::Bool(true),
        'f' => PropValue::Bool(false),
        '"' => PropValue::Text(unquote(json)),
        '[' => PropValue::Array(json.to_owned()),
        '{' => PropValue::Object(json.to_owned()),
        _ => match parse_signed(json) {
            Some(n) => PropValue::Int(n),
            None => match parse_number(json) {
                Some(bits) => PropValue::Float(bits),
                None => PropValue::Null,
            },
        },
    }
}

/// The properties that the members of an object stand for.
pub open spec fn props_read(members: Seq<(Seq<char>, Seq<char>)>) -> Seq<(Seq<char>, PropView)> {
    Seq::new(members.len(), |i: int| (members[i].0, value_read(members[i].1)))
}

/// Read the properties that the members of an object stand for.
pub fn read_props(members: &Vec<(String, String)>) -> (r: Vec<(String, PropValue)>)
    ensures
        prop_pairs(r@) == props_read(member_views(members@)),
{
    let ghost wanted = props_read(member_views(members@));
    let mut r: Vec<(String, PropValue)> = Vec::new();
    let mut i: usize = 0;
    while i < members.len()
        invariant
            i <= members.len(),
            wanted == props_read(member_views(members@)),
            prop_pairs(r@) == wanted.take(i as int),
        decreases members.len() - i,
    {
        let ghost before = prop_pairs(r@);
        r.push((members[i].0.clone(), read_value(members[i].1.as_str())));
        i = i + 1;
        proof {
            assert(prop_pairs(r@) =~= before.push(wanted[i - 1]));
            assert(prop_pairs(r@) =~= wanted.take(i as int));
        }
    }
    assert(wanted.take(i as int) =~= wanted);
    r
}

/// The members of an object, with commas between them.
pub open spec fn members_text(members: Seq<(Seq<char>, Seq<char>)>) -> Seq<char>
    decreases members.len(),
{
    if members.len() == 0 {
        Seq::empty()
    } else {
        let head = members_text(members.drop_last());
        let last = quoted(members.last().0) + seq![':'] + members.last().1;
        if members.len() == 1 {
            last
        } else {
            head + seq![','] + last
        }
    }
}

/// The object with the given members as JSON.
pub open spec fn object_text(members: Seq<(Seq<char>, Seq<char>)>) -> Seq<char> {
    seq!['{'] + members_text(members) + seq!['}']
}

/// Write an object as JSON.
pub fn write_object(members: &Vec<(String, String)>) -> (r: String)
    ensures
        r@ == object_text(member_views(members@)),
{
    proof {
        reveal_strlit("{");
        reveal_strlit(",");
        reveal_strlit(":");
        reveal_strlit("}");
    }
    let ghost all = member_views(members@);
    let mut r = "{".to_owned();
    let mut i: usize = 0;
    proof {
        assert(all.take(0) =~= Seq::<(Seq<char>, Seq<char>)>::empty());
        assert(r@ =~= seq!['{'] + members_text(all.take(0)));
    }
    while i < members.len()
        invariant
            i <= members.len(),
            all == member_views(members@),
            ","@ == seq![','],
            ":"@ == seq![':'],
            r@ == seq!['{'] + members_text(all.take(i as int)),
        decreases members.len() - i,
    {
        let ghost head = members_text(all.take(i as int));
        if i > 0 {
            push_text(&mut r, ",");
        }
        push_text(&mut r, quote(members[i].0.as_str()).as_str());
        push_text(&mut r, ":");
        push_text(&mut r, members[i].1.as_str());
        i = i + 1;
        proof {
            assert(all.take(i as int).drop_last() =~= all.take(i - 1));
            assert(all.take(i as int).last() == all[i - 1]);
            assert(r@ =~= seq!['{'] + members_text(all.take(i as int)));
        }
    }
    assert(all.take(i as int) =~= all);
    push_text(&mut r, "}");
    assert("}"@ =~= seq!['}']);
    r
}

/// An integer of 64 bits with a sign reads back from its text, and a greater one does not
/// fit.
pub proof fn integers_read_back(n: int)
    ensures
        i64::MIN <= n <= i64::MAX ==> signed_value(integer_text(n)) == Some(n),
        n < i64::MIN || n > i64::MAX ==> signed_value(integer_text(n)) is None,
        i64::MIN <= n <= i64::MAX ==> value_read(integer_text(n)) == PropView::Int(n as i64),
{
    if n < 0 {
        decimal_reads_back((-n) as nat, i64::MAX + 1);
        assert(integer_text(n).skip(1) =~= decimal((-n) as nat));
        assert(integer_text(n)[0] == '-');
    } else {
        decimal_reads_back(n as nat, i64::MAX as int);
        assert(is_digit(integer_text(n)[0]));
    }
}

/// A JSON text is read as what it is: nothing, a truth value, a text, an array, an object,
/// or a number, which is whole where 64 bits hold it.
pub proof fn json_is_read_as_what_it_is(json: Seq<char>, rest: Seq<char>)
    ensures
        value_read("null"@) == PropView::Null,
        value_read("true"@) == PropView::Bool(true),
        value_read("false"@) == PropView::Bool(false),
        value_read(seq!['"'] + rest) == PropView::Text(unquoted(seq!['"'] + rest)),
        value_read(seq!['['] + rest) == PropView::Array(seq!['['] + rest),
        value_read(seq!['{'] + rest) == PropView::Object(seq!['{'] + rest),
        json.len() > 0 && (json[0] == '-' || is_digit(json[0])) ==> value_read(json) == (
        if signed_value(json) is Some {
            PropView::Int(signed_value(json)->0 as i64)
        } else if number_parsed(json) is Some {
            PropView::Float(number_parsed(json)->0)
        } else {
            PropView::Null
        }),
{
    reveal_strlit("null");
    reveal_strlit("true");
    reveal_strlit("false");
    assert("null"@[0] == 'n' && "true"@[0] == 't' && "false"@[0] == 'f');
    assert((seq!['"'] + rest)[0] == '"');
    assert((seq!['['] + rest)[0] == '[');
    assert((seq!['{'] + rest)[0] == '{');
}

/// The text of an object holds every member, in their order: the members in front of one
/// are written as if they were alone, and a comma stands between two.
pub proof fn every_member_is_written(
    front: Seq<(Seq<char>, Seq<char>)>,
    m: (Seq<char>, Seq<char>),
)
    ensures
        object_text(Seq::empty()) == seq!['{', '}'],
        object_text(seq![m]) == seq!['{'] + (quoted(m.0) + seq![':'] + m.1) + seq!['}'],
        front.len() > 0 ==> object_text(front.push(m)) == object_text(front).drop_last() + seq![
            ',',
        ] + (quoted(m.0) + seq![':'] + m.1) + seq!['}'],
{
    assert(object_text(Seq::empty()) =~= seq!['{', '}']);
    let one = seq![m];
    assert(one.drop_last() =~= Seq::<(Seq<char>, Seq<char>)>::empty());
    assert(front.push(m).drop_last() =~= front);
    if front.len() > 0 {
        assert(object_text(front).drop_last() =~= seq!['{'] + members_text(front));
        assert(object_text(front.push(m)) =~= object_text(front).drop_last() + seq![',']
            + (quoted(m.0) + seq![':'] + m.1) + seq!['}']);
    }
}

} // verus!
