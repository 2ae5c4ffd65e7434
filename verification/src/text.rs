//! Text as sequences of characters.

use vstd::prelude::*;
use vstd::utf8::{decode_utf8, encode_utf8, encode_utf8_decode_utf8};

verus! {

/// `String::push` appends the character.
pub assume_specification[ String::push ](s: &mut String, c: char)
    ensures
        final(s)@ == old(s)@.push(c),
;

/// The text in lower case.
pub uninterp spec fn lowercase_of(s: Seq<char>) -> Seq<char>;

/// Calls `str::to_lowercase`.
///
/// Claimed: the result depends on the text alone.
#[verifier::external_body]
pub(crate) fn to_lowercase(s: &str) -> (r: String)
    ensures
        r@ == lowercase_of(s@),
{
    s.to_lowercase()
}

/// The characters of a text.
pub fn chars_of(s: &str) -> (v: Vec<char>)
    ensures
        v@ == s@,
{
    let mut v: Vec<char> = Vec::new();
    for c in it: s.chars()
        invariant
            it.seq() == s@,
            v@ == s@.take(it.index() as int),
    {
        v.push(c);
        assert(v@ =~= s@.take(it.index() + 1));
    }
    assert(s@.take(s@.len() as int) =~= s@);
    v
}

/// Append characters `from` up to `to` of `v`.
pub fn push_chars(out: &mut String, v: &Vec<char>, from: usize, to: usize)
    requires
        from <= to <= v.len(),
    ensures
        final(out)@ == old(out)@ + v@.subrange(from as int, to as int),
{
    let mut i: usize = from;
    while i < to
        invariant
            from <= i <= to <= v.len(),
            out@ == old(out)@ + v@.subrange(from as int, i as int),
        decreases to - i,
    {
        out.push(v[i]);
        i = i + 1;
        assert(out@ =~= old(out)@ + v@.subrange(from as int, i as int));
    }
    assert(out@ =~= old(out)@ + v@.subrange(from as int, to as int));
}

/// Characters `from` up to `to` of `v` as a text.
pub fn text_of(v: &Vec<char>, from: usize, to: usize) -> (s: String)
    requires
        from <= to <= v.len(),
    ensures
        s@ == v@.subrange(from as int, to as int),
{
    let mut s = String::new();
    push_chars(&mut s, v, from, to);
    assert(s@ =~= v@.subrange(from as int, to as int));
    s
}

/// Append a text.
pub fn push_text(out: &mut String, s: &str)
    ensures
        final(out)@ == old(out)@ + s@,
{
    let v = chars_of(s);
    push_chars(out, &v, 0, v.len());
    assert(v@.subrange(0, v@.len() as int) =~= v@);
}

/// Whether two texts are the same.
pub fn same_text(a: &str, b: &str) -> (r: bool)
    ensures
        r == (a@ == b@),
{
    let x = a.as_bytes();
    let y = b.as_bytes();
    proof {
        encode_utf8_decode_utf8(a@);
        encode_utf8_decode_utf8(b@);
    }
    if x.len() != y.len() {
        return false;
    }
    let mut i: usize = 0;
    while i < x.len()
        invariant
            i <= x.len(),
            x.len() == y.len(),
            x@.take(i as int) == y@.take(i as int),
            x@ == encode_utf8(a@),
            y@ == encode_utf8(b@),
        decreases x.len() - i,
    {
        if x[i] != y[i] {
            return false;
        }
        i = i + 1;
        assert(x@.take(i as int) =~= x@.take(i - 1).push(x@[i - 1]));
        assert(y@.take(i as int) =~= y@.take(i - 1).push(y@[i - 1]));
    }
    assert(x@.take(i as int) =~= x@);
    assert(y@.take(i as int) =~= y@);
    true
}

/// Whether `s` is one of the texts in `list`.
pub fn listed_text(list: &Vec<String>, s: &str) -> (r: bool)
    ensures
        r == (exists|i: int| 0 <= i < list.len() && (#[trigger] list@[i])@ == s@),
{
    let mut i: usize = 0;
    while i < list.len()
        invariant
            i <= list.len(),
            forall|k: int| 0 <= k < i ==> (#[trigger] list@[k])@ != s@,
        decreases list.len() - i,
    {
        if same_text(list[i].as_str(), s) {
            return true;
        }
        i = i + 1;
    }
    false
}

/// The decimal digit with the value `d`.
pub open spec fn digit_char(d: int) -> char {
    ('0' as u32 + d) as char
}

/// A number in decimal.
pub open spec fn decimal(n: nat) -> Seq<char>
    decreases n,
{
    if n < 10 {
        seq![digit_char(n as int)]
    } else {
        decimal(n / 10).push(digit_char((n % 10) as int))
    }
}

fn digit(d: u64) -> (c: char)
    requires
        d < 10,
    ensures
        c == digit_char(d as int),
{
    ('0' as u8 + d as u8) as char
}

/// Append a number in decimal.
pub fn push_decimal(out: &mut String, n: u64)
    ensures
        final(out)@ == old(out)@ + decimal(n as nat),
    decreases n,
{
    if n >= 10 {
        push_decimal(out, n / 10);
    }
    let ghost before = out@;
    out.push(digit(n % 10));
    proof {
        if n >= 10 {
            assert(out@ =~= old(out)@ + decimal(n as nat));
        } else {
            assert(before == old(out)@);
            assert(out@ =~= old(out)@ + decimal(n as nat));
        }
    }
}

/// The value of a decimal digit.
pub open spec fn digit_value(c: char) -> int {
    c as u32 - '0' as u32
}

pub open spec fn is_digit(c: char) -> bool {
    '0' <= c && c <= '9'
}

/// The number that a row of decimal digits spells.
pub open spec fn digits_value(s: Seq<char>) -> int
    decreases s.len(),
{
    if s.len() == 0 {
        0
    } else {
        10 * digits_value(s.drop_last()) + digit_value(s.last())
    }
}

/// A row of decimal digits.
pub open spec fn all_digits(s: Seq<char>) -> bool {
    forall|i: int| 0 <= i < s.len() ==> is_digit(#[trigger] s[i])
}

/// The number that `s` spells, if it is at most `max`: decimal digits, at least
/// one, after an optional plus sign.
pub open spec fn unsigned_value(s: Seq<char>, max: int) -> Option<int> {
    let body = if s.len() > 0 && s[0] == '+' {
        s.skip(1)
    } else {
        s
    };
    if body.len() > 0 && all_digits(body) && digits_value(body) <= max {
        Some(digits_value(body))
    } else {
        None
    }
}

proof fn lemma_digits_grow(s: Seq<char>, n: int)
    requires
        all_digits(s),
        0 <= n <= s.len(),
    ensures
        0 <= digits_value(s.take(n)) <= digits_value(s),
    decreases s.len(),
{
    if s.len() == 0 {
        assert(s.take(n) =~= s);
    } else {
        let rest = s.drop_last();
        assert(all_digits(rest)) by {
            assert forall|i: int| 0 <= i < rest.len() implies is_digit(#[trigger] rest[i]) by {
                assert(is_digit(s[i]));
            }
        }
        assert(is_digit(s[s.len() - 1]));
        if n < s.len() {
            lemma_digits_grow(rest, n);
            assert(rest.take(n) =~= s.take(n));
        } else {
            lemma_digits_grow(rest, n - 1);
            assert(s.take(n) =~= s);
        }
    }
}

/// Read an unsigned number of at most `max`.
pub fn parse_unsigned(s: &str, max: u64) -> (r: Option<u64>)
    ensures
        match unsigned_value(s@, max as int) {
            Some(v) => r matches Some(u) && u == v,
            None => r is None,
        },
{
    let v = chars_of(s);
    let start: usize = if v.len() > 0 && v[0] == '+' {
        1
    } else {
        0
    };
    let ghost body = v@.skip(start as int);
    proof {
        if start == 0 {
            assert(body =~= s@);
        }
    }
    if v.len() == start {
        return None;
    }
    let mut acc: u64 = 0;
    let mut i: usize = start;
    assert(body.take(0) =~= Seq::<char>::empty());
    while i < v.len()
        invariant
            start <= i <= v.len(),
            start <= 1,
            body == v@.skip(start as int),
            acc == digits_value(body.take(i - start)),
            acc <= max,
            forall|k: int| 0 <= k < i - start ==> is_digit(#[trigger] body[k]),
            body.len() > 0,
            unsigned_value(s@, max as int) == (if all_digits(body) && digits_value(body) <= max {
                Some(digits_value(body))
            } else {
                None
            }),
        decreases v.len() - i,
    {
        let c: char = v[i];
        let ghost k = i - start;
        assert(body[k] == c);
        if !('0' <= c && c <= '9') {
            return None;
        }
        let d: u64 = (c as u32 - '0' as u32) as u64;
        proof {
            assert(body.take(k + 1).drop_last() =~= body.take(k));
            assert(digits_value(body.take(k + 1)) == 10 * acc + d);
            if all_digits(body) {
                lemma_digits_grow(body, k + 1);
            }
        }
        let wide: u128 = 10 * acc as u128 + d as u128;
        if wide > max as u128 {
            return None;
        }
        acc = wide as u64;
        i = i + 1;
    }
    assert(body.take(i - start) =~= body);
    Some(acc)
}

/// The white space characters of Unicode.
pub open spec fn is_space(c: char) -> bool {
    let u = c as u32;
    ||| 0x09 <= u <= 0x0d
    ||| u == 0x20
    ||| u == 0x85
    ||| u == 0xa0
    ||| u == 0x1680
    ||| 0x2000 <= u <= 0x200a
    ||| u == 0x2028
    ||| u == 0x2029
    ||| u == 0x202f
    ||| u == 0x205f
    ||| u == 0x3000
}

pub(crate) fn space(c: char) -> (r: bool)
    ensures
        r == is_space(c),
{
    let u: u32 = c as u32;
    (0x09 <= u && u <= 0x0d) || u == 0x20 || u == 0x85 || u == 0xa0 || u == 0x1680 || (0x2000 <= u
        && u <= 0x200a) || u == 0x2028 || u == 0x2029 || u == 0x202f || u == 0x205f || u == 0x3000
}

/// `s` without white space in front.
pub open spec fn trim_front(s: Seq<char>) -> Seq<char>
    decreases s.len(),
{
    if s.len() > 0 && is_space(s[0]) {
        trim_front(s.skip(1))
    } else {
        s
    }
}

/// `s` without white space behind.
pub open spec fn trim_back(s: Seq<char>) -> Seq<char>
    decreases s.len(),
{
    if s.len() > 0 && is_space(s.last()) {
        trim_back(s.drop_last())
    } else {
        s
    }
}

/// `s` without white space at either end.
pub open spec fn trimmed(s: Seq<char>) -> Seq<char> {
    trim_back(trim_front(s))
}

/// Trim a range of characters: where the range starts and ends without the
/// white space.
pub fn trim_range(v: &Vec<char>, from: usize, to: usize) -> (r: (usize, usize))
    requires
        from <= to <= v.len(),
    ensures
        from <= r.0 <= r.1 <= to,
        v@.subrange(r.0 as int, r.1 as int) == trimmed(v@.subrange(from as int, to as int)),
{
    let mut a: usize = from;
    while a < to && space(v[a])
        invariant
            from <= a <= to <= v.len(),
            trim_front(v@.subrange(a as int, to as int)) == trim_front(
                v@.subrange(from as int, to as int),
            ),
        decreases to - a,
    {
        assert(v@.subrange(a as int, to as int).skip(1) =~= v@.subrange(a + 1, to as int));
        a = a + 1;
    }
    let mut b: usize = to;
    while a < b && space(v[b - 1])
        invariant
            from <= a <= b <= to <= v.len(),
            trim_back(v@.subrange(a as int, b as int)) == trim_back(
                v@.subrange(a as int, to as int),
            ),
        decreases b - a,
    {
        assert(v@.subrange(a as int, b as int).drop_last() =~= v@.subrange(a as int, b - 1));
        b = b - 1;
    }
    (a, b)
}

/// The parts of `s` between the separators.
pub open spec fn split(s: Seq<char>, sep: char) -> Seq<Seq<char>>
    decreases s.len(),
{
    if s.len() == 0 {
        seq![Seq::empty()]
    } else {
        let head = split(s.drop_last(), sep);
        if s.last() == sep {
            head.push(Seq::empty())
        } else {
            head.drop_last().push(head.last().push(s.last()))
        }
    }
}

/// The trimmed parts of a list that is separated by commas.
pub open spec fn list_parts(s: Seq<char>) -> Seq<Seq<char>> {
    split(s, ',').map_values(|p: Seq<char>| trimmed(p))
}

/// The texts as sequences.
pub open spec fn text_views(v: Seq<String>) -> Seq<Seq<char>> {
    Seq::new(v.len(), |i: int| v[i]@)
}

pub proof fn lemma_split_nonempty(s: Seq<char>, sep: char)
    ensures
        split(s, sep).len() >= 1,
    decreases s.len(),
{
    if s.len() > 0 {
        lemma_split_nonempty(s.drop_last(), sep);
    }
}

/// The trimmed parts of a list that is separated by commas.
pub fn split_list(s: &str) -> (parts: Vec<String>)
    ensures
        text_views(parts@) == list_parts(s@),
{
    let v = chars_of(s);
    let mut parts: Vec<String> = Vec::new();
    let mut start: usize = 0;
    let mut i: usize = 0;
    let ghost f = |p: Seq<char>| trimmed(p);
    proof {
        assert(v@.take(0) =~= Seq::<char>::empty());
        assert(v@.subrange(0, 0) =~= Seq::<char>::empty());
    }
    while i < v.len()
        invariant
            start <= i <= v.len(),
            v@ == s@,
            f == (|p: Seq<char>| trimmed(p)),
            split(v@.take(i as int), ',').len() >= 1,
            split(v@.take(i as int), ',').last() == v@.subrange(start as int, i as int),
            text_views(parts@) == split(v@.take(i as int), ',').drop_last().map_values(f),
        decreases v.len() - i,
    {
        let ghost prev = split(v@.take(i as int), ',');
        proof {
            assert(v@.take(i + 1).drop_last() =~= v@.take(i as int));
        }
        if v[i] == ',' {
            let (a, b) = trim_range(&v, start, i);
            let part = text_of(&v, a, b);
            let ghost before = text_views(parts@);
            parts.push(part);
            start = i + 1;
            proof {
                let next = split(v@.take(i + 1), ',');
                assert(next == prev.push(Seq::empty()));
                assert(next.drop_last() =~= prev);
                assert(prev =~= prev.drop_last().push(prev.last()));
                assert(text_views(parts@) =~= before.push(part@));
                assert(prev.map_values(f) =~= prev.drop_last().map_values(f).push(f(prev.last())));
                assert(v@.subrange(start as int, i + 1) =~= Seq::<char>::empty());
            }
        } else {
            proof {
                let next = split(v@.take(i + 1), ',');
                assert(next.drop_last() =~= prev.drop_last());
                assert(next.last() =~= v@.subrange(start as int, i + 1));
            }
        }
        i = i + 1;
    }
    let (a, b) = trim_range(&v, start, v.len());
    let part = text_of(&v, a, b);
    let ghost before = text_views(parts@);
    parts.push(part);
    proof {
        assert(v@.take(i as int) =~= v@);
        let all = split(v@, ',');
        assert(all =~= all.drop_last().push(all.last()));
        assert(text_views(parts@) =~= before.push(part@));
        assert(all.map_values(f) =~= all.drop_last().map_values(f).push(f(all.last())));
        assert(list_parts(s@) == all.map_values(f));
    }
    parts
}

/// The position of the first occurrence of `pat` in `s` at or behind `from`.
pub open spec fn find_from(s: Seq<char>, pat: Seq<char>, from: int) -> Option<int>
    decreases s.len() + 1 - from,
{
    if from < 0 || from + pat.len() > s.len() {
        None
    } else if s.subrange(from, from + pat.len()) == pat {
        Some(from)
    } else {
        find_from(s, pat, from + 1)
    }
}

/// Whether `pat` stands in `v` at `at`.
pub fn stands_at(v: &Vec<char>, pat: &Vec<char>, at: usize) -> (r: bool)
    requires
        at + pat.len() <= v.len(),
    ensures
        r == (v@.subrange(at as int, at + pat.len()) == pat@),
{
    let mut k: usize = 0;
    while k < pat.len()
        invariant
            k <= pat.len(),
            at + pat.len() <= v.len(),
            forall|m: int| 0 <= m < k ==> v@[at + m] == pat@[m],
        decreases pat.len() - k,
    {
        if v[at + k] != pat[k] {
            assert(v@.subrange(at as int, at + pat.len())[k as int] != pat@[k as int]);
            return false;
        }
        k = k + 1;
    }
    assert(v@.subrange(at as int, at + pat.len()) =~= pat@);
    true
}

/// The position of the first occurrence of `pat` in `v` at or behind `from`.
pub fn find(v: &Vec<char>, pat: &Vec<char>, from: usize) -> (r: Option<usize>)
    requires
        from <= v.len(),
    ensures
        match find_from(v@, pat@, from as int) {
            Some(p) => r == Some(p as usize) && from <= p && p + pat.len() <= v.len(),
            None => r is None,
        },
{
    let mut at: usize = from;
    while at <= v.len() && pat.len() <= v.len() - at
        invariant
            from <= at <= v.len() + 1,
            find_from(v@, pat@, from as int) == find_from(v@, pat@, at as int),
        decreases v.len() + 1 - at,
    {
        if stands_at(v, pat, at) {
            return Some(at);
        }
        if at == v.len() {
            assert(find_from(v@, pat@, at + 1) is None);
            return None;
        }
        at = at + 1;
    }
    None
}

/// Whether `s` starts with `pat`.
pub open spec fn starts_with(s: Seq<char>, pat: Seq<char>) -> bool {
    pat.len() <= s.len() && s.take(pat.len() as int) == pat
}

/// Whether `s` ends with `pat`.
pub open spec fn ends_with(s: Seq<char>, pat: Seq<char>) -> bool {
    pat.len() <= s.len() && s.skip(s.len() - pat.len()) == pat
}

/// Whether the first character of `s` is `c`.
pub fn first_is(s: &str, c: char) -> (r: bool)
    ensures
        r == (s@.len() > 0 && s@[0] == c),
{
    let v = chars_of(s);
    v.len() > 0 && v[0] == c
}

/// `a` comes before `b` in the order of their characters.
pub open spec fn text_less(a: Seq<char>, b: Seq<char>) -> bool
    decreases a.len(),
{
    b.len() > 0 && (a.len() == 0 || a[0] < b[0] || (a[0] == b[0] && text_less(
        a.skip(1),
        b.skip(1),
    )))
}

/// No text comes before itself.
pub(crate) proof fn lemma_text_less_strict(a: Seq<char>)
    ensures
        !text_less(a, a),
    decreases a.len(),
{
    if a.len() > 0 {
        lemma_text_less_strict(a.skip(1));
    }
}

pub(crate) proof fn lemma_text_less_total(a: Seq<char>, b: Seq<char>)
    ensures
        a == b || text_less(a, b) || text_less(b, a),
    decreases a.len(),
{
    if a.len() > 0 && b.len() > 0 {
        lemma_text_less_total(a.skip(1), b.skip(1));
        if a[0] == b[0] && a.skip(1) == b.skip(1) {
            assert(a =~= seq![a[0]] + a.skip(1));
            assert(b =~= seq![b[0]] + b.skip(1));
        }
    } else if a.len() == 0 && b.len() == 0 {
        assert(a =~= b);
    }
}

pub(crate) proof fn lemma_text_less_transitive(a: Seq<char>, b: Seq<char>, c: Seq<char>)
    requires
        text_less(a, b),
        text_less(b, c),
    ensures
        text_less(a, c),
    decreases a.len(),
{
    if a.len() > 0 && a[0] == b[0] && b[0] == c[0] {
        lemma_text_less_transitive(a.skip(1), b.skip(1), c.skip(1));
    }
}

/// Whether `a` comes before `b` in the order of their characters.
pub(crate) fn comes_before(a: &str, b: &str) -> (r: bool)
    ensures
        r == text_less(a@, b@),
{
    let x = chars_of(a);
    let y = chars_of(b);
    let mut i: usize = 0;
    proof {
        assert(x@.skip(0) =~= a@);
        assert(y@.skip(0) =~= b@);
    }
    while i < x.len() && i < y.len() && x[i] == y[i]
        invariant
            i <= x.len(),
            i <= y.len(),
            text_less(a@, b@) == text_less(x@.skip(i as int), y@.skip(i as int)),
        decreases x.len() - i,
    {
        proof {
            assert(x@.skip(i as int).skip(1) =~= x@.skip(i + 1));
            assert(y@.skip(i as int).skip(1) =~= y@.skip(i + 1));
        }
        i = i + 1;
    }
    i < y.len() && (i == x.len() || x[i] < y[i])
}

/// A number in decimal is a row of digits that spells it, so it reads back as the
/// number wherever it is not too large.
pub proof fn decimal_reads_back(n: nat, max: int)
    ensures
        decimal(n).len() > 0,
        all_digits(decimal(n)),
        digits_value(decimal(n)) == n,
        unsigned_value(decimal(n), max) == (if n <= max {
            Some(n as int)
        } else {
            None
        }),
    decreases n,
{
    if n < 10 {
        assert(decimal(n).drop_last() =~= Seq::<char>::empty());
        assert(digits_value(decimal(n).drop_last()) == 0);
        assert(decimal(n).last() == digit_char(n as int));
    } else {
        decimal_reads_back(n / 10, max);
        assert(decimal(n).drop_last() =~= decimal(n / 10));
        assert(decimal(n).last() == digit_char((n % 10) as int));
    }
    assert(is_digit(decimal(n)[0]));
    assert(decimal(n)[0] != '+');
}

proof fn lemma_trim_front(s: Seq<char>)
    ensures
        exists|k: int|
            #![trigger s.skip(k)]
            0 <= k <= s.len() && trim_front(s) == s.skip(k) && (forall|i: int|
                0 <= i < k ==> is_space(#[trigger] s[i])) && (k < s.len() ==> !is_space(s[k])),
    decreases s.len(),
{
    if s.len() > 0 && is_space(s[0]) {
        let rest = s.skip(1);
        lemma_trim_front(rest);
        let k = choose|k: int|
            #![trigger rest.skip(k)]
            0 <= k <= rest.len() && trim_front(rest) == rest.skip(k) && (forall|i: int|
                0 <= i < k ==> is_space(#[trigger] rest[i])) && (k < rest.len() ==> !is_space(
                rest[k],
            ));
        assert(s.skip(k + 1) =~= rest.skip(k));
        assert forall|i: int| 0 <= i < k + 1 implies is_space(#[trigger] s[i]) by {
            if i > 0 {
                assert(rest[i - 1] == s[i]);
            }
        }
        if k < rest.len() {
            assert(rest[k] == s[k + 1]);
        }
    } else {
        assert(s.skip(0) =~= s);
    }
}

proof fn lemma_trim_back(s: Seq<char>)
    ensures
        exists|k: int|
            #![trigger s.take(k)]
            0 <= k <= s.len() && trim_back(s) == s.take(k) && (forall|i: int|
                k <= i < s.len() ==> is_space(#[trigger] s[i])) && (k > 0 ==> !is_space(s[k - 1])),
    decreases s.len(),
{
    if s.len() > 0 && is_space(s.last()) {
        let rest = s.drop_last();
        lemma_trim_back(rest);
        let k = choose|k: int|
            #![trigger rest.take(k)]
            0 <= k <= rest.len() && trim_back(rest) == rest.take(k) && (forall|i: int|
                k <= i < rest.len() ==> is_space(#[trigger] rest[i])) && (k > 0 ==> !is_space(
                rest[k - 1],
            ));
        assert(s.take(k) =~= rest.take(k));
        assert forall|i: int| k <= i < s.len() implies is_space(#[trigger] s[i]) by {
            if i < rest.len() {
                assert(rest[i] == s[i]);
            }
        }
        if k > 0 {
            assert(rest[k - 1] == s[k - 1]);
        }
    } else {
        assert(s.take(s.len() as int) =~= s);
    }
}

/// Trimming takes white space off both ends and nothing else: what is left stands in
/// the text, everything around it is white space, and it neither starts nor ends with
/// any.
pub proof fn trimming_takes_only_white_space(s: Seq<char>)
    ensures
        exists|a: int, b: int|
            #![trigger s.subrange(a, b)]
            0 <= a <= b <= s.len() && trimmed(s) == s.subrange(a, b) && (forall|i: int|
                (0 <= i < a || b <= i < s.len()) ==> is_space(#[trigger] s[i])),
        trimmed(s).len() > 0 ==> !is_space(trimmed(s)[0]) && !is_space(trimmed(s).last()),
{
    lemma_trim_front(s);
    let a = choose|k: int|
        #![trigger s.skip(k)]
        0 <= k <= s.len() && trim_front(s) == s.skip(k) && (forall|i: int|
            0 <= i < k ==> is_space(#[trigger] s[i])) && (k < s.len() ==> !is_space(s[k]));
    let t = s.skip(a);
    lemma_trim_back(t);
    let k = choose|k: int|
        #![trigger t.take(k)]
        0 <= k <= t.len() && trim_back(t) == t.take(k) && (forall|i: int|
            k <= i < t.len() ==> is_space(#[trigger] t[i])) && (k > 0 ==> !is_space(t[k - 1]));
    assert(trimmed(s) =~= s.subrange(a, a + k));
    assert forall|i: int| (0 <= i < a || a + k <= i < s.len()) implies is_space(
        #[trigger] s[i],
    ) by {
        if i >= a {
            assert(t[i - a] == s[i]);
        }
    }
    if trimmed(s).len() > 0 {
        assert(trimmed(s)[0] == s[a]);
        assert(trimmed(s).last() == t[k - 1]);
    }
}

/// A text is split at every separator and nowhere else: what stands in front of a
/// separator and what stands behind it are split on their own, and a text without a
/// separator is one part.
pub proof fn texts_are_split_at_every_separator(a: Seq<char>, b: Seq<char>, sep: char)
    ensures
        split(a.push(sep) + b, sep) == split(a, sep) + split(b, sep),
        !a.contains(sep) ==> split(a, sep) == seq![a],
    decreases a.len() + b.len(),
{
    if !a.contains(sep) {
        lemma_split_alone(a, sep);
    }
    let whole = a.push(sep) + b;
    if b.len() == 0 {
        assert(whole =~= a.push(sep));
        assert(whole.drop_last() =~= a);
        assert(split(a, sep).push(Seq::empty()) =~= split(a, sep) + split(b, sep));
    } else {
        texts_are_split_at_every_separator(a, b.drop_last(), sep);
        assert(whole.drop_last() =~= a.push(sep) + b.drop_last());
        assert(whole.last() == b.last());
        let front = split(a, sep);
        let back = split(b.drop_last(), sep);
        lemma_split_nonempty(b.drop_last(), sep);
        assert((front + back).last() == back.last());
        if b.last() == sep {
            assert((front + back).push(Seq::empty()) =~= front + back.push(Seq::empty()));
        } else {
            let more = back.last().push(b.last());
            assert((front + back).drop_last().push(more) =~= front + back.drop_last().push(more));
        }
    }
}

proof fn lemma_split_alone(a: Seq<char>, sep: char)
    requires
        !a.contains(sep),
    ensures
        split(a, sep) == seq![a],
    decreases a.len(),
{
    if a.len() > 0 {
        let rest = a.drop_last();
        assert(!rest.contains(sep)) by {
            if rest.contains(sep) {
                let i = choose|i: int| 0 <= i < rest.len() && rest[i] == sep;
                assert(a[i] == sep);
            }
        }
        lemma_split_alone(rest, sep);
        assert(a[a.len() - 1] != sep);
        assert(rest.push(a.last()) =~= a);
        assert(seq![rest].drop_last().push(a) =~= seq![a]);
    } else {
        assert(a =~= Seq::<char>::empty());
    }
}

/// A search finds the first place at or behind `from` where the pattern stands, and
/// nothing only if it stands nowhere there.
pub proof fn the_first_match_is_found(s: Seq<char>, pat: Seq<char>, from: int)
    requires
        0 <= from,
    ensures
        match find_from(s, pat, from) {
            Some(i) => from <= i <= s.len() - pat.len() && s.subrange(i, i + pat.len()) == pat
                && forall|k: int| from <= k < i ==> #[trigger] s.subrange(k, k + pat.len()) != pat,
            None => forall|k: int|
                from <= k <= s.len() - pat.len() ==> #[trigger] s.subrange(k, k + pat.len()) != pat,
        },
    decreases s.len() + 1 - from,
{
    if from + pat.len() <= s.len() && s.subrange(from, from + pat.len()) != pat {
        the_first_match_is_found(s, pat, from + 1);
    }
}

/// Texts are ordered as in a dictionary: by the first character in which they differ,
/// and a text comes before every longer one that starts with it.
pub proof fn texts_are_ordered_as_in_a_dictionary(p: Seq<char>, a: Seq<char>, b: Seq<char>)
    ensures
        a.len() > 0 && b.len() > 0 && a[0] < b[0] ==> text_less(p + a, p + b) && !text_less(
            p + b,
            p + a,
        ),
        b.len() > 0 ==> text_less(p, p + b) && !text_less(p + b, p),
        !text_less(p, p),
    decreases p.len(),
{
    if p.len() == 0 {
        assert(p + a =~= a);
        assert(p + b =~= b);
    } else {
        texts_are_ordered_as_in_a_dictionary(p.skip(1), a, b);
        assert((p + a).skip(1) =~= p.skip(1) + a);
        assert((p + b).skip(1) =~= p.skip(1) + b);
    }
}

/// The ten digits are written as themselves and read as themselves.
pub proof fn digits_stand_for_themselves(d: int)
    requires
        0 <= d < 10,
    ensures
        digit_value(digit_char(d)) == d,
        is_digit(digit_char(d)),
        digit_char(d) == "0123456789"@[d],
        decimal(d as nat) == seq!["0123456789"@[d]],
{
    reveal_strlit("0123456789");
    assert(decimal(d as nat) =~= seq![digit_char(d)]);
}

/// A number is made up of digits. Only a plus sign may stand in front, which changes
/// nothing, and no text without a digit is a number.
pub proof fn only_digits_spell_numbers(s: Seq<char>, max: int, i: int)
    ensures
        0 <= i < s.len() && !('0' <= s[i] <= '9') && (i > 0 || s[0] != '+') ==> unsigned_value(
            s,
            max,
        ) is None,
        unsigned_value(Seq::empty(), max) is None,
        s.len() == 0 || s[0] != '+' ==> unsigned_value(seq!['+'] + s, max) == unsigned_value(
            s,
            max,
        ),
{
    if 0 <= i < s.len() && s[0] == '+' && i > 0 {
        assert(s.skip(1)[i - 1] == s[i]);
    }
    assert((seq!['+'] + s).skip(1) =~= s);
}

/// One more digit behind a number makes it ten times as large, and adds the digit; a number
/// above the limit is none.
pub proof fn digits_count_ten_times(s: Seq<char>, max: int, d: int)
    requires
        unsigned_value(s, max) is Some,
        0 <= d < 10,
    ensures
        ({
            let v = 10 * unsigned_value(s, max)->0 + d;
            unsigned_value(s.push("0123456789"@[d]), max) == (if v <= max {
                Some(v)
            } else {
                None
            })
        }),
{
    let c = "0123456789"@[d];
    digits_stand_for_themselves(d);
    let t = s.push(c);
    if s[0] == '+' {
        let body = s.skip(1);
        assert(t.skip(1) =~= body.push(c));
        assert(body.push(c).drop_last() =~= body);
    } else {
        assert(t.drop_last() =~= s);
    }
}

} // verus!
