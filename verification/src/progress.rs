//! Progress lines of a bake.

use vstd::prelude::*;

use crate::text::{
    all_digits, chars_of, decimal, decimal_reads_back, digit_char, digits_value, push_decimal,
    push_text,
};

verus! {

/// How much of the work is done, in per cent; no work at all counts as done.
pub open spec fn percent(done: int, total: int) -> int {
    if total > 0 {
        done * 100 / total
    } else {
        100
    }
}

/// `s` with blanks in front, so that it is at least `width` long.
pub open spec fn padded(s: Seq<char>, width: int) -> Seq<char> {
    Seq::new(
        if s.len() < width {
            (width - s.len()) as nat
        } else {
            0
        },
        |i: int| ' ',
    ) + s
}

/// A number below 100 with two digits; larger ones with all of theirs.
pub open spec fn two_digits(n: nat) -> Seq<char> {
    if n < 10 {
        "0"@ + decimal(n)
    } else {
        decimal(n)
    }
}

/// The elapsed time in minutes and seconds.
pub open spec fn elapsed_text(secs: nat) -> Seq<char> {
    two_digits(secs / 60) + ":"@ + two_digits(secs % 60)
}

fn push_padded(out: &mut String, n: u64, width: usize)
    ensures
        final(out)@ == old(out)@ + padded(decimal(n as nat), width as int),
{
    let mut digits = String::new();
    push_decimal(&mut digits, n);
    assert(digits@ =~= decimal(n as nat));
    let v = chars_of(digits.as_str());
    let missing: usize = if v.len() < width {
        width - v.len()
    } else {
        0
    };
    let ghost blanks = Seq::new(missing as nat, |i: int| ' ');
    let mut i: usize = 0;
    assert(out@ =~= old(out)@ + blanks.take(0));
    while i < missing
        invariant
            i <= missing,
            blanks == Seq::new(missing as nat, |i: int| ' '),
            out@ == old(out)@ + blanks.take(i as int),
        decreases missing - i,
    {
        out.push(' ');
        i = i + 1;
        assert(out@ =~= old(out)@ + blanks.take(i as int));
    }
    push_text(out, digits.as_str());
    proof {
        assert(blanks.take(i as int) =~= blanks);
        assert(out@ =~= old(out)@ + padded(decimal(n as nat), width as int));
    }
}

fn push_two(out: &mut String, n: u64)
    ensures
        final(out)@ == old(out)@ + two_digits(n as nat),
{
    if n < 10 {
        push_text(out, "0");
    }
    push_decimal(out, n);
    assert(out@ =~= old(out)@ + two_digits(n as nat));
}

/// How much of the work is done, in per cent.
pub fn progress_percent(done: u64, total: u64) -> (p: u64)
    requires
        done * 100 <= u64::MAX,
    ensures
        p == percent(done as int, total as int),
        done <= total ==> p <= 100,
{
    if total == 0 {
        return 100;
    }
    proof {
        if done <= total {
            assert(done * 100 / total as int <= 100) by (nonlinear_arith)
                requires
                    0 <= done <= total,
                    total > 0,
            ;
        }
    }
    done * 100 / total
}

/// The text of a progress line. On a terminal the numbers are padded, so that the
/// line can be overwritten.
pub open spec fn progress_text(
    layer: Seq<char>,
    done: int,
    total: int,
    secs: nat,
    terminal: bool,
) -> Seq<char> {
    let n = decimal(done as nat);
    let p = decimal(percent(done, total) as nat);
    "  ["@ + layer + "] "@ + (if terminal {
        padded(n, 7)
    } else {
        n
    }) + " / "@ + decimal(total as nat) + " feature-zooms ("@ + (if terminal {
        padded(p, 3)
    } else {
        p
    }) + "%)  "@ + elapsed_text(secs) + " elapsed"@ + (if terminal {
        "  "@
    } else {
        Seq::empty()
    })
}

/// A progress line.
pub fn progress_line(layer: &str, done: u64, total: u64, secs: u64, terminal: bool) -> (r: String)
    requires
        done * 100 <= u64::MAX,
    ensures
        r@ == progress_text(layer@, done as int, total as int, secs as nat, terminal),
{
    let p: u64 = progress_percent(done, total);
    let mut r = "  [".to_owned();
    push_text(&mut r, layer);
    push_text(&mut r, "] ");
    if terminal {
        push_padded(&mut r, done, 7);
    } else {
        push_decimal(&mut r, done);
    }
    push_text(&mut r, " / ");
    push_decimal(&mut r, total);
    push_text(&mut r, " feature-zooms (");
    if terminal {
        push_padded(&mut r, p, 3);
    } else {
        push_decimal(&mut r, p);
    }
    push_text(&mut r, "%)  ");
    let ghost before = r@;
    push_two(&mut r, secs / 60);
    push_text(&mut r, ":");
    push_two(&mut r, secs % 60);
    assert(r@ =~= before + elapsed_text(secs as nat));
    push_text(&mut r, " elapsed");
    if terminal {
        push_text(&mut r, "  ");
    }
    assert(r@ =~= progress_text(layer@, done as int, total as int, secs as nat, terminal));
    r
}

/// The line before the work starts, where the output is not a terminal.
pub fn starting_line(layer: &str, features: u64, zooms: u64, min_zoom: u8, max_zoom: u8) -> (r:
    String)
    ensures
        r@ == "  ["@ + layer@ + "] starting — "@ + decimal(features as nat) + " features × "@
            + decimal(zooms as nat) + " zoom levels (z"@ + decimal(min_zoom as nat) + "-z"@
            + decimal(max_zoom as nat) + ")"@,
{
    let mut r = "  [".to_owned();
    push_text(&mut r, layer);
    push_text(&mut r, "] starting — ");
    push_decimal(&mut r, features);
    push_text(&mut r, " features × ");
    push_decimal(&mut r, zooms);
    push_text(&mut r, " zoom levels (z");
    push_decimal(&mut r, min_zoom as u64);
    push_text(&mut r, "-z");
    push_decimal(&mut r, max_zoom as u64);
    push_text(&mut r, ")");
    r
}

/// The per cent that are told are the whole ones that are done: no more than that, and
/// less than one more. All of the work is a hundred, and so is none at all; more work
/// done never tells less.
pub proof fn whole_per_cent_are_told(done: int, more: int, total: int)
    requires
        0 <= done <= more,
        0 <= total,
    ensures
        total > 0 ==> percent(done, total) * total <= done * 100 < (percent(done, total) + 1)
            * total,
        percent(total, total) == 100,
        percent(done, 0) == 100,
        percent(done, total) <= percent(more, total),
        done <= total ==> percent(done, total) <= 100,
{
    if total > 0 {
        let p = done * 100 / total;
        assert(p * total <= done * 100 < (p + 1) * total) by (nonlinear_arith)
            requires
                total > 0,
                p == done * 100 / total,
        ;
        assert(total * 100 / total == 100) by (nonlinear_arith)
            requires
                total > 0,
        ;
        assert(done * 100 / total <= more * 100 / total) by (nonlinear_arith)
            requires
                total > 0,
                done <= more,
        ;
        if done <= total {
            assert(done * 100 / total <= 100) by (nonlinear_arith)
                requires
                    0 <= done <= total,
                    total > 0,
            ;
        }
    }
}

/// Padding puts blanks in front until the width is reached, and changes nothing else.
pub proof fn padding_puts_blanks_in_front(s: Seq<char>, width: nat)
    ensures
        padded(s, width as int).len() == (if s.len() < width {
            width
        } else {
            s.len()
        }),
        padded(s, width as int).skip(padded(s, width as int).len() - s.len()) == s,
        forall|i: int|
            0 <= i < padded(s, width as int).len() - s.len() ==> #[trigger] padded(
                s,
                width as int,
            )[i] == ' ',
{
    let p = padded(s, width as int);
    assert(p.skip(p.len() - s.len()) =~= s);
}

/// The elapsed time is told in minutes and seconds: both as at least two digits that
/// spell them, the seconds below sixty, and together all the seconds that went by.
pub proof fn minutes_and_seconds_are_told(secs: nat)
    ensures
        elapsed_text(secs) == two_digits(secs / 60) + seq![':'] + two_digits(secs % 60),
        two_digits(secs / 60).len() >= 2 && all_digits(two_digits(secs / 60)),
        two_digits(secs % 60).len() == 2 && all_digits(two_digits(secs % 60)),
        digits_value(two_digits(secs % 60)) < 60,
        60 * digits_value(two_digits(secs / 60)) + digits_value(two_digits(secs % 60)) == secs,
{
    reveal_strlit(":");
    assert(":"@ =~= seq![':']);
    lemma_two_digits(secs / 60);
    lemma_two_digits(secs % 60);
}

proof fn lemma_two_digits(n: nat)
    ensures
        two_digits(n).len() >= 2,
        n < 100 ==> two_digits(n).len() == 2,
        all_digits(two_digits(n)),
        digits_value(two_digits(n)) == n,
{
    reveal_strlit("0");
    decimal_reads_back(n, 0);
    let t = two_digits(n);
    if n < 10 {
        assert(t =~= seq!['0'].push(digit_char(n as int)));
        assert(t.drop_last() =~= seq!['0']);
        assert(seq!['0'].drop_last() =~= Seq::<char>::empty());
        reveal_with_fuel(digits_value, 3);
        assert(digits_value(seq!['0']) == 0);
        assert(t.last() == digit_char(n as int));
        assert(all_digits(t));
    } else {
        assert(decimal(n / 10).len() >= 1) by {
            decimal_reads_back(n / 10, 0);
        }
        if n < 100 {
            assert(decimal(n / 10).len() == 1);
        }
    }
}

/// A line tells the layer, how much is done, how much there is and the time; on a terminal
/// the numbers are padded, and nothing else differs.
pub proof fn lines_tell_how_far_it_is(layer: Seq<char>, done: int, total: int, secs: nat)
    requires
        0 <= done,
    ensures
        progress_text(layer, done, total, secs, false) == "  ["@ + layer + "] "@ + decimal(
            done as nat,
        ) + " / "@ + decimal(total as nat) + " feature-zooms ("@ + decimal(
            percent(done, total) as nat,
        ) + "%)  "@ + elapsed_text(secs) + " elapsed"@,
        progress_text(layer, done, total, secs, true) == "  ["@ + layer + "] "@ + padded(
            decimal(done as nat),
            7,
        ) + " / "@ + decimal(total as nat) + " feature-zooms ("@ + padded(
            decimal(percent(done, total) as nat),
            3,
        ) + "%)  "@ + elapsed_text(secs) + " elapsed"@ + "  "@,
{
    assert(progress_text(layer, done, total, secs, false) =~= "  ["@ + layer + "] "@ + decimal(
        done as nat,
    ) + " / "@ + decimal(total as nat) + " feature-zooms ("@ + decimal(
        percent(done, total) as nat,
    ) + "%)  "@ + elapsed_text(secs) + " elapsed"@);
}

} // verus!
