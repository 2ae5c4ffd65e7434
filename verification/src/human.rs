//! Byte counts for people.

use vstd::prelude::*;

use crate::text::{decimal, digit_char, push_decimal, push_text};

verus! {

/// `a / b`, rounded to the nearest whole number, halves to the even one.
pub open spec fn half_even(a: int, b: int) -> int {
    let q = a / b;
    let r = a % b;
    if 2 * r < b {
        q
    } else if 2 * r > b {
        q + 1
    } else {
        q + q % 2
    }
}

/// Two to the power of the number of bits that `n` has beyond 53.
pub open spec fn excess(n: int) -> int
    decreases n,
{
    if n < 0x20_0000_0000_0000 {
        1
    } else {
        2 * excess(n / 2)
    }
}

/// `n` to the 53 significant bits of a double-precision number.
pub open spec fn to_double(n: int) -> int {
    half_even(n, excess(n)) * excess(n)
}

/// The number of bytes in a unit: each is 1024 times the one before.
pub open spec fn unit_size(u: int) -> int
    decreases u,
{
    if u <= 0 {
        1
    } else {
        1024 * unit_size(u - 1)
    }
}

/// The largest unit, up to the fourth, of which there is at least one, looked
/// for from unit `u` on.
pub open spec fn unit_from(v: int, u: int) -> int
    decreases 4 - u,
{
    if u < 4 && v >= 1024 * unit_size(u) {
        unit_from(v, u + 1)
    } else {
        u
    }
}

pub open spec fn unit_label(u: int) -> Seq<char> {
    if u <= 0 {
        "B"@
    } else if u == 1 {
        "KB"@
    } else if u == 2 {
        "MB"@
    } else if u == 3 {
        "GB"@
    } else {
        "TB"@
    }
}

/// `t` tenths, with one digit behind the point.
pub open spec fn tenths_text(t: int) -> Seq<char> {
    (decimal((t / 10) as nat) + "."@).push(digit_char(t % 10))
}

/// A byte count as a short text: whole bytes below one kilobyte, whole units
/// from a hundred on, else one digit behind the point.
pub open spec fn human_text(n: int) -> Seq<char> {
    let v = to_double(n);
    let u = unit_from(v, 0);
    if u == 0 {
        decimal(n as nat) + " B"@
    } else if v >= 100 * unit_size(u) {
        decimal(half_even(v, unit_size(u)) as nat) + " "@ + unit_label(u)
    } else {
        tenths_text(half_even(10 * v, unit_size(u))) + " "@ + unit_label(u)
    }
}

fn round_half_even(a: u128, b: u128) -> (r: u128)
    requires
        b > 0,
        a <= 0x1_0000_0000_0000_0000_0000,
        b <= 0x1_0000_0000_0000_0000_0000,
    ensures
        r == half_even(a as int, b as int),
        r <= a + 1,
{
    let q: u128 = a / b;
    let m: u128 = a % b;
    proof {
        assert(a / b <= a) by (nonlinear_arith)
            requires
                b > 0,
        ;
    }
    if 2 * m < b {
        q
    } else if 2 * m > b {
        q + 1
    } else {
        q + q % 2
    }
}

proof fn lemma_excess(n: int)
    requires
        0 <= n,
    ensures
        1 <= excess(n),
        excess(n) == 1 || excess(n) * 0x10_0000_0000_0000 <= n,
    decreases n,
{
    if n >= 0x20_0000_0000_0000 {
        lemma_excess(n / 2);
    }
}

fn as_double(n: u64) -> (v: u128)
    ensures
        v == to_double(n as int),
        v <= 0x1_0000_0000_0000_0000 + 0x2000,
{
    let mut k: u128 = 1;
    let mut rest: u64 = n;
    while rest >= 0x20_0000_0000_0000
        invariant
            k >= 1,
            k * excess(rest as int) == excess(n as int),
            k * rest <= n,
        decreases rest,
    {
        proof {
            let e = excess(rest as int / 2);
            assert(k * (2 * e) == (k * 2) * e) by (nonlinear_arith);
            assert((k * 2) * (rest / 2) <= k * rest) by (nonlinear_arith)
                requires
                    k >= 1,
                    rest >= 0,
            ;
            assert(k <= 0x1000) by (nonlinear_arith)
                requires
                    k * rest <= n,
                    rest >= 0x20_0000_0000_0000,
                    n <= 0xffff_ffff_ffff_ffff,
            ;
        }
        k = k * 2;
        rest = rest / 2;
    }
    proof {
        lemma_excess(n as int);
        assert(k == excess(n as int)) by (nonlinear_arith)
            requires
                k * 1 == excess(n as int),
        ;
        assert(k == 1 || k <= 0x1000) by (nonlinear_arith)
            requires
                k == 1 || k * 0x10_0000_0000_0000 <= n,
                n <= 0xffff_ffff_ffff_ffff,
        ;
    }
    let q: u128 = round_half_even(n as u128, k);
    proof {
        let w = n as int / k as int;
        assert(q <= w + 1);
        assert(w * k <= n) by (nonlinear_arith)
            requires
                w == n as int / k as int,
                k >= 1,
        ;
        assert(q * k <= w * k + k) by (nonlinear_arith)
            requires
                q <= w + 1,
                k >= 1,
        ;
    }
    q * k
}

/// Append `t` tenths, with one digit behind the point.
fn push_tenths(out: &mut String, t: u64)
    ensures
        final(out)@ == old(out)@ + tenths_text(t as int),
{
    push_decimal(out, t / 10);
    push_text(out, ".");
    let ghost before = out@;
    push_decimal(out, t % 10);
    proof {
        assert(decimal((t % 10) as nat) =~= seq![digit_char((t % 10) as int)]);
        assert(out@ =~= old(out)@ + tenths_text(t as int));
    }
}

fn push_unit(out: &mut String, u: u32)
    ensures
        final(out)@ == old(out)@ + unit_label(u as int),
{
    if u == 0 {
        push_text(out, "B");
    } else if u == 1 {
        push_text(out, "KB");
    } else if u == 2 {
        push_text(out, "MB");
    } else if u == 3 {
        push_text(out, "GB");
    } else {
        push_text(out, "TB");
    }
}

/// Format a byte count as a short text (e.g. "1.5 GB", "265 MB").
pub fn human_bytes(n: u64) -> (r: String)
    ensures
        r@ == human_text(n as int),
{
    let v: u128 = as_double(n);
    let mut u: u32 = 0;
    let mut size: u128 = 1;
    while u < 4 && v >= 1024 * size
        invariant
            u <= 4,
            size == unit_size(u as int),
            1 <= size <= 0x100_0000_0000,
            u < 4 ==> size <= 0x4000_0000,
            unit_from(v as int, 0) == unit_from(v as int, u as int),
            v >= size || u == 0,
            v <= 0x1_0000_0000_0000_0000 + 0x2000,
        decreases 4 - u,
    {
        proof {
            reveal_with_fuel(unit_size, 5);
        }
        size = size * 1024;
        u = u + 1;
    }
    let mut out = String::new();
    assert(out@ =~= Seq::<char>::empty());
    if u == 0 {
        push_decimal(&mut out, n);
        push_text(&mut out, " B");
    } else if v >= 100 * size {
        let w: u128 = round_half_even(v, size);
        proof {
            lemma_rounded_small(v as int, size as int);
        }
        push_decimal(&mut out, w as u64);
        push_text(&mut out, " ");
        push_unit(&mut out, u);
    } else {
        let t: u128 = round_half_even(10 * v, size);
        proof {
            lemma_rounded_small(10 * v, size as int);
        }
        push_tenths(&mut out, t as u64);
        push_text(&mut out, " ");
        push_unit(&mut out, u);
    }
    assert(out@ =~= human_text(n as int));
    out
}

proof fn lemma_rounded_small(a: int, b: int)
    requires
        b >= 1024,
        0 <= a <= 10 * (0x1_0000_0000_0000_0000 + 0x2000),
    ensures
        0 <= half_even(a, b) <= u64::MAX,
{
    assert(0 <= a / b <= a / 1024) by (nonlinear_arith)
        requires
            b >= 1024,
            a >= 0,
    ;
}

/// A byte count in kilobytes, with one digit behind the point.
pub open spec fn kilobytes_text(n: int) -> Seq<char> {
    tenths_text(half_even(10 * to_double(n), 1024)) + " KB"@
}

/// Append a byte count in kilobytes, with one digit behind the point.
pub fn push_kilobytes(out: &mut String, n: u64)
    ensures
        final(out)@ == old(out)@ + kilobytes_text(n as int),
{
    let v: u128 = as_double(n);
    let t: u128 = round_half_even(10 * v, 1024);
    proof {
        lemma_rounded_small(10 * v, 1024);
    }
    push_tenths(out, t as u64);
    push_text(out, " KB");
    assert(out@ =~= old(out)@ + kilobytes_text(n as int));
}

/// Rounding gives the nearest whole number: what is left is at most half of the divisor,
/// and where it is just half the result is even.
pub proof fn rounding_goes_to_the_nearest(a: int, b: int)
    requires
        0 <= a,
        0 < b,
    ensures
        -b <= 2 * (a - half_even(a, b) * b) <= b,
        2 * (a - half_even(a, b) * b) == b || 2 * (a - half_even(a, b) * b) == -b ==> half_even(
            a,
            b,
        ) % 2 == 0,
{
    let q = a / b;
    let r = a % b;
    assert(a == q * b + r && 0 <= r < b) by (nonlinear_arith)
        requires
            0 < b,
            q == a / b,
            r == a % b,
    ;
    assert((q + 1) * b == q * b + b) by (nonlinear_arith);
}

/// A count of up to 53 bits is taken as it is; of a larger one the nearest number with
/// 53 significant bits.
pub proof fn counts_are_exact_up_to_53_bits(n: int)
    requires
        0 <= n,
    ensures
        n < 0x20_0000_0000_0000 ==> to_double(n) == n,
        -excess(n) <= 2 * (n - to_double(n)) <= excess(n),
        n >= 0x20_0000_0000_0000 ==> 0x10_0000_0000_0000 * excess(n) <= n < 0x20_0000_0000_0000
            * excess(n),
{
    lemma_excess(n);
    rounding_goes_to_the_nearest(n, excess(n));
    lemma_excess_tight(n);
}

proof fn lemma_excess_tight(n: int)
    requires
        0 <= n,
    ensures
        n < 0x20_0000_0000_0000 * excess(n),
        n >= 0x20_0000_0000_0000 ==> 0x10_0000_0000_0000 * excess(n) <= n,
    decreases n,
{
    if n >= 0x20_0000_0000_0000 {
        lemma_excess_tight(n / 2);
    }
}

/// Every unit is 1024 times the one before, and a count is told in the largest of the
/// five units of which there is at least one.
pub proof fn counts_are_told_in_the_largest_unit(v: int)
    requires
        0 <= v,
    ensures
        unit_size(0) == 1,
        unit_size(1) == 0x400,
        unit_size(2) == 0x10_0000,
        unit_size(3) == 0x4000_0000,
        unit_size(4) == 0x100_0000_0000,
        0 <= unit_from(v, 0) <= 4,
        unit_from(v, 0) > 0 ==> v >= unit_size(unit_from(v, 0)),
        unit_from(v, 0) < 4 ==> v < unit_size(unit_from(v, 0) + 1),
        unit_label(0) == "B"@ && unit_label(1) == "KB"@ && unit_label(2) == "MB"@ && unit_label(3)
            == "GB"@ && unit_label(4) == "TB"@,
{
    reveal_with_fuel(unit_size, 6);
    reveal_with_fuel(unit_from, 6);
}

/// The text of a count tells it in its unit: whole bytes below one kilobyte, from a
/// hundred units on the nearest whole number of them, else the nearest number of tenths.
pub proof fn counts_are_told_rounded(n: int, u: int, size: int)
    requires
        0 <= n < 0x20_0000_0000_0000,
        (u, size) == (0int, 1int) || (u, size) == (1int, 0x400int) || (u, size) == (
            2int,
            0x10_0000int,
        ) || (u, size) == (3int, 0x4000_0000int) || (u, size) == (4int, 0x100_0000_0000int),
        u > 0 ==> n >= size,
        u < 4 ==> n < 1024 * size,
    ensures
        human_text(n) == (if u == 0 {
            decimal(n as nat) + " B"@
        } else if n >= 100 * size {
            decimal(half_even(n, size) as nat) + " "@ + unit_label(u)
        } else {
            decimal((half_even(10 * n, size) / 10) as nat) + "."@ + decimal(
                (half_even(10 * n, size) % 10) as nat,
            ) + " "@ + unit_label(u)
        }),
        kilobytes_text(n) == decimal((half_even(10 * n, 1024) / 10) as nat) + "."@ + decimal(
            (half_even(10 * n, 1024) % 10) as nat,
        ) + " KB"@,
{
    counts_are_exact_up_to_53_bits(n);
    counts_are_told_in_the_largest_unit(n);
    assert(unit_from(n, 0) == u);
    lemma_tenths(half_even(10 * n, size));
    lemma_tenths(half_even(10 * n, 1024));
}

proof fn lemma_tenths(t: int)
    ensures
        tenths_text(t) == decimal((t / 10) as nat) + "."@ + decimal((t % 10) as nat),
{
    assert(decimal((t % 10) as nat) =~= seq![digit_char(t % 10)]);
    assert(tenths_text(t) =~= decimal((t / 10) as nat) + "."@ + decimal((t % 10) as nat));
}

} // verus!
