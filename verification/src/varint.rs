//! Variable-length integers: seven bits per byte, least significant group
//! first, the high bit set on every byte but the last.

use vstd::prelude::*;

use crate::pmtiles::PmtError;

verus! {

/// The encoding of `v`.
pub open spec fn varint_bytes(v: int) -> Seq<u8>
    decreases v,
{
    if v < 128 {
        seq![v as u8]
    } else {
        seq![(v % 128 + 128) as u8] + varint_bytes(v / 128)
    }
}

/// The groups that stand in `buf` from `pos` on, when `n` groups of the same
/// number have been read already: the number they spell, if there is a last
/// group within the first ten, and the position behind the last byte looked at.
pub open spec fn varint_groups(buf: Seq<u8>, pos: int, n: nat) -> (Option<int>, int)
    decreases 10 - n,
{
    if pos >= buf.len() {
        (None, pos)
    } else if buf[pos] < 128 {
        (Some(buf[pos] as int), pos + 1)
    } else if n >= 9 {
        (None, pos + 1)
    } else {
        let rest = varint_groups(buf, pos + 1, n + 1);
        (
            match rest.0 {
                Some(v) => Some(buf[pos] - 128 + 128 * v),
                None => None,
            },
            rest.1,
        )
    }
}

/// What reading a number at `pos` gives: the number (its 64 low bits), or
/// nothing when the bytes run out or the number goes on after ten bytes; and
/// the position behind the bytes read.
pub open spec fn varint_at(buf: Seq<u8>, pos: int) -> (Option<u64>, int) {
    let r = varint_groups(buf, pos, 0);
    (
        match r.0 {
            Some(v) => Some((v % 0x1_0000_0000_0000_0000) as u64),
            None => None,
        },
        r.1,
    )
}

/// A run of `n` numbers that starts at `pos`: the numbers, if all can be read,
/// and the position behind the bytes read.
pub open spec fn varints_at(buf: Seq<u8>, pos: int, n: int) -> (Option<Seq<u64>>, int)
    decreases n,
{
    if n <= 0 {
        (Some(Seq::empty()), pos)
    } else {
        let head = varints_at(buf, pos, n - 1);
        match head.0 {
            None => (None, head.1),
            Some(vs) => {
                let last = varint_at(buf, head.1);
                match last.0 {
                    None => (None, last.1),
                    Some(v) => (Some(vs.push(v)), last.1),
                }
            },
        }
    }
}

/// The encodings of several numbers, one behind the other.
pub open spec fn varints_bytes(vs: Seq<u64>) -> Seq<u8>
    decreases vs.len(),
{
    if vs.len() == 0 {
        Seq::empty()
    } else {
        varints_bytes(vs.drop_last()) + varint_bytes(vs.last() as int)
    }
}

/// `128` to the power `n`.
pub open spec fn group_range(n: nat) -> int
    decreases n,
{
    if n == 0 {
        1
    } else {
        128 * group_range((n - 1) as nat)
    }
}

pub proof fn lemma_group_range_10()
    ensures
        group_range(10) == 0x40_0000_0000_0000_0000,
{
    reveal_with_fuel(group_range, 11);
}

/// An encoding is read back from wherever it stands.
proof fn lemma_groups_read_back(buf: Seq<u8>, pos: int, v: int, n: nat)
    requires
        0 <= v,
        n <= 9,
        v < group_range((10 - n) as nat),
        0 <= pos,
        pos + varint_bytes(v).len() <= buf.len(),
        buf.subrange(pos, pos + varint_bytes(v).len()) == varint_bytes(v),
    ensures
        varint_groups(buf, pos, n) == (Some(v), pos + varint_bytes(v).len()),
    decreases v,
{
    let enc = varint_bytes(v);
    assert(enc[0] == buf[pos]);
    if v >= 128 {
        let rest = varint_bytes(v / 128);
        assert(enc =~= seq![(v % 128 + 128) as u8] + rest);
        assert(buf.subrange(pos + 1, pos + 1 + rest.len()) =~= rest) by {
            assert forall|i: int| 0 <= i < rest.len() implies buf[pos + 1 + i] == rest[i] by {
                assert(buf.subrange(pos, pos + enc.len())[i + 1] == enc[i + 1]);
            }
        }
        assert(v / 128 < group_range((9 - n) as nat));
        if n == 9 {
            reveal_with_fuel(group_range, 2);
        }
        lemma_groups_read_back(buf, pos + 1, v / 128, n + 1);
    }
}

/// Reading at the place where the encoding of `v` stands gives `v`, and ends
/// behind it.
pub proof fn varint_read_back(buf: Seq<u8>, pos: int, v: u64)
    requires
        0 <= pos,
        pos + varint_bytes(v as int).len() <= buf.len(),
        buf.subrange(pos, pos + varint_bytes(v as int).len()) == varint_bytes(v as int),
    ensures
        varint_at(buf, pos) == (Some(v), pos + varint_bytes(v as int).len()),
{
    lemma_group_range_10();
    lemma_groups_read_back(buf, pos, v as int, 0);
}

/// Reading as many numbers as were written gives those numbers, and ends
/// behind them.
pub proof fn varints_read_back(buf: Seq<u8>, pos: int, vs: Seq<u64>)
    requires
        0 <= pos,
        pos + varints_bytes(vs).len() <= buf.len(),
        buf.subrange(pos, pos + varints_bytes(vs).len()) == varints_bytes(vs),
    ensures
        varints_at(buf, pos, vs.len() as int) == (Some(vs), pos + varints_bytes(vs).len()),
    decreases vs.len(),
{
    if vs.len() > 0 {
        let head = varints_bytes(vs.drop_last());
        let last = varint_bytes(vs.last() as int);
        let whole = varints_bytes(vs);
        assert(whole =~= head + last);
        let window = buf.subrange(pos, pos + whole.len());
        assert(buf.subrange(pos, pos + head.len()) =~= head) by {
            assert forall|i: int| 0 <= i < head.len() implies buf[pos + i] == head[i] by {
                assert(window[i] == whole[i]);
            }
        }
        varints_read_back(buf, pos, vs.drop_last());
        let mid = pos + head.len();
        assert(buf.subrange(mid, mid + last.len()) =~= last) by {
            assert forall|i: int| 0 <= i < last.len() implies buf[mid + i] == last[i] by {
                assert(window[head.len() + i] == whole[head.len() + i]);
            }
        }
        varint_read_back(buf, mid, vs.last());
        assert(vs.drop_last().push(vs.last()) =~= vs);
    }
}

/// Reading never moves outside the buffer.
pub proof fn lemma_groups_end(buf: Seq<u8>, pos: int, n: nat)
    requires
        0 <= pos <= buf.len(),
    ensures
        pos <= varint_groups(buf, pos, n).1 <= buf.len(),
        varint_groups(buf, pos, n).0 is Some ==> pos < varint_groups(buf, pos, n).1,
        varint_groups(buf, pos, n).0 matches Some(v) ==> v >= 0,
    decreases 10 - n,
{
    if pos < buf.len() && buf[pos] >= 128 && n < 9 {
        lemma_groups_end(buf, pos + 1, n + 1);
    }
}

pub proof fn lemma_varint_end(buf: Seq<u8>, pos: int)
    requires
        0 <= pos <= buf.len(),
    ensures
        pos <= varint_at(buf, pos).1 <= buf.len(),
        varint_at(buf, pos).0 is Some ==> pos < varint_at(buf, pos).1,
{
    lemma_groups_end(buf, pos, 0);
}

pub proof fn lemma_varints_end(buf: Seq<u8>, pos: int, n: int)
    requires
        0 <= pos <= buf.len(),
        0 <= n,
    ensures
        pos <= varints_at(buf, pos, n).1 <= buf.len(),
        varints_at(buf, pos, n).0 matches Some(vs) ==> vs.len() == n && pos + n <= varints_at(
            buf,
            pos,
            n,
        ).1,
    decreases n,
{
    if n > 0 {
        lemma_varints_end(buf, pos, n - 1);
        let head = varints_at(buf, pos, n - 1);
        lemma_varint_end(buf, head.1);
    }
}

/// Once a run of numbers cannot be read, no longer run can.
pub proof fn lemma_varints_stuck(buf: Seq<u8>, pos: int, m: int, n: int)
    requires
        0 <= m <= n,
        varints_at(buf, pos, m).0 is None,
    ensures
        varints_at(buf, pos, n) == varints_at(buf, pos, m),
    decreases n,
{
    if m < n {
        lemma_varints_stuck(buf, pos, m, n - 1);
    }
}

/// Append the encoding of `v`.
pub fn write_varint(buf: &mut Vec<u8>, v: u64)
    ensures
        final(buf)@ == old(buf)@ + varint_bytes(v as int),
{
    let mut rest: u64 = v;
    while rest >= 128
        invariant
            buf@ + varint_bytes(rest as int) == old(buf)@ + varint_bytes(v as int),
        decreases rest,
    {
        let ghost before = buf@;
        let b: u8 = (rest % 128 + 128) as u8;
        buf.push(b);
        proof {
            assert(buf@ + varint_bytes(rest as int / 128) =~= before + (seq![b] + varint_bytes(
                rest as int / 128,
            )));
        }
        rest = rest / 128;
    }
    let ghost before = buf@;
    buf.push(rest as u8);
    proof {
        assert(buf@ =~= before + varint_bytes(rest as int));
    }
}

/// Decode a number from `buf` starting at `*pos`, advancing `*pos`.
pub fn read_varint(buf: &[u8], pos: &mut usize) -> (r: Result<u64, PmtError>)
    ensures
        *final(pos) == varint_at(buf@, *old(pos) as int).1,
        *old(pos) <= buf.len() ==> *final(pos) <= buf.len(),
        match varint_at(buf@, *old(pos) as int).0 {
            Some(v) => r == Ok::<u64, PmtError>(v),
            None => r == Err::<u64, PmtError>(PmtError::CorruptDirectory),
        },
{
    let ghost start = *pos as int;
    let ghost whole = varint_groups(buf@, start, 0);
    let mut acc: u128 = 0;
    let mut unit: u128 = 1;
    let mut n: u32 = 0;
    proof {
        lemma_group_range_monotone(0, 9);
    }
    loop
        invariant
            n <= 9,
            *old(pos) <= buf.len() ==> *pos <= buf.len(),
            unit == group_range(n as nat),
            0 <= acc < unit,
            unit <= group_range(9),
            whole == varint_groups(buf@, start, 0),
            start == *old(pos),
            whole.1 == varint_groups(buf@, *pos as int, n as nat).1,
            match varint_groups(buf@, *pos as int, n as nat).0 {
                Some(v) => whole.0 == Some(acc + unit * v),
                None => whole.0 is None,
            },
        decreases 10 - n,
    {
        proof {
            lemma_group_range_10();
            reveal_with_fuel(group_range, 2);
        }
        if *pos >= buf.len() {
            return Err(PmtError::CorruptDirectory);
        }
        let byte: u8 = buf[*pos];
        let ghost here = *pos as int;
        *pos = *pos + 1;
        if byte < 128 {
            proof {
                assert(unit * byte <= unit * 127) by (nonlinear_arith)
                    requires
                        byte < 128,
                ;
            }
            let total: u128 = acc + unit * byte as u128;
            return Ok((total % 0x1_0000_0000_0000_0000) as u64);
        }
        if n >= 9 {
            return Err(PmtError::CorruptDirectory);
        }
        let group: u8 = byte - 128;
        let ghost rest = varint_groups(buf@, here + 1, (n + 1) as nat);
        proof {
            assert(unit * group <= unit * 127) by (nonlinear_arith)
                requires
                    group < 128,
            ;
            if let Some(v) = rest.0 {
                assert(acc + unit * (group + 128 * v) == (acc + unit * group) + (unit * 128) * v)
                    by (nonlinear_arith);
            }
            lemma_group_range_monotone((n + 1) as nat, 9);
        }
        acc = acc + unit * group as u128;
        unit = unit * 128;
        n = n + 1;
    }
}

proof fn lemma_group_range_monotone(a: nat, b: nat)
    requires
        a <= b,
    ensures
        1 <= group_range(a) <= group_range(b),
    decreases b,
{
    if b == 0 {
    } else if a < b {
        lemma_group_range_monotone(a, (b - 1) as nat);
    } else {
        lemma_group_range_monotone((a - 1) as nat, (a - 1) as nat);
    }
}

/// Decode `n` numbers in a row.
pub fn read_varints(buf: &[u8], pos: &mut usize, n: u64) -> (r: Result<Vec<u64>, PmtError>)
    ensures
        *final(pos) == varints_at(buf@, *old(pos) as int, n as int).1,
        *old(pos) <= buf.len() ==> *final(pos) <= buf.len(),
        match varints_at(buf@, *old(pos) as int, n as int).0 {
            Some(vs) => r matches Ok(v) && v@ == vs,
            None => r == Err::<Vec<u64>, PmtError>(PmtError::CorruptDirectory),
        },
{
    let mut out: Vec<u64> = Vec::new();
    let mut i: u64 = 0;
    while i < n
        invariant
            i <= n,
            *old(pos) <= buf.len() ==> *pos <= buf.len(),
            varints_at(buf@, *old(pos) as int, i as int) == (Some(out@), *pos as int),
        decreases n - i,
    {
        match read_varint(buf, pos) {
            Ok(v) => {
                out.push(v);
            },
            Err(e) => {
                proof {
                    lemma_varints_stuck(buf@, *old(pos) as int, i + 1, n as int);
                }
                return Err(e);
            },
        }
        i = i + 1;
    }
    Ok(out)
}

/// A number is spelled in groups of seven bits, the lowest group first: a number below 128
/// in one byte, and any other as its low group, with 128 added, and the rest behind it.
pub proof fn low_groups_come_first(v: int)
    requires
        0 <= v,
    ensures
        v < 128 ==> varint_bytes(v) == seq![v as u8],
        v >= 128 ==> varint_bytes(v) == seq![(v % 128 + 128) as u8] + varint_bytes(v / 128),
        varint_bytes(300) == seq![0xacu8, 2u8],
{
    reveal_with_fuel(varint_bytes, 2);
    assert(varint_bytes(300) =~= seq![0xacu8, 2u8]);
}

} // verus!
