//! Little-endian integers inside byte sequences.

use vstd::prelude::*;

verus! {

/// The number that a byte sequence spells, least significant byte first.
pub open spec fn le_value(s: Seq<u8>) -> int
    decreases s.len(),
{
    if s.len() == 0 {
        0
    } else {
        s[0] + 256 * le_value(s.drop_first())
    }
}

/// The `n` low bytes of `v`, least significant first.
pub open spec fn le_bytes(v: int, n: nat) -> Seq<u8>
    decreases n,
{
    if n == 0 {
        Seq::empty()
    } else {
        seq![(v % 256) as u8] + le_bytes(v / 256, (n - 1) as nat)
    }
}

/// `256` to the power `n`.
pub open spec fn byte_range(n: nat) -> int
    decreases n,
{
    if n == 0 {
        1
    } else {
        256 * byte_range((n - 1) as nat)
    }
}

/// The number stored in the four bytes of `s` from `off` on.
pub open spec fn u32_at(s: Seq<u8>, off: int) -> u32 {
    le_value(s.subrange(off, off + 4)) as u32
}

/// The number stored in the eight bytes of `s` from `off` on.
pub open spec fn u64_at(s: Seq<u8>, off: int) -> u64 {
    le_value(s.subrange(off, off + 8)) as u64
}

/// The two's complement reading of a 32-bit pattern.
pub open spec fn signed32(v: u32) -> i32 {
    if v < 0x8000_0000 {
        v as i32
    } else {
        (v - 0x1_0000_0000) as i32
    }
}

/// The 32-bit pattern of a signed number.
pub open spec fn unsigned32(v: i32) -> u32 {
    if v >= 0 {
        v as u32
    } else {
        (v + 0x1_0000_0000) as u32
    }
}

/// The 32 low bits of `v`.
pub open spec fn low32(v: int) -> u32 {
    (v % 0x1_0000_0000) as u32
}

/// `n` bytes spell a number below `256` to the power `n`.
pub proof fn lemma_le_value_range(s: Seq<u8>)
    ensures
        0 <= le_value(s) < byte_range(s.len()),
    decreases s.len(),
{
    if s.len() > 0 {
        lemma_le_value_range(s.drop_first());
    }
}

/// `n` bytes hold `n` bytes.
pub proof fn lemma_le_bytes_len(v: int, n: nat)
    ensures
        le_bytes(v, n).len() == n,
    decreases n,
{
    if n > 0 {
        lemma_le_bytes_len(v / 256, (n - 1) as nat);
    }
}

/// Reading back the little-endian bytes of a number that fits gives the number.
pub proof fn le_bytes_read_back(v: int, n: nat)
    requires
        0 <= v < byte_range(n),
    ensures
        le_value(le_bytes(v, n)) == v,
    decreases n,
{
    if n > 0 {
        le_bytes_read_back(v / 256, (n - 1) as nat);
        assert(le_bytes(v, n).drop_first() =~= le_bytes(v / 256, (n - 1) as nat));
    }
}

/// Different byte sequences of one length spell different numbers.
pub proof fn le_value_writes_back(s: Seq<u8>)
    ensures
        le_bytes(le_value(s), s.len()) == s,
    decreases s.len(),
{
    if s.len() > 0 {
        let t = s.drop_first();
        le_value_writes_back(t);
        assert(le_value(s) / 256 == le_value(t));
        assert(le_bytes(le_value(s), s.len()) =~= s);
    }
}

pub proof fn lemma_byte_ranges()
    ensures
        byte_range(1) == 0x100,
        byte_range(4) == 0x1_0000_0000,
        byte_range(8) == 0x1_0000_0000_0000_0000,
{
    reveal_with_fuel(byte_range, 9);
}

/// The bytes of `part`, standing at `off` inside `s`, read as a 64-bit number.
pub proof fn lemma_u64_at(s: Seq<u8>, off: int, v: u64)
    requires
        0 <= off,
        off + 8 <= s.len(),
        s.subrange(off, off + 8) == le_bytes(v as int, 8),
    ensures
        u64_at(s, off) == v,
{
    lemma_byte_ranges();
    le_bytes_read_back(v as int, 8);
}

/// The same for a 32-bit number.
pub proof fn lemma_u32_at(s: Seq<u8>, off: int, v: u32)
    requires
        0 <= off,
        off + 4 <= s.len(),
        s.subrange(off, off + 4) == le_bytes(v as int, 4),
    ensures
        u32_at(s, off) == v,
{
    lemma_byte_ranges();
    le_bytes_read_back(v as int, 4);
}

fn read_le(buf: &[u8], off: usize, n: usize) -> (v: u64)
    requires
        n <= 8,
        off + n <= buf.len(),
    ensures
        v == le_value(buf@.subrange(off as int, off + n)),
{
    let mut v: u64 = 0;
    let mut i: usize = n;
    proof {
        assert(buf@.subrange(off + n, off + n) =~= Seq::<u8>::empty());
    }
    while i > 0
        invariant
            i <= n <= 8,
            off + n <= buf.len(),
            v == le_value(buf@.subrange(off + i, off + n)),
        decreases i,
    {
        i = i - 1;
        proof {
            let rest = buf@.subrange(off + i + 1, off + n);
            let whole = buf@.subrange(off + i, off + n);
            assert(whole.drop_first() =~= rest);
            assert(whole[0] == buf@[off + i]);
            lemma_le_value_range(rest);
            lemma_le_value_range(whole);
            reveal_with_fuel(byte_range, 9);
        }
        v = buf[off + i] as u64 + 256 * v;
    }
    v
}

/// The byte at `off`.
pub fn read_u8(buf: &[u8], off: usize) -> (v: u8)
    requires
        off < buf.len(),
    ensures
        v == buf@[off as int],
{
    buf[off]
}

/// The little-endian 32-bit number at `off`.
pub fn read_u32_le(buf: &[u8], off: usize) -> (v: u32)
    requires
        off + 4 <= buf.len(),
    ensures
        v == u32_at(buf@, off as int),
        v == le_value(buf@.subrange(off as int, off + 4)),
{
    proof {
        lemma_byte_ranges();
        lemma_le_value_range(buf@.subrange(off as int, off + 4));
    }
    read_le(buf, off, 4) as u32
}

/// The little-endian 64-bit number at `off`.
pub fn read_u64_le(buf: &[u8], off: usize) -> (v: u64)
    requires
        off + 8 <= buf.len(),
    ensures
        v == u64_at(buf@, off as int),
        v == le_value(buf@.subrange(off as int, off + 8)),
{
    proof {
        lemma_byte_ranges();
        lemma_le_value_range(buf@.subrange(off as int, off + 8));
    }
    read_le(buf, off, 8)
}

/// The signed number with the given 32-bit pattern.
pub fn to_signed32(v: u32) -> (r: i32)
    ensures
        r == signed32(v),
{
    if v < 0x8000_0000 {
        v as i32
    } else {
        (v as i64 - 0x1_0000_0000) as i32
    }
}

fn push_le(buf: &mut Vec<u8>, v: u64, n: usize)
    requires
        n <= 8,
    ensures
        final(buf)@ == old(buf)@ + le_bytes(v as int, n as nat),
{
    let mut rest: u64 = v;
    let mut i: usize = 0;
    while i < n
        invariant
            i <= n,
            buf@ + le_bytes(rest as int, (n - i) as nat) == old(buf)@ + le_bytes(
                v as int,
                n as nat,
            ),
        decreases n - i,
    {
        let ghost before = buf@;
        let ghost r = rest as int;
        let b: u8 = (rest % 256) as u8;
        buf.push(b);
        rest = rest / 256;
        i = i + 1;
        proof {
            assert(buf@ + le_bytes(r / 256, (n - i) as nat) =~= before + (seq![b] + le_bytes(
                r / 256,
                (n - i) as nat,
            )));
        }
    }
    proof {
        assert(buf@ + le_bytes(rest as int, 0) =~= buf@);
    }
}

/// Append the eight bytes of `v`.
pub fn write_u64_le(buf: &mut Vec<u8>, v: u64)
    ensures
        final(buf)@ == old(buf)@ + le_bytes(v as int, 8),
{
    push_le(buf, v, 8)
}

/// Append the four bytes of `v`.
pub fn write_u32_le(buf: &mut Vec<u8>, v: u32)
    ensures
        final(buf)@ == old(buf)@ + le_bytes(v as int, 4),
{
    push_le(buf, v as u64, 4)
}

/// Append the four bytes of the pattern of `v`.
pub fn write_i32_le(buf: &mut Vec<u8>, v: i32)
    ensures
        final(buf)@ == old(buf)@ + le_bytes(unsigned32(v) as int, 4),
{
    let u: u32 = if v >= 0 {
        v as u32
    } else {
        (v as i64 + 0x1_0000_0000) as u32
    };
    push_le(buf, u as u64, 4)
}

} // verus!
