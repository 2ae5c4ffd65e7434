//! Spatial order of the feature store: records that are close on the map are
//! moved close together in the store.

use vstd::prelude::*;

use crate::feature_store::{stored_record, FeatureMeta};
use crate::order::{is_stable_order, positions, stable_order};

verus! {

/// Number of bits per axis in a Morton code.
pub const MORTON_BITS: u32 = 21;

/// The `bits` low bits of `v`, each moved to an even position.
pub open spec fn spread(v: int, bits: nat) -> int
    decreases bits,
{
    if bits == 0 {
        0
    } else {
        v % 2 + 4 * spread(v / 2, (bits - 1) as nat)
    }
}

/// The Morton code of the cell `(x, y)`: the bits of `x` at the even positions
/// and the bits of `y` at the odd ones.
pub open spec fn morton(x: int, y: int, bits: nat) -> int {
    spread(x, bits) + 2 * spread(y, bits)
}

/// Two to the power `n`.
pub open spec fn two_to(n: nat) -> int
    decreases n,
{
    if n == 0 {
        1
    } else {
        2 * two_to((n - 1) as nat)
    }
}

/// Four to the power `n`.
pub open spec fn four_to(n: nat) -> int
    decreases n,
{
    if n == 0 {
        1
    } else {
        4 * four_to((n - 1) as nat)
    }
}

/// Spread bits take up twice the room.
proof fn lemma_spread_range(v: int, bits: nat)
    ensures
        0 <= 3 * spread(v, bits) < four_to(bits),
    decreases bits,
{
    if bits > 0 {
        lemma_spread_range(v / 2, (bits - 1) as nat);
    }
}

proof fn lemma_four_to_21()
    ensures
        four_to(21) == 0x400_0000_0000,
{
    reveal_with_fuel(four_to, 22);
}

/// The code of a cell, without its two low bits, is the code of the cell of
/// twice the size that it lies in.
proof fn lemma_morton_halves(x: int, y: int, bits: nat)
    requires
        bits > 0,
    ensures
        morton(x, y, bits) / 4 == morton(x / 2, y / 2, (bits - 1) as nat),
{
}

/// The cells of a square whose side is a power of two share a contiguous range
/// of codes: all of them have the code of the square in front.
pub proof fn morton_codes_cluster(x: int, y: int, bits: nat, m: nat)
    requires
        m <= bits,
        0 <= x,
        0 <= y,
    ensures
        morton(x, y, bits) / four_to(m) == morton(x / two_to(m), y / two_to(m), (bits - m) as nat),
    decreases m,
{
    if m > 0 {
        let k = (m - 1) as nat;
        let f = four_to(k);
        let t = two_to(k);
        morton_codes_cluster(x, y, bits, k);
        lemma_morton_halves(x / t, y / t, (bits - k) as nat);
        lemma_powers_positive(k);
        let code = morton(x, y, bits);
        lemma_spread_range(x, bits);
        lemma_spread_range(y, bits);
        assert(code / (4 * f) == (code / f) / 4) by {
            vstd::arithmetic::div_mod::lemma_div_denominator(code, f, 4);
            assert(f * 4 == 4 * f);
        }
        assert(x / (2 * t) == (x / t) / 2) by {
            vstd::arithmetic::div_mod::lemma_div_denominator(x, t, 2);
            assert(t * 2 == 2 * t);
        }
        assert(y / (2 * t) == (y / t) / 2) by {
            vstd::arithmetic::div_mod::lemma_div_denominator(y, t, 2);
            assert(t * 2 == 2 * t);
        }
    } else {
        assert(morton(x, y, bits) / 1 == morton(x, y, bits));
        assert(x / 1 == x && y / 1 == y);
    }
}

proof fn lemma_powers_positive(n: nat)
    ensures
        two_to(n) >= 1,
        four_to(n) >= 1,
    decreases n,
{
    if n > 0 {
        lemma_powers_positive((n - 1) as nat);
    }
}

/// Different cells have different codes.
pub proof fn morton_codes_are_distinct(x1: int, y1: int, x2: int, y2: int, bits: nat)
    requires
        0 <= x1 < two_to(bits),
        0 <= y1 < two_to(bits),
        0 <= x2 < two_to(bits),
        0 <= y2 < two_to(bits),
        morton(x1, y1, bits) == morton(x2, y2, bits),
    ensures
        x1 == x2,
        y1 == y2,
    decreases bits,
{
    if bits > 0 {
        let b = (bits - 1) as nat;
        lemma_morton_halves(x1, y1, bits);
        lemma_morton_halves(x2, y2, bits);
        morton_codes_are_distinct(x1 / 2, y1 / 2, x2 / 2, y2 / 2, b);
    }
}

/// Spread the low 21 bits of `v` so that each occupies an even bit position.
pub fn interleave_bits(v: u32) -> (r: u64)
    ensures
        r == spread(v as int, MORTON_BITS as nat),
{
    let mut rest: u32 = v;
    let mut unit: u64 = 1;
    let mut out: u64 = 0;
    let mut i: u32 = 0;
    proof {
        lemma_four_to_21();
        lemma_spread_range(v as int, 21);
    }
    while i < MORTON_BITS
        invariant
            i <= MORTON_BITS,
            unit == four_to(i as nat),
            0 <= out,
            out + unit * spread(rest as int, (MORTON_BITS - i) as nat) == spread(
                v as int,
                MORTON_BITS as nat,
            ),
            spread(v as int, MORTON_BITS as nat) < 0x400_0000_0000,
            unit <= 0x400_0000_0000,
        decreases MORTON_BITS - i,
    {
        let bit: u64 = (rest % 2) as u64;
        let ghost s = spread(rest as int / 2, (MORTON_BITS - i - 1) as nat);
        proof {
            lemma_spread_range(rest as int / 2, (MORTON_BITS - i - 1) as nat);
            assert(unit * (bit + 4 * s) == unit * bit + (4 * unit) * s) by (nonlinear_arith);
            assert(unit * bit <= unit) by (nonlinear_arith)
                requires
                    bit <= 1,
                    unit >= 0,
            ;
            lemma_four_monotone((i + 1) as nat, 21);
            lemma_four_to_21();
        }
        out = out + unit * bit;
        rest = rest / 2;
        unit = unit * 4;
        i = i + 1;
    }
    proof {
        assert(unit * spread(rest as int, 0) == 0);
    }
    out
}

proof fn lemma_four_monotone(a: nat, b: nat)
    requires
        a <= b,
    ensures
        1 <= four_to(a) <= four_to(b),
    decreases b,
{
    lemma_powers_positive(a);
    if a < b {
        lemma_four_monotone(a, (b - 1) as nat);
    }
}

/// The Morton code of a grid cell; 21 bits of each coordinate count.
pub fn morton_code(x: u32, y: u32) -> (code: u64)
    ensures
        code == morton(x as int, y as int, MORTON_BITS as nat),
{
    proof {
        lemma_four_to_21();
        lemma_spread_range(x as int, 21);
        lemma_spread_range(y as int, 21);
    }
    interleave_bits(x) + 2 * interleave_bits(y)
}

/// The sum of the lengths of the first `n` records, taken in the given order.
pub open spec fn length_before(index: Seq<FeatureMeta>, order: Seq<int>, n: int) -> int
    decreases n,
{
    if n <= 0 {
        0
    } else {
        length_before(index, order, n - 1) + index[order[n - 1]].len
    }
}

/// The index entries after the records were moved into the given order, one
/// right behind the other.
pub open spec fn moved_entry(index: Seq<FeatureMeta>, order: Seq<int>, k: int) -> FeatureMeta {
    FeatureMeta {
        bbox: index[order[k]].bbox,
        offset: length_before(index, order, k) as u64,
        len: index[order[k]].len,
    }
}

/// The records in the given order, one right behind the other.
pub open spec fn moved_store(
    store: Seq<u8>,
    index: Seq<FeatureMeta>,
    order: Seq<int>,
    n: int,
) -> Seq<u8>
    decreases n,
{
    if n <= 0 {
        Seq::empty()
    } else {
        let m = index[order[n - 1]];
        moved_store(store, index, order, n - 1) + store.subrange(
            m.offset as int,
            m.offset + m.len,
        )
    }
}

proof fn lemma_moved_len(store: Seq<u8>, index: Seq<FeatureMeta>, order: Seq<int>, n: int)
    requires
        0 <= n <= order.len(),
        forall|i: int|
            0 <= i < order.len() ==> index[#[trigger] order[i]].offset + index[order[i]].len
                <= store.len(),
    ensures
        moved_store(store, index, order, n).len() == length_before(index, order, n),
    decreases n,
{
    if n > 0 {
        lemma_moved_len(store, index, order, n - 1);
        assert(index[order[n - 1]].offset + index[order[n - 1]].len <= store.len());
    }
}

/// Moving the records changes none of them: each is found, byte for byte, where
/// its new index entry says.
pub proof fn moved_records_are_unchanged(
    store: Seq<u8>,
    index: Seq<FeatureMeta>,
    order: Seq<int>,
    n: int,
    k: int,
)
    requires
        0 <= k < n <= order.len(),
        forall|i: int|
            0 <= i < order.len() ==> index[#[trigger] order[i]].offset + index[order[i]].len
                <= store.len(),
        length_before(index, order, n) <= u64::MAX,
    ensures
        ({
            let e = moved_entry(index, order, k);
            let m = index[order[k]];
            stored_record(moved_store(store, index, order, n), e.offset, e.len) == stored_record(
                store,
                m.offset,
                m.len,
            )
        }),
    decreases n,
{
    let m = index[order[k]];
    let e = moved_entry(index, order, k);
    let last = index[order[n - 1]];
    let head = moved_store(store, index, order, n - 1);
    let whole = moved_store(store, index, order, n);
    let part = store.subrange(last.offset as int, last.offset + last.len);
    assert(index[order[k]].offset + index[order[k]].len <= store.len());
    assert(index[order[n - 1]].offset + index[order[n - 1]].len <= store.len());
    lemma_moved_len(store, index, order, n - 1);
    lemma_moved_len(store, index, order, n);
    lemma_moved_len(store, index, order, k);
    assert(whole == head + part);
    if k == n - 1 {
        assert(whole.subrange(head.len() as int, whole.len() as int) =~= part);
    } else {
        moved_records_are_unchanged(store, index, order, n - 1, k);
        lemma_before_monotone(index, order, k + 1, n - 1);
        assert(whole.subrange(e.offset as int, e.offset + e.len) =~= head.subrange(
            e.offset as int,
            e.offset + e.len,
        ));
    }
}

proof fn lemma_before_monotone(index: Seq<FeatureMeta>, order: Seq<int>, a: int, b: int)
    requires
        0 <= a <= b,
    ensures
        0 <= length_before(index, order, a) <= length_before(index, order, b),
    decreases b,
{
    if a < b {
        lemma_before_monotone(index, order, a, b - 1);
    } else if a > 0 {
        lemma_before_monotone(index, order, a - 1, a - 1);
    }
}

proof fn lemma_before_bound(index: Seq<FeatureMeta>, order: Seq<int>, n: int)
    requires
        0 <= n,
    ensures
        0 <= length_before(index, order, n) <= 0xffff_ffff * n,
    decreases n,
{
    if n > 0 {
        lemma_before_bound(index, order, n - 1);
    }
}

/// Plan the move of the records into ascending order of their codes: the
/// positions of the records in the new order, and the new index.
pub fn plan_spatial_sort(index: &Vec<FeatureMeta>, codes: &Vec<u64>) -> (r: (
    Vec<usize>,
    Vec<FeatureMeta>,
))
    requires
        codes.len() == index.len(),
        index.len() <= 0x1_0000_0000,
    ensures
        is_stable_order(codes@, positions(r.0@)),
        r.0.len() == index.len(),
        r.1.len() == index.len(),
        forall|k: int| 0 <= k < r.0.len() ==> #[trigger] r.0@[k] < index.len(),
        forall|k: int|
            0 <= k < r.1.len() ==> #[trigger] r.1@[k] == moved_entry(index@, positions(r.0@), k),
{
    let order = stable_order(codes);
    let ghost pos = positions(order@);
    let mut moved: Vec<FeatureMeta> = Vec::new();
    let mut offset: u64 = 0;
    let mut k: usize = 0;
    while k < order.len()
        invariant
            k <= order.len(),
            order.len() == index.len(),
            pos == positions(order@),
            forall|j: int| 0 <= j < order.len() ==> #[trigger] order[j] < index.len(),
            index.len() <= 0x1_0000_0000,
            offset == length_before(index@, pos, k as int),
            moved.len() == k,
            forall|j: int| 0 <= j < k ==> #[trigger] moved@[j] == moved_entry(index@, pos, j),
        decreases order.len() - k,
    {
        let m = index[order[k]];
        assert(pos[k as int] == order[k as int]);
        moved.push(FeatureMeta { bbox: m.bbox, offset, len: m.len });
        proof {
            lemma_before_bound(index@, pos, k + 1);
        }
        offset = offset + m.len as u64;
        k = k + 1;
    }
    (order, moved)
}

/// A record that is moved keeps its bounding box and its length, and starts where the
/// record in front of it ends.
pub proof fn moved_entries_keep_their_boxes(index: Seq<FeatureMeta>, order: Seq<int>, k: int)
    requires
        0 <= k < order.len(),
        length_before(index, order, k + 1) <= u64::MAX,
    ensures
        moved_entry(index, order, k).bbox == index[order[k]].bbox,
        moved_entry(index, order, k).len == index[order[k]].len,
        moved_entry(index, order, 0).offset == 0,
        k + 1 < order.len() ==> moved_entry(index, order, k + 1).offset == moved_entry(
            index,
            order,
            k,
        ).offset + moved_entry(index, order, k).len,
{
    lemma_before_monotone(index, order, k, k + 1);
}

/// The bits of the two coordinates alternate in a code, those of the column in the even
/// places, and only as many of them count as are asked for.
pub proof fn bits_alternate(x: int, y: int, bits: nat)
    requires
        0 <= x,
        0 <= y,
    ensures
        bits > 0 ==> morton(x, y, bits) % 2 == x % 2,
        bits > 0 ==> (morton(x, y, bits) / 2) % 2 == y % 2,
        bits > 0 ==> morton(x, y, bits) / 4 == morton(x / 2, y / 2, (bits - 1) as nat),
        morton(x, y, 0) == 0,
{
}

} // verus!
