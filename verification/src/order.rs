//! Stable ordering by an integer key.

use vstd::prelude::*;

verus! {

/// Item `a` comes before item `b`: by its key, and among equal keys by its
/// position.
pub open spec fn before(keys: Seq<u64>, a: int, b: int) -> bool {
    keys[a] < keys[b] || (keys[a] == keys[b] && a < b)
}

/// `order` lists the positions of `keys` in ascending order of the keys;
/// positions with equal keys keep their order.
pub open spec fn is_stable_order(keys: Seq<u64>, order: Seq<int>) -> bool {
    &&& order.len() == keys.len()
    &&& forall|i: int| 0 <= i < order.len() ==> 0 <= #[trigger] order[i] < keys.len()
    &&& forall|i: int, j: int|
        0 <= i < j < order.len() ==> before(keys, #[trigger] order[i], #[trigger] order[j])
}

/// The positions as mathematical integers.
pub open spec fn positions(order: Seq<usize>) -> Seq<int> {
    Seq::new(order.len(), |i: int| order[i] as int)
}

proof fn lemma_distinct_positions_cover(order: Seq<int>, n: nat)
    requires
        order.len() == n,
        forall|i: int| 0 <= i < order.len() ==> 0 <= #[trigger] order[i] < n,
        forall|i: int, j: int|
            0 <= i < j < order.len() ==> #[trigger] order[i] != #[trigger] order[j],
    ensures
        forall|p: int| 0 <= p < n ==> order.contains(p),
{
    order.unique_seq_to_set();
    let all = vstd::set_lib::set_int_range(0, n as int);
    vstd::set_lib::lemma_int_range(0, n as int);
    assert(order.to_set().subset_of(all)) by {
        assert forall|p: int| order.to_set().contains(p) implies all.contains(p) by {
            let i = choose|i: int| 0 <= i < order.len() && order[i] == p;
            assert(0 <= order[i] < n);
        }
    }
    vstd::set_lib::lemma_subset_equality(order.to_set(), all);
    assert forall|p: int| 0 <= p < n implies order.contains(p) by {
        assert(all.contains(p));
        assert(order.to_set().contains(p));
    }
}

/// A stable order lists every position.
pub proof fn stable_order_lists_all(keys: Seq<u64>, order: Seq<int>)
    requires
        is_stable_order(keys, order),
    ensures
        forall|p: int| 0 <= p < keys.len() ==> order.contains(p),
{
    assert forall|i: int, j: int| 0 <= i < j < order.len() implies #[trigger] order[i]
        != #[trigger] order[j] by {
        assert(before(keys, order[i], order[j]));
    }
    lemma_distinct_positions_cover(order, keys.len());
}

proof fn lemma_order_prefix(keys: Seq<u64>, a: Seq<int>, b: Seq<int>, n: int)
    requires
        is_stable_order(keys, a),
        is_stable_order(keys, b),
        0 <= n <= keys.len(),
    ensures
        forall|i: int| 0 <= i < n ==> a[i] == b[i],
    decreases n,
{
    if n > 0 {
        lemma_order_prefix(keys, a, b, n - 1);
        let k = n - 1;
        if a[k] != b[k] {
            stable_order_lists_all(keys, a);
            stable_order_lists_all(keys, b);
            assert(a.contains(b[k]));
            assert(b.contains(a[k]));
            let i = choose|i: int| 0 <= i < a.len() && a[i] == b[k];
            let j = choose|j: int| 0 <= j < b.len() && b[j] == a[k];
            assert(before(keys, a[k], a[i])) by {
                if i < k {
                    assert(a[i] == b[i]);
                    assert(before(keys, b[i], b[k]));
                }
            }
            assert(before(keys, b[k], b[j])) by {
                if j < k {
                    assert(a[j] == b[j]);
                    assert(before(keys, a[j], a[k]));
                }
            }
        }
    }
}

/// There is one stable order.
pub proof fn stable_order_is_unique(keys: Seq<u64>, a: Seq<int>, b: Seq<int>)
    requires
        is_stable_order(keys, a),
        is_stable_order(keys, b),
    ensures
        a == b,
{
    lemma_order_prefix(keys, a, b, keys.len() as int);
    assert(a =~= b);
}

/// Where the keys are in ascending order already, nothing moves.
pub proof fn stable_order_keeps_sorted(keys: Seq<u64>, order: Seq<int>)
    requires
        is_stable_order(keys, order),
        forall|i: int, j: int| 0 <= i <= j < keys.len() ==> keys[i] <= keys[j],
    ensures
        forall|i: int| 0 <= i < keys.len() ==> order[i] == i,
{
    let same = Seq::new(keys.len(), |i: int| i);
    assert(is_stable_order(keys, same));
    stable_order_is_unique(keys, order, same);
}

/// A sorted run of the positions from `lo` up to `hi`.
spec fn sorted_run(keys: Seq<u64>, run: Seq<usize>, lo: int, hi: int) -> bool {
    &&& run.len() == hi - lo
    &&& forall|i: int| 0 <= i < run.len() ==> lo <= #[trigger] run[i] < hi
    &&& forall|i: int, j: int|
        0 <= i < j < run.len() ==> before(keys, #[trigger] run[i] as int, #[trigger] run[j] as int)
}

fn merge_runs(
    keys: &Vec<u64>,
    left: Vec<usize>,
    right: Vec<usize>,
    Ghost(lo): Ghost<int>,
    Ghost(mid): Ghost<int>,
    Ghost(hi): Ghost<int>,
) -> (out: Vec<usize>)
    requires
        0 <= lo <= mid <= hi <= keys.len(),
        sorted_run(keys@, left@, lo, mid),
        sorted_run(keys@, right@, mid, hi),
    ensures
        sorted_run(keys@, out@, lo, hi),
{
    let mut out: Vec<usize> = Vec::new();
    let mut i: usize = 0;
    let mut j: usize = 0;
    while i < left.len() || j < right.len()
        invariant
            0 <= lo <= mid <= hi <= keys.len(),
            sorted_run(keys@, left@, lo, mid),
            sorted_run(keys@, right@, mid, hi),
            i <= left.len(),
            j <= right.len(),
            out.len() == i + j,
            forall|k: int| 0 <= k < out.len() ==> lo <= #[trigger] out[k] < hi,
            forall|k: int, m: int|
                0 <= k < m < out.len() ==> before(
                    keys@,
                    #[trigger] out[k] as int,
                    #[trigger] out[m] as int,
                ),
            forall|k: int, m: int|
                0 <= k < out.len() && i <= m < left.len() ==> before(
                    keys@,
                    #[trigger] out[k] as int,
                    #[trigger] left[m] as int,
                ),
            forall|k: int, m: int|
                0 <= k < out.len() && j <= m < right.len() ==> before(
                    keys@,
                    #[trigger] out[k] as int,
                    #[trigger] right[m] as int,
                ),
        decreases left.len() - i + right.len() - j,
    {
        let take_left: bool = if i == left.len() {
            false
        } else if j == right.len() {
            true
        } else {
            assert(left@[i as int] < mid <= right@[j as int]);
            keys[left[i]] <= keys[right[j]]
        };
        if take_left {
            let v: usize = left[i];
            out.push(v);
            proof {
                assert forall|m: int| j <= m < right.len() implies before(
                    keys@,
                    v as int,
                    #[trigger] right@[m] as int,
                ) by {
                    assert(left@[i as int] < mid <= right@[m]);
                    assert(right@[j as int] < keys.len());
                    if j < m {
                        assert(before(keys@, right@[j as int] as int, right@[m] as int));
                    }
                }
            }
            i = i + 1;
        } else {
            let v: usize = right[j];
            out.push(v);
            proof {
                assert forall|m: int| i <= m < left.len() implies before(
                    keys@,
                    v as int,
                    #[trigger] left@[m] as int,
                ) by {
                    if i < m {
                        assert(before(keys@, left@[i as int] as int, left@[m] as int));
                    }
                }
            }
            j = j + 1;
        }
    }
    out
}

fn sort_range(keys: &Vec<u64>, lo: usize, hi: usize) -> (run: Vec<usize>)
    requires
        lo <= hi <= keys.len(),
    ensures
        sorted_run(keys@, run@, lo as int, hi as int),
    decreases hi - lo,
{
    if hi - lo == 0 {
        return Vec::new();
    }
    if hi - lo == 1 {
        let mut run: Vec<usize> = Vec::new();
        run.push(lo);
        return run;
    }
    let mid: usize = lo + (hi - lo) / 2;
    let left = sort_range(keys, lo, mid);
    let right = sort_range(keys, mid, hi);
    merge_runs(keys, left, right, Ghost(lo as int), Ghost(mid as int), Ghost(hi as int))
}

/// The positions of `keys` in stable ascending order.
pub fn stable_order(keys: &Vec<u64>) -> (order: Vec<usize>)
    ensures
        is_stable_order(keys@, positions(order@)),
        forall|i: int| 0 <= i < order.len() ==> #[trigger] order[i] < keys.len(),
        order.len() == keys.len(),
{
    let order = sort_range(keys, 0, keys.len());
    proof {
        let p = positions(order@);
        assert forall|i: int, j: int| 0 <= i < j < p.len() implies before(
            keys@,
            #[trigger] p[i],
            #[trigger] p[j],
        ) by {
            assert(before(keys@, order@[i] as int, order@[j] as int));
        }
        assert forall|i: int| 0 <= i < p.len() implies 0 <= #[trigger] p[i] < keys.len() by {
            assert(order@[i] < keys.len());
        }
    }
    order
}

pub(crate) proof fn lemma_filter_push<T>(s: Seq<T>, keep: spec_fn(T) -> bool, x: T)
    ensures
        s.push(x).filter(keep) == if keep(x) {
            s.filter(keep).push(x)
        } else {
            s.filter(keep)
        },
{
    reveal(Seq::filter);
    assert(s.push(x).drop_last() =~= s);
}

} // verus!
