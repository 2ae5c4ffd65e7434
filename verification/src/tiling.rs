//! Which features go into which tiles, and in which portions tiles are encoded.

use std::collections::HashMap;

use vstd::prelude::*;

use crate::order::{before, is_stable_order, positions, stable_order};
use crate::tile_id::{
    is_tile, lemma_zoom_limits, side, tile_id, tile_ids_are_distinct, tile_ids_stay_in_their_zoom,
    tile_to_id,
};

verus! {

broadcast use vstd::std_specs::hash::group_hash_axioms;

/// A tile never takes more features than this.
pub const MAX_FEATURES_PER_TILE: usize = 200_000;

/// Tiles are encoded in portions of about this many feature references.
pub const CHUNK_FEATURE_REFS: usize = 50_000;

/// The columns and rows of tiles that a feature may touch, both ends counted.
#[derive(Debug, Clone, Copy, PartialEq, Eq, Structural)]
pub struct TileSpan {
    pub x_min: u32,
    pub x_max: u32,
    pub y_min: u32,
    pub y_max: u32,
}

/// The span with one more tile on each side, within the grid of zoom `z`.
pub open spec fn padded(s: TileSpan, z: nat) -> TileSpan {
    TileSpan {
        x_min: if s.x_min > 0 {
            (s.x_min - 1) as u32
        } else {
            0
        },
        x_max: if s.x_max + 1 <= side(z) - 1 {
            (s.x_max + 1) as u32
        } else {
            (side(z) - 1) as u32
        },
        y_min: if s.y_min > 0 {
            (s.y_min - 1) as u32
        } else {
            0
        },
        y_max: if s.y_max + 1 <= side(z) - 1 {
            (s.y_max + 1) as u32
        } else {
            (side(z) - 1) as u32
        },
    }
}

/// The number of columns (and rows) at zoom `z`.
pub fn grid_side(z: u8) -> (n: u32)
    requires
        z <= 31,
    ensures
        n == side(z as nat),
{
    let mut n: u32 = 1;
    let mut i: u8 = 0;
    while i < z
        invariant
            i <= z <= 31,
            n == side(i as nat),
        decreases z - i,
    {
        proof {
            lemma_zoom_limits((i + 1) as nat);
        }
        n = n * 2;
        i = i + 1;
    }
    n
}

/// The tiles that a feature may touch: the tiles under its bounding box, and
/// one more on each side, so that a neighbour gets what reaches over the edge.
pub fn pad_span(s: TileSpan, z: u8) -> (r: TileSpan)
    requires
        z <= 31,
        s.x_max < u32::MAX,
        s.y_max < u32::MAX,
    ensures
        r == padded(s, z as nat),
{
    proof {
        lemma_zoom_limits(z as nat);
    }
    let max_tile: u32 = grid_side(z) - 1;
    let x_max: u32 = s.x_max + 1;
    let y_max: u32 = s.y_max + 1;
    TileSpan {
        x_min: if s.x_min > 0 {
            s.x_min - 1
        } else {
            0
        },
        x_max: if x_max < max_tile {
            x_max
        } else {
            max_tile
        },
        y_min: if s.y_min > 0 {
            s.y_min - 1
        } else {
            0
        },
        y_max: if y_max < max_tile {
            y_max
        } else {
            max_tile
        },
    }
}

/// The tile `(x, y)` lies within the span.
pub open spec fn covers(s: TileSpan, x: int, y: int) -> bool {
    s.x_min <= x <= s.x_max && s.y_min <= y <= s.y_max
}

/// A feature reaches the tile `(x, y)`; a feature without a span reaches none.
pub open spec fn reaches(s: Option<TileSpan>, x: int, y: int) -> bool {
    s matches Some(span) && covers(span, x, y)
}

/// The numbers of the features that reach the tile `(x, y)`, in ascending
/// order, at most `cap` of them.
pub open spec fn reaching(spans: Seq<Option<TileSpan>>, x: int, y: int, cap: int) -> Seq<u32>
    decreases spans.len(),
{
    if spans.len() == 0 {
        Seq::empty()
    } else {
        let head = reaching(spans.drop_last(), x, y, cap);
        if reaches(spans.last(), x, y) && head.len() < cap {
            head.push((spans.len() - 1) as u32)
        } else {
            head
        }
    }
}

/// A tile and the numbers of the features that it may show.
pub struct TileBucket {
    pub x: u32,
    pub y: u32,
    pub features: Vec<u32>,
}

/// Every span lies within the grid of zoom `z`.
pub open spec fn spans_within(spans: Seq<Option<TileSpan>>, z: nat) -> bool {
    forall|i: int|
        0 <= i < spans.len() ==> ((#[trigger] spans[i]) matches Some(s) ==> s.x_max < side(z)
            && s.y_max < side(z))
}

/// The padded span of a feature lies within the grid.
pub proof fn padded_span_is_within(s: TileSpan, z: nat)
    requires
        z <= 31,
    ensures
        padded(s, z).x_max < side(z),
        padded(s, z).y_max < side(z),
{
    lemma_zoom_limits(z);
}

/// Each bucket holds exactly the features that reach its tile.
pub open spec fn buckets_match(
    buckets: Seq<TileBucket>,
    spans: Seq<Option<TileSpan>>,
    z: nat,
    cap: int,
) -> bool {
    forall|k: int|
        0 <= k < buckets.len() ==> {
            let b = #[trigger] buckets[k];
            &&& is_tile(z, b.x as int, b.y as int)
            &&& b.features@ == reaching(spans, b.x as int, b.y as int, cap)
            &&& b.features@.len() > 0
        }
}

/// The identifier of the tile of a bucket.
pub open spec fn bucket_id(b: TileBucket, z: nat) -> u64 {
    tile_id(z, b.x as int, b.y as int) as u64
}

/// There is a bucket for every tile that a feature reaches.
pub open spec fn buckets_cover(
    buckets: Seq<TileBucket>,
    spans: Seq<Option<TileSpan>>,
    z: nat,
    cap: int,
) -> bool {
    forall|x: int, y: int| #[trigger]
        is_tile(z, x, y) && reaching(spans, x, y, cap).len() > 0 ==> exists|k: int|
            0 <= k < buckets.len() && (#[trigger] buckets[k]).x == x && buckets[k].y == y
}

/// The state while features are binned: the buckets, and where the bucket of
/// each tile is.
pub struct Bins {
    z: u8,
    cap: usize,
    buckets: Vec<TileBucket>,
    index: HashMap<u64, usize>,
}

impl Bins {
    /// The index knows exactly the buckets, each under its tile's identifier.
    spec fn indexed(&self) -> bool {
        &&& self.z <= 31
        &&& forall|k: int|
            0 <= k < self.buckets.len() ==> {
                let b = #[trigger] self.buckets@[k];
                &&& is_tile(self.z as nat, b.x as int, b.y as int)
                &&& self.index@.contains_key(bucket_id(b, self.z as nat))
                &&& self.index@[bucket_id(b, self.z as nat)] == k
            }
        &&& forall|id: u64| #[trigger]
            self.index@.contains_key(id) ==> self.index@[id] < self.buckets.len() && bucket_id(
                self.buckets@[self.index@[id] as int],
                self.z as nat,
            ) == id
    }

    /// What is listed for a tile.
    spec fn listed(&self, x: int, y: int) -> Seq<u32> {
        let id = tile_id(self.z as nat, x, y) as u64;
        if self.index@.contains_key(id) {
            self.buckets@[self.index@[id] as int].features@
        } else {
            Seq::empty()
        }
    }

    spec fn none_empty(&self) -> bool {
        forall|k: int|
            0 <= k < self.buckets.len() ==> (#[trigger] self.buckets@[k]).features@.len() > 0
    }

    fn put(&mut self, x: u32, y: u32, feature: u32)
        requires
            old(self).indexed(),
            old(self).none_empty(),
            is_tile(old(self).z as nat, x as int, y as int),
        ensures
            final(self).indexed(),
            final(self).z == old(self).z,
            final(self).cap == old(self).cap,
            old(self).cap > 0 ==> final(self).none_empty(),
            forall|a: int, b: int| #[trigger]
                is_tile(old(self).z as nat, a, b) ==> final(self).listed(a, b) == (if a == x && b
                    == y && old(self).listed(a, b).len() < old(self).cap {
                    old(self).listed(a, b).push(feature)
                } else {
                    old(self).listed(a, b)
                }),
    {
        let id: u64 = tile_to_id(self.z, x, y);
        let ghost z = self.z as nat;
        let ghost before = *self;
        proof {
            lemma_id_is_whole(z, x as int, y as int);
        }
        let found: Option<usize> = match self.index.get(&id) {
            Some(k) => Some(*k),
            None => None,
        };
        let k: usize = match found {
            Some(k) => k,
            None => {
                let k: usize = self.buckets.len();
                self.buckets.push(TileBucket { x, y, features: Vec::new() });
                self.index.insert(id, k);
                k
            },
        };
        let ghost mid = *self;
        proof {
            assert(mid.indexed());
            assert(mid.index@.contains_key(id) && mid.index@[id] == k);
            assert forall|a: int, b: int| #[trigger] is_tile(z, a, b) implies mid.listed(a, b)
                == before.listed(a, b) by {
                lemma_id_is_whole(z, a, b);
            }
        }
        if self.buckets[k].features.len() < self.cap {
            let mut features: Vec<u32> = Vec::new();
            std::mem::swap(&mut self.buckets[k].features, &mut features);
            features.push(feature);
            std::mem::swap(&mut self.buckets[k].features, &mut features);
        }
        proof {
            assert(self.buckets@.len() == mid.buckets@.len());
            assert(self.index@ == mid.index@);
            assert forall|j: int| 0 <= j < self.buckets@.len() implies {
                let b = #[trigger] self.buckets@[j];
                let c = mid.buckets@[j];
                b.x == c.x && b.y == c.y && (j != k ==> b.features@ == c.features@)
            } by {}
            assert(self.indexed()) by {
                assert forall|j: int| 0 <= j < self.buckets.len() implies {
                    let b = #[trigger] self.buckets@[j];
                    &&& is_tile(self.z as nat, b.x as int, b.y as int)
                    &&& self.index@.contains_key(bucket_id(b, self.z as nat))
                    &&& self.index@[bucket_id(b, self.z as nat)] == j
                } by {
                    let c = mid.buckets@[j];
                    assert(mid.index@[bucket_id(c, z)] == j);
                }
                assert forall|i: u64| #[trigger] self.index@.contains_key(i) implies self.index@[i]
                    < self.buckets.len() && bucket_id(
                    self.buckets@[self.index@[i] as int],
                    self.z as nat,
                ) == i by {
                    assert(mid.index@.contains_key(i));
                }
            }
            assert forall|a: int, b: int| #[trigger] is_tile(z, a, b) implies self.listed(a, b)
                == (if a == x && b == y && before.listed(a, b).len() < before.cap {
                before.listed(a, b).push(feature)
            } else {
                before.listed(a, b)
            }) by {
                lemma_id_is_whole(z, a, b);
                let other = tile_id(z, a, b) as u64;
                assert(mid.listed(a, b) == before.listed(a, b));
                if mid.index@.contains_key(other) && mid.index@[other] == k {
                    assert(other == id);
                    tile_ids_are_distinct(z, a, b, z, x as int, y as int);
                }
            }
        }
    }
}

proof fn lemma_id_is_whole(z: nat, x: int, y: int)
    requires
        z <= 31,
        is_tile(z, x, y),
    ensures
        (tile_id(z, x, y) as u64) as int == tile_id(z, x, y),
{
    tile_ids_stay_in_their_zoom(z, x, y);
    lemma_zoom_limits(z);
}

/// What is listed for a tile while feature `i` is being put into the tiles of
/// its span, column after column: the tiles in front of `(x, y)` are done.
spec fn done_up_to(s: TileSpan, x: int, y: int, a: int, b: int) -> bool {
    covers(s, a, b) && (a < x || (a == x && b < y))
}

spec fn listed_so_far(
    spans: Seq<Option<TileSpan>>,
    i: int,
    s: TileSpan,
    x: int,
    y: int,
    a: int,
    b: int,
    cap: int,
) -> Seq<u32> {
    if done_up_to(s, x, y, a, b) {
        reaching(spans.take(i + 1), a, b, cap)
    } else {
        reaching(spans.take(i), a, b, cap)
    }
}

impl Bins {
    spec fn progress(&self, spans: Seq<Option<TileSpan>>, i: int, s: TileSpan, x: int, y: int) -> bool {
        forall|a: int, b: int| #[trigger]
            is_tile(self.z as nat, a, b) ==> self.listed(a, b) == listed_so_far(
                spans,
                i,
                s,
                x,
                y,
                a,
                b,
                self.cap as int,
            )
    }

    /// Put feature `i` into the tiles of its span.
    fn put_span(&mut self, spans: &Vec<Option<TileSpan>>, i: usize, s: TileSpan)
        requires
            old(self).indexed(),
            old(self).none_empty(),
            old(self).cap > 0,
            i < spans.len() <= 0x1_0000_0000,
            spans@[i as int] == Some(s),
            s.x_max < side(old(self).z as nat),
            s.y_max < side(old(self).z as nat),
            forall|a: int, b: int| #[trigger]
                is_tile(old(self).z as nat, a, b) ==> old(self).listed(a, b) == reaching(
                    spans@.take(i as int),
                    a,
                    b,
                    old(self).cap as int,
                ),
        ensures
            final(self).indexed(),
            final(self).none_empty(),
            final(self).z == old(self).z,
            final(self).cap == old(self).cap,
            forall|a: int, b: int| #[trigger]
                is_tile(old(self).z as nat, a, b) ==> final(self).listed(a, b) == reaching(
                    spans@.take(i + 1),
                    a,
                    b,
                    old(self).cap as int,
                ),
    {
        let ghost all = spans@;
        let ghost z = self.z as nat;
        proof {
            lemma_zoom_limits(z);
            assert(all.take(i + 1).drop_last() =~= all.take(i as int));
            assert(all.take(i + 1).last() == Some(s));
        }
        let mut x: u32 = s.x_min;
        while x <= s.x_max
            invariant
                self.indexed(),
                self.none_empty(),
                self.z == old(self).z,
                self.cap == old(self).cap,
                self.cap > 0,
                z == self.z,
                all == spans@,
                i < all.len() <= 0x1_0000_0000,
                all.take(i + 1).drop_last() == all.take(i as int),
                all.take(i + 1).last() == Some(s),
                s.x_min <= x,
                s.x_max < side(z) <= 0x8000_0000,
                s.y_max < side(z),
                self.progress(all, i as int, s, x as int, 0),
            decreases s.x_max + 1 - x,
        {
            let mut y: u32 = s.y_min;
            assert(self.progress(all, i as int, s, x as int, y as int)) by {
                assert forall|a: int, b: int| #[trigger] is_tile(self.z as nat, a, b) implies
                    self.listed(a, b) == listed_so_far(
                    all,
                    i as int,
                    s,
                    x as int,
                    y as int,
                    a,
                    b,
                    self.cap as int,
                ) by {
                    assert(done_up_to(s, x as int, 0, a, b) == done_up_to(
                        s,
                        x as int,
                        y as int,
                        a,
                        b,
                    ));
                }
            }
            while y <= s.y_max
                invariant
                    self.indexed(),
                    self.none_empty(),
                    self.z == old(self).z,
                    self.cap == old(self).cap,
                    self.cap > 0,
                    z == self.z,
                    all == spans@,
                    i < all.len() <= 0x1_0000_0000,
                    all.take(i + 1).drop_last() == all.take(i as int),
                    all.take(i + 1).last() == Some(s),
                    s.x_min <= x <= s.x_max,
                    s.y_min <= y,
                    s.x_max < side(z) <= 0x8000_0000,
                    s.y_max < side(z),
                    self.progress(all, i as int, s, x as int, y as int),
                decreases s.y_max + 1 - y,
            {
                let ghost prev = *self;
                assert(is_tile(z, x as int, y as int));
                self.put(x, y, i as u32);
                proof {
                    assert forall|a: int, b: int| #[trigger]
                        is_tile(self.z as nat, a, b) implies self.listed(a, b) == listed_so_far(
                        all,
                        i as int,
                        s,
                        x as int,
                        y + 1,
                        a,
                        b,
                        self.cap as int,
                    ) by {
                        assert(prev.listed(a, b) == listed_so_far(
                            all,
                            i as int,
                            s,
                            x as int,
                            y as int,
                            a,
                            b,
                            prev.cap as int,
                        ));
                        assert(all.take(i + 1).len() == i + 1);
                    }
                }
                y = y + 1;
            }
            assert(self.progress(all, i as int, s, x + 1, 0)) by {
                assert forall|a: int, b: int| #[trigger] is_tile(self.z as nat, a, b) implies
                    self.listed(a, b) == listed_so_far(
                    all,
                    i as int,
                    s,
                    x + 1,
                    0,
                    a,
                    b,
                    self.cap as int,
                ) by {
                    assert(done_up_to(s, x as int, y as int, a, b) == done_up_to(s, x + 1, 0, a, b));
                }
            }
            x = x + 1;
        }
        assert forall|a: int, b: int| #[trigger] is_tile(z, a, b) implies self.listed(a, b)
            == reaching(all.take(i + 1), a, b, self.cap as int) by {
            assert(done_up_to(s, x as int, 0, a, b) == covers(s, a, b));
        }
    }
}

/// The tiles are in strictly ascending order of their identifiers.
pub open spec fn buckets_sorted(buckets: Seq<TileBucket>, z: nat) -> bool {
    forall|i: int, j: int|
        0 <= i < j < buckets.len() ==> bucket_id(#[trigger] buckets[i], z) < bucket_id(
            #[trigger] buckets[j],
            z,
        )
}

fn sort_buckets(unsorted: Vec<TileBucket>, z: u8) -> (out: Vec<TileBucket>)
    requires
        z <= 31,
        forall|k: int|
            0 <= k < unsorted.len() ==> is_tile(
                z as nat,
                (#[trigger] unsorted@[k]).x as int,
                unsorted@[k].y as int,
            ),
        forall|i: int, j: int|
            0 <= i < j < unsorted.len() ==> bucket_id(#[trigger] unsorted@[i], z as nat) != bucket_id(
                #[trigger] unsorted@[j],
                z as nat,
            ),
    ensures
        out.len() == unsorted.len(),
        buckets_sorted(out@, z as nat),
        forall|k: int| 0 <= k < out.len() ==> holds_bucket(unsorted@, #[trigger] out@[k]),
        forall|m: int| 0 <= m < unsorted.len() ==> holds_bucket(out@, #[trigger] unsorted@[m]),
{
    let ghost given = unsorted@;
    let mut buckets = unsorted;
    let mut keys: Vec<u64> = Vec::new();
    let mut i: usize = 0;
    while i < buckets.len()
        invariant
            i <= buckets.len(),
            z <= 31,
            buckets@ == given,
            keys.len() == i,
            forall|k: int| 0 <= k < i ==> keys[k] == bucket_id(#[trigger] given[k], z as nat),
        decreases buckets.len() - i,
    {
        keys.push(tile_to_id(z, buckets[i].x, buckets[i].y));
        i = i + 1;
    }
    let order = stable_order(&keys);
    let ghost pos = positions(order@);
    let mut out: Vec<TileBucket> = Vec::new();
    let mut k: usize = 0;
    while k < order.len()
        invariant
            k <= order.len(),
            order.len() == keys.len(),
            keys.len() == buckets.len(),
            given.len() == buckets.len(),
            pos == positions(order@),
            is_stable_order(keys@, pos),
            forall|j: int| 0 <= j < order.len() ==> #[trigger] order[j] < keys.len(),
            forall|j: int|
                k <= j < order.len() ==> same_bucket(
                    buckets@[#[trigger] pos[j]],
                    given[pos[j]],
                ),
            out.len() == k,
            forall|j: int| 0 <= j < k ==> same_bucket(#[trigger] out@[j], given[pos[j]]),
        decreases order.len() - k,
    {
        let p: usize = order[k];
        assert(pos[k as int] == p);
        let mut b = TileBucket { x: 0, y: 0, features: Vec::new() };
        let ghost prev = buckets@;
        std::mem::swap(&mut buckets[p], &mut b);
        proof {
            assert(b == prev[p as int]);
            assert forall|j: int| k + 1 <= j < order.len() implies same_bucket(
                buckets@[#[trigger] pos[j]],
                given[pos[j]],
            ) by {
                assert(before(keys@, pos[k as int], pos[j]));
                assert(buckets@[pos[j]] == prev[pos[j]]);
            }
        }
        out.push(b);
        k = k + 1;
    }
    proof {
        assert forall|a: int, b: int| 0 <= a < b < out@.len() implies bucket_id(
            #[trigger] out@[a],
            z as nat,
        ) < bucket_id(#[trigger] out@[b], z as nat) by {
            assert(before(keys@, pos[a], pos[b]));
            assert(same_bucket(out@[a], given[pos[a]]) && same_bucket(out@[b], given[pos[b]]));
            if pos[a] < pos[b] {
                assert(bucket_id(given[pos[a]], z as nat) != bucket_id(given[pos[b]], z as nat));
            }
        }
        assert forall|m: int| 0 <= m < given.len() implies holds_bucket(
            out@,
            #[trigger] given[m],
        ) by {
            crate::order::stable_order_lists_all(keys@, pos);
            assert(pos.contains(m));
            let j = choose|j: int| 0 <= j < pos.len() && pos[j] == m;
            assert(same_bucket(out@[j], given[pos[j]]));
        }
        assert forall|j: int| 0 <= j < out@.len() implies holds_bucket(
            given,
            #[trigger] out@[j],
        ) by {
            assert(same_bucket(given[pos[j]], out@[j]));
        }
    }
    out
}

/// The list holds such a bucket.
spec fn holds_bucket(list: Seq<TileBucket>, b: TileBucket) -> bool {
    exists|m: int| 0 <= m < list.len() && same_bucket(#[trigger] list[m], b)
}

/// Two buckets for one tile with the same features.
pub open spec fn same_bucket(a: TileBucket, b: TileBucket) -> bool {
    a.x == b.x && a.y == b.y && a.features@ == b.features@
}

/// Bin features into the tiles that they reach: for each such tile the
/// features in ascending order, at most `cap` of them. The tiles come in
/// ascending order of their identifiers.
pub fn bin_features(z: u8, spans: &Vec<Option<TileSpan>>, cap: usize) -> (buckets: Vec<TileBucket>)
    requires
        z <= 31,
        cap > 0,
        spans.len() <= 0x1_0000_0000,
        spans_within(spans@, z as nat),
    ensures
        buckets_match(buckets@, spans@, z as nat, cap as int),
        buckets_cover(buckets@, spans@, z as nat, cap as int),
        buckets_sorted(buckets@, z as nat),
{
    let mut bins = Bins { z, cap, buckets: Vec::new(), index: HashMap::new() };
    let mut i: usize = 0;
    assert(spans@.take(0) =~= Seq::<Option<TileSpan>>::empty());
    while i < spans.len()
        invariant
            i <= spans.len() <= 0x1_0000_0000,
            bins.indexed(),
            bins.none_empty(),
            bins.z == z,
            bins.cap == cap,
            cap > 0,
            spans_within(spans@, z as nat),
            forall|a: int, b: int| #[trigger]
                is_tile(z as nat, a, b) ==> bins.listed(a, b) == reaching(
                    spans@.take(i as int),
                    a,
                    b,
                    cap as int,
                ),
        decreases spans.len() - i,
    {
        proof {
            assert(spans@.take(i + 1).drop_last() =~= spans@.take(i as int));
            assert(spans@.take(i + 1).last() == spans@[i as int]);
        }
        match spans[i] {
            Some(s) => {
                assert(spans@[i as int] matches Some(t) ==> t.x_max < side(z as nat) && t.y_max
                    < side(z as nat));
                bins.put_span(spans, i, s);
            },
            None => {},
        }
        i = i + 1;
    }
    let ghost done = bins;
    proof {
        assert(spans@.take(i as int) =~= spans@);
        assert forall|k: int, j: int| 0 <= k < j < done.buckets@.len() implies bucket_id(
            #[trigger] done.buckets@[k],
            z as nat,
        ) != bucket_id(#[trigger] done.buckets@[j], z as nat) by {
            assert(done.index@[bucket_id(done.buckets@[k], z as nat)] == k);
            assert(done.index@[bucket_id(done.buckets@[j], z as nat)] == j);
        }
    }
    let buckets = sort_buckets(bins.buckets, z);
    proof {
        assert forall|k: int| 0 <= k < buckets@.len() implies {
            let b = #[trigger] buckets@[k];
            &&& is_tile(z as nat, b.x as int, b.y as int)
            &&& b.features@ == reaching(spans@, b.x as int, b.y as int, cap as int)
            &&& b.features@.len() > 0
        } by {
            assert(holds_bucket(done.buckets@, buckets@[k]));
            let m = choose|m: int|
                0 <= m < done.buckets@.len() && same_bucket(
                    #[trigger] done.buckets@[m],
                    buckets@[k],
                );
            let c = done.buckets@[m];
            assert(is_tile(z as nat, c.x as int, c.y as int));
            assert(done.index@[bucket_id(c, z as nat)] == m);
            assert(done.listed(c.x as int, c.y as int) == c.features@);
        }
        assert forall|x: int, y: int| #[trigger]
            is_tile(z as nat, x, y) && reaching(spans@, x, y, cap as int).len()
                > 0 implies exists|k: int|
            0 <= k < buckets@.len() && (#[trigger] buckets@[k]).x == x && buckets@[k].y == y by {
            let id = tile_id(z as nat, x, y) as u64;
            assert(done.listed(x, y) == reaching(spans@, x, y, cap as int));
            assert(done.index@.contains_key(id));
            let m = done.index@[id] as int;
            let c = done.buckets@[m];
            lemma_id_is_whole(z as nat, x, y);
            lemma_id_is_whole(z as nat, c.x as int, c.y as int);
            tile_ids_are_distinct(z as nat, x, y, z as nat, c.x as int, c.y as int);
            assert(holds_bucket(buckets@, done.buckets@[m]));
            let k = choose|k: int|
                0 <= k < buckets@.len() && same_bucket(#[trigger] buckets@[k], c);
            assert(buckets@[k].x == x);
        }
    }
    buckets
}

/// No tile is cut short: as long as no tile has more than `cap` features, the
/// cap makes no difference.
pub proof fn cap_without_effect(spans: Seq<Option<TileSpan>>, x: int, y: int, cap: int, more: int)
    requires
        cap <= more,
        reaching(spans, x, y, more).len() <= cap,
    ensures
        reaching(spans, x, y, cap) == reaching(spans, x, y, more),
    decreases spans.len(),
{
    if spans.len() > 0 {
        let rest = spans.drop_last();
        assert(reaching(rest, x, y, more).len() <= reaching(spans, x, y, more).len());
        cap_without_effect(rest, x, y, cap, more);
    }
}

/// The features in another order: place `k` is taken by feature `order[k]`.
pub open spec fn reordered(spans: Seq<Option<TileSpan>>, order: Seq<int>) -> Seq<
    Option<TileSpan>,
> {
    Seq::new(order.len(), |k: int| spans[order[k]])
}

/// Every feature takes one place.
pub open spec fn lists_every_feature(spans: Seq<Option<TileSpan>>, order: Seq<int>) -> bool {
    &&& order.len() == spans.len()
    &&& forall|k: int| 0 <= k < order.len() ==> 0 <= #[trigger] order[k] < spans.len()
    &&& forall|i: int| 0 <= i < spans.len() ==> #[trigger] order.contains(i)
}

proof fn lemma_reaching_lists(spans: Seq<Option<TileSpan>>, x: int, y: int, cap: int)
    requires
        spans.len() <= cap,
        spans.len() <= 0x1_0000_0000,
    ensures
        reaching(spans, x, y, cap).len() <= spans.len(),
        forall|n: u32| #[trigger]
            reaching(spans, x, y, cap).contains(n) <==> n < spans.len() && reaches(
                spans[n as int],
                x,
                y,
            ),
    decreases spans.len(),
{
    if spans.len() > 0 {
        let rest = spans.drop_last();
        let head = reaching(rest, x, y, cap);
        let all = reaching(spans, x, y, cap);
        let last = (spans.len() - 1) as u32;
        lemma_reaching_lists(rest, x, y, cap);
        assert forall|n: u32| #[trigger] all.contains(n) <==> n < spans.len() && reaches(
            spans[n as int],
            x,
            y,
        ) by {
            if reaches(spans.last(), x, y) {
                assert(all == head.push(last));
                assert(all[head.len() as int] == last);
                if head.contains(n) {
                    let j = choose|j: int| 0 <= j < head.len() && head[j] == n;
                    assert(all[j] == n);
                }
                if all.contains(n) && n != last {
                    let j = choose|j: int| 0 <= j < all.len() && all[j] == n;
                    assert(head[j] == n);
                }
            }
            if n < rest.len() {
                assert(rest[n as int] == spans[n as int]);
            }
        }
    }
}

/// The order of the features makes no difference to what a tile may show, unless it
/// has so many of them that it is cut short.
pub proof fn tiles_show_the_same_in_any_order(
    spans: Seq<Option<TileSpan>>,
    order: Seq<int>,
    x: int,
    y: int,
    cap: int,
    k: int,
)
    requires
        lists_every_feature(spans, order),
        spans.len() <= cap,
        spans.len() <= 0x1_0000_0000,
        0 <= k < order.len(),
    ensures
        reaching(reordered(spans, order), x, y, cap).contains(k as u32) == reaching(
            spans,
            x,
            y,
            cap,
        ).contains(order[k] as u32),
{
    lemma_reaching_lists(spans, x, y, cap);
    lemma_reaching_lists(reordered(spans, order), x, y, cap);
}

proof fn lemma_reached_by_one(spans: Seq<Option<TileSpan>>, x: int, y: int, cap: int)
    requires
        cap > 0,
    ensures
        reaching(spans, x, y, cap).len() > 0 <==> exists|i: int|
            0 <= i < spans.len() && reaches(#[trigger] spans[i], x, y),
    decreases spans.len(),
{
    if spans.len() > 0 {
        let rest = spans.drop_last();
        lemma_reached_by_one(rest, x, y, cap);
        if reaching(rest, x, y, cap).len() > 0 {
            let i = choose|i: int| 0 <= i < rest.len() && reaches(#[trigger] rest[i], x, y);
            assert(reaches(spans[i], x, y));
        } else if reaches(spans.last(), x, y) {
            assert(reaches(spans[spans.len() - 1], x, y));
        } else {
            assert forall|i: int| 0 <= i < spans.len() implies !reaches(#[trigger] spans[i], x, y) by {
                if i < rest.len() {
                    assert(!reaches(rest[i], x, y));
                }
            }
        }
    }
}

/// The same tiles are populated whatever the order of the features and however many
/// of them a tile may hold.
pub proof fn the_same_tiles_are_populated(
    spans: Seq<Option<TileSpan>>,
    order: Seq<int>,
    x: int,
    y: int,
    cap: int,
    other: int,
)
    requires
        lists_every_feature(spans, order),
        cap > 0,
        other > 0,
    ensures
        reaching(reordered(spans, order), x, y, cap).len() > 0 <==> reaching(
            spans,
            x,
            y,
            other,
        ).len() > 0,
{
    let moved = reordered(spans, order);
    lemma_reached_by_one(spans, x, y, other);
    lemma_reached_by_one(moved, x, y, cap);
    if reaching(spans, x, y, other).len() > 0 {
        let i = choose|i: int| 0 <= i < spans.len() && reaches(#[trigger] spans[i], x, y);
        assert(order.contains(i));
        let k = choose|k: int| 0 <= k < order.len() && order[k] == i;
        assert(reaches(moved[k], x, y));
    }
    if reaching(moved, x, y, cap).len() > 0 {
        let k = choose|k: int| 0 <= k < moved.len() && reaches(#[trigger] moved[k], x, y);
        assert(reaches(spans[order[k]], x, y));
    }
}

/// The number of feature references in buckets `a` up to `b`.
pub open spec fn refs(buckets: Seq<TileBucket>, a: int, b: int) -> int
    decreases b - a,
{
    if b <= a {
        0
    } else {
        refs(buckets, a, b - 1) + buckets[b - 1].features@.len()
    }
}

/// Buckets `a` up to `b` are one portion: as many as fit, at least one.
pub open spec fn is_chunk(buckets: Seq<TileBucket>, a: int, b: int) -> bool {
    &&& 0 <= a < b <= buckets.len()
    &&& b > a + 1 ==> refs(buckets, a, b) <= CHUNK_FEATURE_REFS
    &&& b < buckets.len() ==> refs(buckets, a, b) + buckets[b].features@.len() > CHUNK_FEATURE_REFS
}

/// The end of the portion that starts at `start`.
pub fn chunk_end(buckets: &Vec<TileBucket>, start: usize) -> (end: usize)
    requires
        start < buckets.len(),
    ensures
        is_chunk(buckets@, start as int, end as int),
{
    let mut count: usize = buckets[start].features.len();
    let mut end: usize = start + 1;
    assert(refs(buckets@, start as int, start as int) == 0);
    while end < buckets.len() && count <= CHUNK_FEATURE_REFS && buckets[end].features.len()
        <= CHUNK_FEATURE_REFS - count
        invariant
            start < end <= buckets.len(),
            count == refs(buckets@, start as int, end as int),
            end > start + 1 ==> count <= CHUNK_FEATURE_REFS,
        decreases buckets.len() - end,
    {
        count = count + buckets[end].features.len();
        end = end + 1;
    }
    end
}

/// The portions, one right behind the other, from the first bucket to the last.
pub open spec fn chunks_cover(buckets: Seq<TileBucket>, chunks: Seq<(usize, usize)>) -> bool {
    &&& forall|i: int|
        0 <= i < chunks.len() ==> is_chunk(
            buckets,
            (#[trigger] chunks[i]).0 as int,
            chunks[i].1 as int,
        )
    &&& forall|i: int| 0 < i < chunks.len() ==> chunks[i - 1].1 == (#[trigger] chunks[i]).0
    &&& if buckets.len() == 0 {
        chunks.len() == 0
    } else {
        chunks.len() > 0 && chunks[0].0 == 0 && chunks.last().1 == buckets.len()
    }
}

/// Cut the buckets into portions of bounded size.
pub fn plan_chunks(buckets: &Vec<TileBucket>) -> (chunks: Vec<(usize, usize)>)
    ensures
        chunks_cover(buckets@, chunks@),
{
    let mut chunks: Vec<(usize, usize)> = Vec::new();
    let mut start: usize = 0;
    while start < buckets.len()
        invariant
            start <= buckets.len(),
            forall|i: int|
                0 <= i < chunks.len() ==> is_chunk(
                    buckets@,
                    (#[trigger] chunks@[i]).0 as int,
                    chunks@[i].1 as int,
                ),
            forall|i: int| 0 < i < chunks.len() ==> chunks@[i - 1].1 == (#[trigger] chunks@[i]).0,
            chunks.len() == 0 ==> start == 0,
            chunks.len() > 0 ==> chunks@[0].0 == 0 && chunks@.last().1 == start,
        decreases buckets.len() - start,
    {
        let end: usize = chunk_end(buckets, start);
        chunks.push((start, end));
        start = end;
    }
    chunks
}

/// A portion of more than one bucket holds fifty thousand features at most, and the next
/// bucket would not have found room in it.
pub proof fn portions_are_as_large_as_they_may_be(buckets: Seq<TileBucket>, a: int, b: int)
    requires
        is_chunk(buckets, a, b),
    ensures
        a < b <= buckets.len(),
        refs(buckets, a, b) <= 50_000 || b == a + 1,
        b < buckets.len() ==> refs(buckets, a, b + 1) > 50_000,
        refs(buckets, a, b) == refs(buckets, a, b - 1) + buckets[b - 1].features@.len(),
        refs(buckets, a, a) == 0,
{
}

} // verus!
