//! In which tiles a feature is found.

use vstd::prelude::*;

use crate::tile_id::{is_tile, lemma_zoom_limits, side};
use crate::tiling::{
    buckets_cover, buckets_match, covers, padded, reaches, reaching, TileBucket, TileSpan,
};

verus! {

/// The padded span of a feature covers the tiles that it may touch and their
/// neighbours, as far as the grid goes, and no others.
pub proof fn neighbours_are_covered_too(s: TileSpan, z: nat, x: int, y: int)
    requires
        z <= 31,
        is_tile(z, x, y),
    ensures
        covers(padded(s, z), x, y) <==> s.x_min - 1 <= x <= s.x_max + 1 && s.y_min - 1 <= y
            <= s.y_max + 1,
{
    lemma_zoom_limits(z);
}

/// The features that are listed for a tile are those that reach it, in the order of
/// their numbers; of more than `cap` of them the first `cap`.
pub proof fn every_feature_that_reaches_a_tile_is_listed(
    spans: Seq<Option<TileSpan>>,
    x: int,
    y: int,
    cap: int,
)
    requires
        0 <= cap,
    ensures
        ({
            let all = Seq::new(spans.len(), |i: int| i as u32).filter(
                |i: u32| reaches(spans[i as int], x, y),
            );
            spans.len() <= 0x1_0000_0000 ==> reaching(spans, x, y, cap) == all.take(
                if cap < all.len() {
                    cap
                } else {
                    all.len() as int
                },
            )
        }),
{
    if spans.len() <= 0x1_0000_0000 {
        lemma_listed(spans, spans.len() as int, x, y, cap);
        assert(spans.take(spans.len() as int) =~= spans);
    }
}

proof fn lemma_listed(spans: Seq<Option<TileSpan>>, n: int, x: int, y: int, cap: int)
    requires
        0 <= cap,
        0 <= n <= spans.len() <= 0x1_0000_0000,
    ensures
        ({
            let all = Seq::new(n as nat, |i: int| i as u32).filter(
                |i: u32| reaches(spans[i as int], x, y),
            );
            reaching(spans.take(n), x, y, cap) == all.take(
                if cap < all.len() {
                    cap
                } else {
                    all.len() as int
                },
            )
        }),
    decreases n,
{
    reveal(Seq::filter);
    let hit = |i: u32| reaches(spans[i as int], x, y);
    let numbers = Seq::new(n as nat, |i: int| i as u32);
    let all = numbers.filter(hit);
    if n > 0 {
        lemma_listed(spans, n - 1, x, y, cap);
        let fewer = Seq::new((n - 1) as nat, |i: int| i as u32);
        assert(numbers.drop_last() =~= fewer);
        assert(numbers.last() == (n - 1) as u32);
        assert(((n - 1) as u32) as int == n - 1);
        assert(spans.take(n).drop_last() =~= spans.take(n - 1));
        assert(spans.take(n).last() == spans[n - 1]);
        let before = fewer.filter(hit);
        if hit((n - 1) as u32) {
            if before.len() < cap {
                assert(all.take(all.len() as int) =~= all);
                assert(before.take(before.len() as int) =~= before);
            } else {
                assert(all.take(cap) =~= before.take(cap));
            }
        }
    } else {
        assert(spans.take(0) =~= Seq::<Option<TileSpan>>::empty());
        assert(numbers =~= Seq::<u32>::empty());
        assert(all.take(0) =~= Seq::<u32>::empty());
    }
}

/// Every feature is found in every tile that its span covers, as long as no tile is cut
/// short: there is a bucket for the tile, and it lists the feature. A bucket lists no
/// feature whose span does not cover its tile.
pub proof fn features_are_found_in_all_their_tiles(
    buckets: Seq<TileBucket>,
    spans: Seq<Option<TileSpan>>,
    z: nat,
    cap: int,
    i: int,
    x: int,
    y: int,
)
    requires
        buckets_match(buckets, spans, z, cap),
        buckets_cover(buckets, spans, z, cap),
        spans.len() <= 0x1_0000_0000,
        spans.len() <= cap,
        0 <= i < spans.len(),
        is_tile(z, x, y),
    ensures
        spans[i] is Some && spans[i]->0.x_min <= x <= spans[i]->0.x_max && spans[i]->0.y_min <= y
            <= spans[i]->0.y_max <==> exists|k: int|
            0 <= k < buckets.len() && (#[trigger] buckets[k]).x == x && buckets[k].y == y
                && buckets[k].features@.contains(i as u32),
{
    every_feature_that_reaches_a_tile_is_listed(spans, x, y, cap);
    let numbers = Seq::new(spans.len(), |i: int| i as u32);
    let hit = |i: u32| reaches(spans[i as int], x, y);
    let all = numbers.filter(hit);
    assert(all.len() <= spans.len());
    assert(all.take(all.len() as int) =~= all);
    assert(reaching(spans, x, y, cap) == all);
    lemma_filter_holds(numbers, hit, i as u32);
    assert(numbers[i] == i as u32);
    assert((i as u32) as int == i);
    if reaches(spans[i], x, y) {
        assert(all.contains(i as u32));
        assert(is_tile(z, x, y) && reaching(spans, x, y, cap).len() > 0);
        let k = choose|k: int|
            0 <= k < buckets.len() && (#[trigger] buckets[k]).x == x && buckets[k].y == y;
        assert(buckets[k].features@.contains(i as u32));
    } else if exists|k: int|
        0 <= k < buckets.len() && (#[trigger] buckets[k]).x == x && buckets[k].y == y
            && buckets[k].features@.contains(i as u32) {
        let k = choose|k: int|
            0 <= k < buckets.len() && (#[trigger] buckets[k]).x == x && buckets[k].y == y
                && buckets[k].features@.contains(i as u32);
        assert(buckets[k].features@ == all);
    }
}

proof fn lemma_filter_holds(s: Seq<u32>, pred: spec_fn(u32) -> bool, v: u32)
    ensures
        s.filter(pred).contains(v) <==> s.contains(v) && pred(v),
        s.filter(pred).len() <= s.len(),
    decreases s.len(),
{
    reveal(Seq::filter);
    if s.len() > 0 {
        let rest = s.drop_last();
        let head = rest.filter(pred);
        lemma_filter_holds(rest, pred, v);
        if rest.contains(v) {
            let i = choose|i: int| 0 <= i < rest.len() && rest[i] == v;
            assert(s[i] == v);
        }
        if s.contains(v) && v != s.last() {
            let i = choose|i: int| 0 <= i < s.len() && s[i] == v;
            assert(rest[i] == v);
        }
        if v == s.last() {
            assert(s[s.len() - 1] == v);
        }
        if pred(s.last()) {
            let all = head.push(s.last());
            assert(all[head.len() as int] == s.last());
            if head.contains(v) {
                let i = choose|i: int| 0 <= i < head.len() && head[i] == v;
                assert(all[i] == v);
            }
            if all.contains(v) && v != s.last() {
                let i = choose|i: int| 0 <= i < all.len() && all[i] == v;
                assert(head[i] == v);
            }
        }
    }
}

} // verus!
