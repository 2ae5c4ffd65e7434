//! Where the blobs of an archive go: identical blobs are stored once, empty
//! ones not at all.

use vstd::prelude::*;

use crate::archive::{dir_within, listed_tile};
use crate::directory::{sorted_dir, DirEntry};
use crate::le::low32;
use crate::order::{before, is_stable_order, stable_order_lists_all};

verus! {

/// The identifiers of the tiles.
pub open spec fn tile_ids(tiles: Seq<(u64, Seq<u8>)>) -> Seq<u64> {
    Seq::new(tiles.len(), |i: int| tiles[i].0)
}

/// `b` holds the tiles of `a` in ascending order of their identifiers; tiles
/// with equal identifiers keep their order.
pub open spec fn is_stable_sort(a: Seq<(u64, Seq<u8>)>, b: Seq<(u64, Seq<u8>)>) -> bool {
    exists|order: Seq<int>| #[trigger]
        is_stable_order(tile_ids(a), order) && b == Seq::new(a.len(), |i: int| a[order[i]])
}

/// The tiles are in ascending order of their identifiers.
pub open spec fn sorted_tiles(tiles: Seq<(u64, Seq<u8>)>) -> bool {
    forall|i: int, j: int| 0 <= i <= j < tiles.len() ==> tiles[i].0 <= tiles[j].0
}

/// The FNV-1a hash, 64 bits wide.
pub open spec fn fnv1a(data: Seq<u8>) -> u64
    decreases data.len(),
{
    if data.len() == 0 {
        0xcbf29ce484222325
    } else {
        (fnv1a(data.drop_last()) ^ (data.last() as u64)).wrapping_mul(0x100000001b3)
    }
}

/// What has been stored so far: the place remembered for each hash, the place
/// for the next blob, the tile data, and the listing.
#[verifier::ext_equal]
pub struct Packed {
    pub places: Map<u64, (u64, u32)>,
    pub pos: int,
    pub data: Seq<u8>,
    pub dir: Seq<DirEntry>,
}

/// A tile takes storage of its own: it is not empty, and no blob with its hash
/// and its length is remembered.
pub open spec fn takes_storage(places: Map<u64, (u64, u32)>, data: Seq<u8>) -> bool {
    data.len() > 0 && !(places.contains_key(fnv1a(data)) && places[fnv1a(data)].1 == low32(
        data.len() as int,
    ))
}

/// Store one more tile. An empty tile is dropped. A tile whose hash and length
/// are those of a remembered blob shares the storage of that blob. Any other
/// tile is appended.
///
/// Of two blobs that share only their hash, a store that spills remembers the
/// later one, and one that does not the earlier one. A store that spills counts
/// the 32 low bits of a length only.
pub open spec fn pack_one(st: Packed, id: u64, data: Seq<u8>, spill: bool) -> Packed {
    let h = fnv1a(data);
    let len = low32(data.len() as int);
    if data.len() == 0 {
        st
    } else if takes_storage(st.places, data) {
        Packed {
            places: if st.places.contains_key(h) && !spill {
                st.places
            } else {
                st.places.insert(h, (st.pos as u64, len))
            },
            pos: st.pos + if spill {
                len as int
            } else {
                data.len() as int
            },
            data: st.data + data,
            dir: st.dir.push(DirEntry { tile_id: id, offset: st.pos as u64, len }),
        }
    } else {
        Packed {
            places: st.places,
            pos: st.pos,
            data: st.data,
            dir: st.dir.push(DirEntry { tile_id: id, offset: st.places[h].0, len }),
        }
    }
}

/// A store that holds nothing.
pub open spec fn nothing_packed() -> Packed {
    Packed { places: Map::empty(), pos: 0, data: Seq::empty(), dir: Seq::empty() }
}

/// Store the tiles one after the other.
pub open spec fn pack(tiles: Seq<(u64, Seq<u8>)>, spill: bool) -> Packed
    decreases tiles.len(),
{
    if tiles.len() == 0 {
        nothing_packed()
    } else {
        pack_one(pack(tiles.drop_last(), spill), tiles.last().0, tiles.last().1, spill)
    }
}

/// The bytes last given for tile `id`; empty tiles count if `empties` says so.
pub open spec fn given_tile(tiles: Seq<(u64, Seq<u8>)>, id: u64, empties: bool) -> Option<Seq<u8>>
    decreases tiles.len(),
{
    if tiles.len() == 0 {
        None
    } else if tiles.last().0 == id && (empties || tiles.last().1.len() > 0) {
        Some(tiles.last().1)
    } else {
        given_tile(tiles.drop_last(), id, empties)
    }
}

/// Tiles with the same hash and length are the same.
pub open spec fn no_clash(tiles: Seq<(u64, Seq<u8>)>) -> bool {
    forall|i: int, j: int|
        0 <= i < tiles.len() && 0 <= j < tiles.len() && fnv1a(#[trigger] tiles[i].1) == fnv1a(
            #[trigger] tiles[j].1,
        ) && tiles[i].1.len() == tiles[j].1.len() ==> tiles[i].1 == tiles[j].1
}

/// No tile is longer than 32 bits can count.
pub open spec fn lengths_fit(tiles: Seq<(u64, Seq<u8>)>) -> bool {
    forall|i: int| 0 <= i < tiles.len() ==> (#[trigger] tiles[i]).1.len() <= u32::MAX
}

proof fn lemma_given_tile_at(tiles: Seq<(u64, Seq<u8>)>, id: u64, empties: bool, k: int)
    requires
        -1 <= k < tiles.len(),
        k >= 0 ==> tiles[k].0 == id && (empties || tiles[k].1.len() > 0),
        forall|j: int|
            k < j < tiles.len() ==> !((#[trigger] tiles[j]).0 == id && (empties
                || tiles[j].1.len() > 0)),
    ensures
        given_tile(tiles, id, empties) == if k >= 0 {
            Some(tiles[k].1)
        } else {
            None
        },
    decreases tiles.len(),
{
    if tiles.len() > 0 && k < tiles.len() - 1 {
        assert(!(tiles[tiles.len() - 1].0 == id && (empties || tiles[tiles.len() - 1].1.len()
            > 0)));
        lemma_given_tile_at(tiles.drop_last(), id, empties, k);
    }
}

proof fn lemma_last_given(tiles: Seq<(u64, Seq<u8>)>, id: u64, empties: bool) -> (k: int)
    ensures
        -1 <= k < tiles.len(),
        k >= 0 ==> tiles[k].0 == id && (empties || tiles[k].1.len() > 0),
        forall|j: int|
            k < j < tiles.len() ==> !((#[trigger] tiles[j]).0 == id && (empties
                || tiles[j].1.len() > 0)),
    decreases tiles.len(),
{
    if tiles.len() == 0 {
        -1
    } else if tiles.last().0 == id && (empties || tiles.last().1.len() > 0) {
        tiles.len() - 1
    } else {
        let rest = tiles.drop_last();
        let k = lemma_last_given(rest, id, empties);
        assert forall|j: int| k < j < tiles.len() implies !((#[trigger] tiles[j]).0 == id && (
        empties || tiles[j].1.len() > 0)) by {
            if j < rest.len() {
                assert(rest[j] == tiles[j]);
            }
        }
        k
    }
}

/// Sorting does not change which tile was given last for an identifier.
pub proof fn sorting_keeps_last_given(
    a: Seq<(u64, Seq<u8>)>,
    b: Seq<(u64, Seq<u8>)>,
    id: u64,
    empties: bool,
)
    requires
        is_stable_sort(a, b),
    ensures
        given_tile(a, id, empties) == given_tile(b, id, empties),
{
    let keys = tile_ids(a);
    let order = choose|order: Seq<int>| #[trigger]
        is_stable_order(keys, order) && b == Seq::new(a.len(), |i: int| a[order[i]]);
    stable_order_lists_all(keys, order);
    let k = lemma_last_given(b, id, empties);
    lemma_given_tile_at(b, id, empties, k);
    let p = if k >= 0 {
        order[k]
    } else {
        -1
    };
    assert forall|q: int| p < q < a.len() implies !((#[trigger] a[q]).0 == id && (empties
        || a[q].1.len() > 0)) by {
        if a[q].0 == id && (empties || a[q].1.len() > 0) {
            assert(order.contains(q));
            let m = choose|m: int| 0 <= m < order.len() && order[m] == q;
            assert(b[m] == a[q]);
            if m < k {
                assert(before(keys, order[m], order[k]));
            }
        }
    }
    lemma_given_tile_at(a, id, empties, p);
}

/// What holds of the storage after every tile, whatever the tiles are.
pub open spec fn packed_ok(st: Packed) -> bool {
    &&& 0 <= st.pos
    &&& st.places.dom().finite()
    &&& dir_within(st.dir, st.pos)
    &&& forall|h: u64| #[trigger]
        st.places.contains_key(h) ==> st.places[h].0 + st.places[h].1 <= st.pos
}

/// Storing one more tile keeps the storage in order.
pub proof fn lemma_pack_one_ok(st: Packed, id: u64, data: Seq<u8>, spill: bool)
    requires
        packed_ok(st),
        pack_one(st, id, data, spill).pos <= u64::MAX,
    ensures
        packed_ok(pack_one(st, id, data, spill)),
        st.pos <= pack_one(st, id, data, spill).pos,
{
    let next = pack_one(st, id, data, spill);
    assert(low32(data.len() as int) <= data.len());
    assert(dir_within(next.dir, next.pos)) by {
        assert forall|i: int| 0 <= i < next.dir.len() implies (#[trigger] next.dir[i]).offset
            + next.dir[i].len <= next.pos by {
            if i < st.dir.len() {
                assert(next.dir[i] == st.dir[i]);
            }
        }
    }
}

pub proof fn lemma_packed_ok(tiles: Seq<(u64, Seq<u8>)>, spill: bool)
    requires
        pack(tiles, spill).pos <= u64::MAX,
    ensures
        packed_ok(pack(tiles, spill)),
    decreases tiles.len(),
{
    if tiles.len() > 0 {
        let rest = tiles.drop_last();
        let st = pack(rest, spill);
        assert(st.pos <= pack(tiles, spill).pos);
        lemma_packed_ok(rest, spill);
        lemma_pack_one_ok(st, tiles.last().0, tiles.last().1, spill);
    }
}

/// The place for the next blob is the end of the tile data, as long as lengths
/// are counted in full.
pub proof fn lemma_pos_is_end(tiles: Seq<(u64, Seq<u8>)>, spill: bool)
    requires
        !spill || lengths_fit(tiles),
    ensures
        pack(tiles, spill).pos == pack(tiles, spill).data.len(),
    decreases tiles.len(),
{
    if tiles.len() > 0 {
        let rest = tiles.drop_last();
        if spill {
            assert(tiles[tiles.len() - 1].1.len() <= u32::MAX);
            assert(lengths_fit(rest));
        }
        lemma_pos_is_end(rest, spill);
    }
}

/// Every identifier in the listing is that of a tile.
pub(crate) proof fn lemma_listed_ids(tiles: Seq<(u64, Seq<u8>)>, spill: bool, i: int) -> (k: int)
    requires
        0 <= i < pack(tiles, spill).dir.len(),
    ensures
        0 <= k < tiles.len(),
        tiles[k].0 == pack(tiles, spill).dir[i].tile_id,
        tiles[k].1.len() > 0,
    decreases tiles.len(),
{
    let rest = tiles.drop_last();
    let st = pack(rest, spill);
    if i < st.dir.len() {
        assert(pack(tiles, spill).dir[i] == st.dir[i]);
        lemma_listed_ids(rest, spill, i)
    } else {
        tiles.len() - 1
    }
}

/// Tiles stored in ascending order are listed in ascending order.
pub proof fn lemma_packed_sorted(tiles: Seq<(u64, Seq<u8>)>, spill: bool)
    requires
        sorted_tiles(tiles),
    ensures
        sorted_dir(pack(tiles, spill).dir),
    decreases tiles.len(),
{
    if tiles.len() > 0 {
        let rest = tiles.drop_last();
        let st = pack(rest, spill);
        let next = pack(tiles, spill);
        lemma_packed_sorted(rest, spill);
        assert forall|i: int, j: int| 0 <= i <= j < next.dir.len() implies next.dir[i].tile_id
            <= next.dir[j].tile_id by {
            let k = lemma_listed_ids(tiles, spill, i);
            if j < st.dir.len() {
                assert(next.dir[i] == st.dir[i] && next.dir[j] == st.dir[j]);
            }
        }
    }
}

/// Every remembered blob is that of an earlier tile.
pub open spec fn places_hold(st: Packed, tiles: Seq<(u64, Seq<u8>)>) -> bool {
    forall|h: u64| #[trigger]
        st.places.contains_key(h) ==> exists|k: int|
            0 <= k < tiles.len() && fnv1a((#[trigger] tiles[k]).1) == h && tiles[k].1.len() > 0
                && st.places[h].1 == tiles[k].1.len() && st.data.subrange(
                st.places[h].0 as int,
                st.places[h].0 + st.places[h].1,
            ) == tiles[k].1
}

proof fn lemma_places_hold(tiles: Seq<(u64, Seq<u8>)>, spill: bool)
    requires
        lengths_fit(tiles),
        pack(tiles, spill).pos <= u64::MAX,
    ensures
        places_hold(pack(tiles, spill), tiles),
    decreases tiles.len(),
{
    if tiles.len() > 0 {
        let rest = tiles.drop_last();
        let (id, data) = tiles.last();
        let st = pack(rest, spill);
        let next = pack(tiles, spill);
        assert(tiles[tiles.len() - 1].1.len() <= u32::MAX);
        assert(lengths_fit(rest));
        lemma_pos_is_end(rest, spill);
        lemma_packed_ok(rest, spill);
        lemma_places_hold(rest, spill);
        assert forall|h: u64| #[trigger] next.places.contains_key(h) implies exists|k: int|
            0 <= k < tiles.len() && fnv1a((#[trigger] tiles[k]).1) == h && tiles[k].1.len() > 0
                && next.places[h].1 == tiles[k].1.len() && next.data.subrange(
                next.places[h].0 as int,
                next.places[h].0 + next.places[h].1,
            ) == tiles[k].1 by {
            if st.places.contains_key(h) && next.places[h] == st.places[h] {
                let k = choose|k: int|
                    0 <= k < rest.len() && fnv1a((#[trigger] rest[k]).1) == h && rest[k].1.len() > 0
                        && st.places[h].1 == rest[k].1.len() && st.data.subrange(
                        st.places[h].0 as int,
                        st.places[h].0 + st.places[h].1,
                    ) == rest[k].1;
                assert(next.data.subrange(
                    next.places[h].0 as int,
                    next.places[h].0 + next.places[h].1,
                ) =~= st.data.subrange(
                    st.places[h].0 as int,
                    st.places[h].0 + st.places[h].1,
                ));
                assert(tiles[k] == rest[k]);
            } else {
                let k = tiles.len() - 1;
                assert(h == fnv1a(data));
                assert(next.data.subrange(
                    next.places[h].0 as int,
                    next.places[h].0 + next.places[h].1,
                ) =~= data);
                assert(tiles[k].1 == data);
            }
        }
    }
}

/// The bytes behind the listing entries do not change as storage grows.
proof fn lemma_listed_tile_extends(dir: Seq<DirEntry>, a: Seq<u8>, b: Seq<u8>, id: u64)
    requires
        dir_within(dir, a.len() as int),
    ensures
        listed_tile(dir, a + b, id) == listed_tile(dir, a, id),
    decreases dir.len(),
{
    if dir.len() > 0 {
        let e = dir.last();
        assert(dir[dir.len() - 1].offset + dir[dir.len() - 1].len <= a.len());
        assert((a + b).subrange(e.offset as int, e.offset + e.len) =~= a.subrange(
            e.offset as int,
            e.offset + e.len,
        ));
        assert(dir_within(dir.drop_last(), a.len() as int));
        lemma_listed_tile_extends(dir.drop_last(), a, b, id);
    }
}

proof fn lemma_prefix_conditions(tiles: Seq<(u64, Seq<u8>)>)
    requires
        tiles.len() > 0,
    ensures
        no_clash(tiles) ==> no_clash(tiles.drop_last()),
        lengths_fit(tiles) ==> lengths_fit(tiles.drop_last()),
{
    let rest = tiles.drop_last();
    if no_clash(tiles) {
        assert forall|i: int, j: int|
            0 <= i < rest.len() && 0 <= j < rest.len() && fnv1a(#[trigger] rest[i].1) == fnv1a(
                #[trigger] rest[j].1,
            ) && rest[i].1.len() == rest[j].1.len() implies rest[i].1 == rest[j].1 by {
            assert(tiles[i].1 == rest[i].1 && tiles[j].1 == rest[j].1);
        }
    }
}

/// The tile last given for `id` is not taken for another one: no tile given before it
/// shares its hash and its length only.
pub open spec fn unmistakable(tiles: Seq<(u64, Seq<u8>)>, id: u64) -> bool
    decreases tiles.len(),
{
    if tiles.len() == 0 {
        true
    } else if tiles.last().0 == id && tiles.last().1.len() > 0 {
        forall|j: int|
            0 <= j < tiles.len() && fnv1a((#[trigger] tiles[j]).1) == fnv1a(tiles.last().1)
                && tiles[j].1.len() == tiles.last().1.len() ==> tiles[j].1 == tiles.last().1
    } else {
        unmistakable(tiles.drop_last(), id)
    }
}

/// Where no two tiles share their hash and their length only, none is taken for
/// another one.
pub proof fn tiles_without_clash_are_unmistakable(tiles: Seq<(u64, Seq<u8>)>, id: u64)
    requires
        no_clash(tiles),
    ensures
        unmistakable(tiles, id),
    decreases tiles.len(),
{
    if tiles.len() > 0 {
        lemma_prefix_conditions(tiles);
        tiles_without_clash_are_unmistakable(tiles.drop_last(), id);
        assert forall|j: int|
            0 <= j < tiles.len() && fnv1a((#[trigger] tiles[j]).1) == fnv1a(tiles.last().1)
                && tiles[j].1.len() == tiles.last().1.len() implies tiles[j].1
            == tiles.last().1 by {
            assert(tiles[tiles.len() - 1].1 == tiles.last().1);
        }
    }
}

/// The storage gives the bytes last given for an identifier, unless they were taken
/// for those of another tile.
pub proof fn packing_keeps_tiles(tiles: Seq<(u64, Seq<u8>)>, id: u64, spill: bool)
    requires
        lengths_fit(tiles),
        unmistakable(tiles, id),
        pack(tiles, spill).pos <= u64::MAX,
    ensures
        listed_tile(pack(tiles, spill).dir, pack(tiles, spill).data, id) == given_tile(
            tiles,
            id,
            false,
        ),
    decreases tiles.len(),
{
    if tiles.len() > 0 {
        let rest = tiles.drop_last();
        let (last_id, data) = tiles.last();
        let st = pack(rest, spill);
        let next = pack(tiles, spill);
        assert(tiles[tiles.len() - 1].1.len() <= u32::MAX);
        lemma_prefix_conditions(tiles);
        lemma_pos_is_end(rest, spill);
        lemma_packed_ok(rest, spill);
        lemma_places_hold(rest, spill);
        if data.len() == 0 {
            packing_keeps_tiles(rest, id, spill);
        } else {
            let e = next.dir.last();
            assert(next.dir.drop_last() =~= st.dir);
            assert(e.tile_id == last_id);
            if last_id != id {
                packing_keeps_tiles(rest, id, spill);
                lemma_listed_tile_extends(st.dir, st.data, data, id);
            } else {
                let h = fnv1a(data);
                assert(next.data.subrange(e.offset as int, e.offset + e.len) == data) by {
                    if st.places.contains_key(h) && st.places[h].1 == data.len() {
                        let k = choose|k: int|
                            0 <= k < rest.len() && fnv1a((#[trigger] rest[k]).1) == h
                                && rest[k].1.len() > 0 && st.places[h].1 == rest[k].1.len()
                                && st.data.subrange(
                                st.places[h].0 as int,
                                st.places[h].0 + st.places[h].1,
                            ) == rest[k].1;
                        assert(tiles[k].1 == rest[k].1);
                    } else {
                        assert(next.data.subrange(e.offset as int, e.offset + e.len) =~= data);
                    }
                }
            }
        }
    }
}

/// Different tiles have different hashes.
pub open spec fn hashes_tell_apart(tiles: Seq<(u64, Seq<u8>)>) -> bool {
    forall|i: int, j: int|
        0 <= i < tiles.len() && 0 <= j < tiles.len() && fnv1a(#[trigger] tiles[i].1) == fnv1a(
            #[trigger] tiles[j].1,
        ) ==> tiles[i].1 == tiles[j].1
}

proof fn lemma_place_remembered(tiles: Seq<(u64, Seq<u8>)>, spill: bool, i: int, m: int)
    requires
        0 <= i < m <= tiles.len(),
        tiles[i].1.len() > 0,
        hashes_tell_apart(tiles),
    ensures
        ({
            let st = pack(tiles.take(m), spill);
            let e = pack(tiles.take(i + 1), spill).dir.last();
            let h = fnv1a(tiles[i].1);
            &&& pack(tiles.take(i + 1), spill).dir.len() > 0
            &&& st.places.contains_key(h)
            &&& st.places[h] == (e.offset, low32(tiles[i].1.len() as int))
        }),
    decreases m,
{
    let data = tiles[m - 1].1;
    let h = fnv1a(tiles[i].1);
    assert(tiles.take(m).drop_last() =~= tiles.take(m - 1));
    assert(tiles.take(m).last() == tiles[m - 1]);
    let st = pack(tiles.take(m - 1), spill);
    if m - 1 == i {
        if st.places.contains_key(h) {
            let k = lemma_place_of(tiles.take(m - 1), spill, h);
            assert(tiles.take(m - 1)[k] == tiles[k]);
            assert(tiles[k].1 == tiles[i].1);
        }
    } else {
        lemma_place_remembered(tiles, spill, i, m - 1);
        if fnv1a(data) == h {
            assert(tiles[m - 1].1 == tiles[i].1);
        }
    }
}

proof fn lemma_place_of(tiles: Seq<(u64, Seq<u8>)>, spill: bool, h: u64) -> (k: int)
    requires
        pack(tiles, spill).places.contains_key(h),
    ensures
        0 <= k < tiles.len(),
        fnv1a(tiles[k].1) == h,
        pack(tiles, spill).places[h].1 == low32(tiles[k].1.len() as int),
    decreases tiles.len(),
{
    let rest = tiles.drop_last();
    let st = pack(rest, spill);
    let last = tiles.last();
    if st.places.contains_key(h) && pack(tiles, spill).places[h] == st.places[h] {
        let k = lemma_place_of(rest, spill, h);
        assert(rest[k] == tiles[k]);
        k
    } else {
        tiles.len() - 1
    }
}

/// Identical tiles are stored once: a tile that equals an earlier one takes no
/// storage, and its entry points to that of the earlier one.
pub proof fn identical_tiles_are_stored_once(
    tiles: Seq<(u64, Seq<u8>)>,
    spill: bool,
    i: int,
    j: int,
)
    requires
        0 <= i < j < tiles.len(),
        tiles[i].1 == tiles[j].1,
        tiles[i].1.len() > 0,
        hashes_tell_apart(tiles),
    ensures
        pack(tiles.take(j + 1), spill).data == pack(tiles.take(j), spill).data,
        pack(tiles.take(j + 1), spill).dir == pack(tiles.take(j), spill).dir.push(
            DirEntry {
                tile_id: tiles[j].0,
                ..pack(tiles.take(i + 1), spill).dir.last()
            },
        ),
{
    lemma_place_remembered(tiles, spill, i, j);
    assert(tiles.take(j + 1).drop_last() =~= tiles.take(j));
    assert(tiles.take(i + 1).drop_last() =~= tiles.take(i));
    lemma_place_remembered(tiles, spill, i, i + 1);
}

/// Empty tiles are elided.
pub proof fn empty_tiles_are_elided(tiles: Seq<(u64, Seq<u8>)>, spill: bool, j: int)
    requires
        0 <= j < tiles.len(),
        tiles[j].1.len() == 0,
    ensures
        pack(tiles.take(j + 1), spill) == pack(tiles.take(j), spill),
{
    assert(tiles.take(j + 1).drop_last() =~= tiles.take(j));
}

/// No identifier occurs twice.
pub open spec fn distinct_ids(tiles: Seq<(u64, Seq<u8>)>) -> bool {
    forall|i: int, j: int|
        0 <= i < j < tiles.len() ==> (#[trigger] tiles[i]).0 != (#[trigger] tiles[j]).0
}

/// Both hold the same tiles, in whatever order.
pub open spec fn same_tiles(a: Seq<(u64, Seq<u8>)>, b: Seq<(u64, Seq<u8>)>) -> bool {
    forall|t: (u64, Seq<u8>)| a.contains(t) <==> b.contains(t)
}

/// The tiles that are not empty.
pub open spec fn filled_tiles(tiles: Seq<(u64, Seq<u8>)>) -> Seq<(u64, Seq<u8>)>
    decreases tiles.len(),
{
    if tiles.len() == 0 {
        Seq::empty()
    } else if tiles.last().1.len() == 0 {
        filled_tiles(tiles.drop_last())
    } else {
        filled_tiles(tiles.drop_last()).push(tiles.last())
    }
}

/// The identifiers grow from tile to tile.
spec fn ascending(tiles: Seq<(u64, Seq<u8>)>) -> bool {
    forall|i: int, j: int|
        0 <= i < j < tiles.len() ==> (#[trigger] tiles[i]).0 < (#[trigger] tiles[j]).0
}

proof fn lemma_filled(tiles: Seq<(u64, Seq<u8>)>)
    ensures
        forall|t: (u64, Seq<u8>)|
            filled_tiles(tiles).contains(t) <==> tiles.contains(t) && t.1.len() > 0,
        ascending(tiles) ==> ascending(filled_tiles(tiles)),
    decreases tiles.len(),
{
    let f = filled_tiles(tiles);
    if tiles.len() > 0 {
        let rest = tiles.drop_last();
        let g = filled_tiles(rest);
        lemma_filled(rest);
        assert forall|t: (u64, Seq<u8>)|
            f.contains(t) <==> tiles.contains(t) && t.1.len() > 0 by {
            if f.contains(t) {
                let i = choose|i: int| 0 <= i < f.len() && f[i] == t;
                if i < g.len() {
                    assert(g[i] == t);
                    assert(rest.contains(t));
                    let k = choose|k: int| 0 <= k < rest.len() && rest[k] == t;
                    assert(tiles[k] == t);
                } else {
                    assert(tiles[tiles.len() - 1] == t);
                }
            }
            if tiles.contains(t) && t.1.len() > 0 {
                let k = choose|k: int| 0 <= k < tiles.len() && tiles[k] == t;
                if k < rest.len() {
                    assert(rest[k] == t);
                    assert(rest.contains(t));
                    assert(g.contains(t));
                    let i = choose|i: int| 0 <= i < g.len() && g[i] == t;
                    assert(f[i] == t);
                } else {
                    assert(f[f.len() - 1] == t);
                }
            }
        }
        if ascending(tiles) {
            assert(ascending(rest)) by {
                assert forall|i: int, j: int| 0 <= i < j < rest.len() implies (#[trigger] rest[i]).0
                    < (#[trigger] rest[j]).0 by {
                    assert(tiles[i].0 < tiles[j].0);
                }
            }
            assert forall|i: int, j: int| 0 <= i < j < f.len() implies (#[trigger] f[i]).0
                < (#[trigger] f[j]).0 by {
                if j < g.len() {
                    assert(g[i].0 < g[j].0);
                } else {
                    assert(g.contains(g[i]));
                    assert(rest.contains(g[i]));
                    let k = choose|k: int| 0 <= k < rest.len() && rest[k] == g[i];
                    assert(tiles[k].0 < tiles[tiles.len() - 1].0);
                }
            }
        }
    }
}

proof fn lemma_ascending_same(a: Seq<(u64, Seq<u8>)>, b: Seq<(u64, Seq<u8>)>)
    requires
        ascending(a),
        ascending(b),
        same_tiles(a, b),
    ensures
        a == b,
    decreases a.len(),
{
    if a.len() == 0 {
        if b.len() > 0 {
            assert(b.contains(b[0]));
        }
        assert(a =~= b);
    } else {
        assert(a.contains(a[a.len() - 1]));
        let j = choose|j: int| 0 <= j < b.len() && b[j] == a[a.len() - 1];
        assert(b.contains(b[b.len() - 1]));
        let i = choose|i: int| 0 <= i < a.len() && a[i] == b[b.len() - 1];
        assert(i == a.len() - 1 && j == b.len() - 1) by {
            if j < b.len() - 1 {
                assert(b[j].0 < b[b.len() - 1].0);
                if i < a.len() - 1 {
                    assert(a[i].0 < a[a.len() - 1].0);
                }
            }
            if i < a.len() - 1 {
                assert(a[i].0 < a[a.len() - 1].0);
            }
        }
        let x = a.drop_last();
        let y = b.drop_last();
        assert(ascending(x) && ascending(y)) by {
            assert forall|p: int, q: int| 0 <= p < q < x.len() implies (#[trigger] x[p]).0
                < (#[trigger] x[q]).0 by {
                assert(a[p].0 < a[q].0);
            }
            assert forall|p: int, q: int| 0 <= p < q < y.len() implies (#[trigger] y[p]).0
                < (#[trigger] y[q]).0 by {
                assert(b[p].0 < b[q].0);
            }
        }
        assert forall|t: (u64, Seq<u8>)| x.contains(t) <==> y.contains(t) by {
            if x.contains(t) {
                let p = choose|p: int| 0 <= p < x.len() && x[p] == t;
                assert(a[p] == t);
                assert(a[p].0 < a[a.len() - 1].0);
                assert(a.contains(t));
                let q = choose|q: int| 0 <= q < b.len() && b[q] == t;
                assert(y[q] == t);
            }
            if y.contains(t) {
                let q = choose|q: int| 0 <= q < y.len() && y[q] == t;
                assert(b[q] == t);
                assert(b[q].0 < b[b.len() - 1].0);
                assert(b.contains(t));
                let p = choose|p: int| 0 <= p < a.len() && a[p] == t;
                assert(x[p] == t);
            }
        }
        lemma_ascending_same(x, y);
        assert(a =~= x.push(a.last()));
        assert(b =~= y.push(b.last()));
    }
}

proof fn lemma_sorted_ascending(a: Seq<(u64, Seq<u8>)>, b: Seq<(u64, Seq<u8>)>)
    requires
        is_stable_sort(a, b),
        distinct_ids(a),
    ensures
        ascending(b),
        same_tiles(a, b),
{
    let keys = tile_ids(a);
    let order = choose|order: Seq<int>| #[trigger]
        is_stable_order(keys, order) && b == Seq::new(a.len(), |i: int| a[order[i]]);
    stable_order_lists_all(keys, order);
    assert forall|i: int, j: int| 0 <= i < j < b.len() implies (#[trigger] b[i]).0 < (
    #[trigger] b[j]).0 by {
        assert(before(keys, order[i], order[j]));
        if order[i] < order[j] {
            assert(a[order[i]].0 != a[order[j]].0);
        }
    }
    assert forall|t: (u64, Seq<u8>)| a.contains(t) <==> b.contains(t) by {
        if a.contains(t) {
            let p = choose|p: int| 0 <= p < a.len() && a[p] == t;
            assert(order.contains(p));
            let i = choose|i: int| 0 <= i < order.len() && order[i] == p;
            assert(b[i] == t);
        }
        if b.contains(t) {
            let i = choose|i: int| 0 <= i < b.len() && b[i] == t;
            assert(a[order[i]] == t);
        }
    }
}

/// Tiles with distinct identifiers are sorted in one way, whatever order they are
/// given in.
pub proof fn sorting_forgets_the_order(
    a: Seq<(u64, Seq<u8>)>,
    sorted_a: Seq<(u64, Seq<u8>)>,
    b: Seq<(u64, Seq<u8>)>,
    sorted_b: Seq<(u64, Seq<u8>)>,
)
    requires
        is_stable_sort(a, sorted_a),
        is_stable_sort(b, sorted_b),
        distinct_ids(a),
        distinct_ids(b),
        same_tiles(a, b),
    ensures
        sorted_a == sorted_b,
{
    lemma_sorted_ascending(a, sorted_a);
    lemma_sorted_ascending(b, sorted_b);
    assert forall|t: (u64, Seq<u8>)| sorted_a.contains(t) <==> sorted_b.contains(t) by {
        assert(a.contains(t) <==> sorted_a.contains(t));
        assert(b.contains(t) <==> sorted_b.contains(t));
        assert(a.contains(t) <==> b.contains(t));
    }
    lemma_ascending_same(sorted_a, sorted_b);
}

proof fn lemma_pack_filled(tiles: Seq<(u64, Seq<u8>)>, spill: bool)
    ensures
        pack(filled_tiles(tiles), spill) == pack(tiles, spill),
    decreases tiles.len(),
{
    if tiles.len() > 0 {
        let rest = tiles.drop_last();
        lemma_pack_filled(rest, spill);
        if tiles.last().1.len() > 0 {
            assert(filled_tiles(tiles).drop_last() =~= filled_tiles(rest));
        }
    }
}

/// What is stored depends on the tiles that are not empty only, whatever order they
/// are given in before they are sorted.
pub proof fn only_filled_tiles_matter(
    a: Seq<(u64, Seq<u8>)>,
    sorted_a: Seq<(u64, Seq<u8>)>,
    b: Seq<(u64, Seq<u8>)>,
    sorted_b: Seq<(u64, Seq<u8>)>,
    spill: bool,
)
    requires
        is_stable_sort(a, sorted_a),
        is_stable_sort(b, sorted_b),
        distinct_ids(a),
        distinct_ids(b),
        same_tiles(filled_tiles(a), filled_tiles(b)),
    ensures
        pack(sorted_a, spill) == pack(sorted_b, spill),
{
    let fa = filled_tiles(sorted_a);
    let fb = filled_tiles(sorted_b);
    lemma_sorted_ascending(a, sorted_a);
    lemma_sorted_ascending(b, sorted_b);
    lemma_filled(a);
    lemma_filled(b);
    lemma_filled(sorted_a);
    lemma_filled(sorted_b);
    assert forall|t: (u64, Seq<u8>)| fa.contains(t) <==> fb.contains(t) by {
        assert(fa.contains(t) <==> sorted_a.contains(t) && t.1.len() > 0);
        assert(fb.contains(t) <==> sorted_b.contains(t) && t.1.len() > 0);
        assert(a.contains(t) <==> sorted_a.contains(t));
        assert(b.contains(t) <==> sorted_b.contains(t));
        assert(filled_tiles(a).contains(t) <==> filled_tiles(b).contains(t));
        assert(filled_tiles(a).contains(t) <==> a.contains(t) && t.1.len() > 0);
        assert(filled_tiles(b).contains(t) <==> b.contains(t) && t.1.len() > 0);
    }
    lemma_ascending_same(fa, fb);
    lemma_pack_filled(sorted_a, spill);
    lemma_pack_filled(sorted_b, spill);
}

proof fn lemma_hashes_prefix(tiles: Seq<(u64, Seq<u8>)>)
    requires
        tiles.len() > 0,
        hashes_tell_apart(tiles),
    ensures
        hashes_tell_apart(tiles.drop_last()),
{
    let rest = tiles.drop_last();
    assert forall|i: int, j: int|
        0 <= i < rest.len() && 0 <= j < rest.len() && fnv1a(#[trigger] rest[i].1) == fnv1a(
            #[trigger] rest[j].1,
        ) implies rest[i].1 == rest[j].1 by {
        assert(tiles[i].1 == rest[i].1 && tiles[j].1 == rest[j].1);
    }
}

/// A store that spills and one that does not hold the same, where the hashes tell
/// the tiles apart and 32 bits count their lengths.
pub proof fn spilling_stores_the_same(tiles: Seq<(u64, Seq<u8>)>)
    requires
        hashes_tell_apart(tiles),
        lengths_fit(tiles),
    ensures
        pack(tiles, true) == pack(tiles, false),
    decreases tiles.len(),
{
    if tiles.len() > 0 {
        let rest = tiles.drop_last();
        let data = tiles.last().1;
        let st = pack(rest, false);
        let h = fnv1a(data);
        lemma_hashes_prefix(tiles);
        assert(tiles[tiles.len() - 1].1.len() <= u32::MAX);
        assert(lengths_fit(rest));
        spilling_stores_the_same(rest);
        if data.len() > 0 && st.places.contains_key(h) {
            let k = lemma_place_of(rest, false, h);
            assert(tiles[k].1 == rest[k].1);
            assert(tiles[tiles.len() - 1].1 == data);
            assert(tiles[k].1 == data);
        }
    }
}

/// One more tile that is not empty is one more in the listing. Its bytes are appended
/// just if no tile before it has them.
pub proof fn only_new_blobs_are_appended(
    tiles: Seq<(u64, Seq<u8>)>,
    id: u64,
    data: Seq<u8>,
    spill: bool,
)
    requires
        hashes_tell_apart(tiles.push((id, data))),
    ensures
        ({
            let st = pack(tiles, spill);
            let next = pack_one(st, id, data, spill);
            let new = data.len() > 0 && forall|k: int|
                0 <= k < tiles.len() ==> (#[trigger] tiles[k]).1 != data;
            &&& next == pack(tiles.push((id, data)), spill)
            &&& next.dir.len() == st.dir.len() + if data.len() > 0 {
                1int
            } else {
                0
            }
            &&& next.data == st.data + if new {
                data
            } else {
                Seq::empty()
            }
        }),
{
    let all = tiles.push((id, data));
    let st = pack(tiles, spill);
    let next = pack_one(st, id, data, spill);
    let h = fnv1a(data);
    let n = tiles.len() as int;
    assert(all.drop_last() =~= tiles);
    assert(all[n].1 == data);
    assert(st.data + Seq::<u8>::empty() =~= st.data);
    if data.len() > 0 {
        if exists|k: int| 0 <= k < n && (#[trigger] tiles[k]).1 == data {
            let k = choose|k: int| 0 <= k < n && (#[trigger] tiles[k]).1 == data;
            assert(all[k].1 == data);
            lemma_place_remembered(all, spill, k, n);
            assert(all.take(n) =~= tiles);
            assert(!takes_storage(st.places, data));
        } else if st.places.contains_key(h) {
            let k = lemma_place_of(tiles, spill, h);
            assert(all[k].1 == tiles[k].1);
            assert(all[k].1 == all[n].1);
        }
    }
}

/// The FNV-1a hash, for deduplication.
pub fn hash_bytes(data: &[u8]) -> (h: u64)
    ensures
        h == fnv1a(data@),
{
    let mut h: u64 = 0xcbf29ce484222325;
    let mut i: usize = 0;
    assert(data@.take(0) =~= Seq::<u8>::empty());
    while i < data.len()
        invariant
            i <= data.len(),
            h == fnv1a(data@.take(i as int)),
        decreases data.len() - i,
    {
        assert(data@.take(i + 1).drop_last() =~= data@.take(i as int));
        h = (h ^ data[i] as u64).wrapping_mul(0x100000001b3);
        i = i + 1;
    }
    assert(data@.take(i as int) =~= data@);
    h
}

/// The hash of a blob goes on from that of its front: the next byte is mixed in, and the
/// result is multiplied.
pub proof fn hashes_go_on(data: Seq<u8>, b: u8)
    ensures
        fnv1a(Seq::empty()) == 0xcbf2_9ce4_8422_2325u64,
        fnv1a(data.push(b)) == (fnv1a(data) ^ (b as u64)).wrapping_mul(0x100_0000_01b3u64),
{
    assert(data.push(b).drop_last() =~= data);
}

} // verus!
