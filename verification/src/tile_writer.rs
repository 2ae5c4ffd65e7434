//! Streaming PMTiles writer: tile blobs are appended to a spill file as they
//! arrive, and only the directory is kept in memory.
//!
//! The caller owns the spill file. Before each push it asks whether the blob
//! needs storage, and if so appends it to the file. At the end the archive is
//! the head that `finish` returns, followed by the contents of the file.

use std::collections::HashMap;

use vstd::prelude::*;
use vstd::utf8::encode_utf8;

use crate::archive::{
    archive_head, archive_holds, archive_holds_where, build_head, dir_within,
    laid_out_archive_reads_back, listed_tile, listing_header, ArchiveInfo,
};
use crate::directory::{sorted_dir, DirEntry};
use crate::le::low32;
use crate::order::{before, is_stable_order, positions, stable_order, stable_order_keeps_sorted};
use crate::packing::{
    given_tile, hash_bytes, hashes_tell_apart, is_stable_sort, lemma_pack_one_ok,
    lemma_packed_sorted, lemma_pos_is_end, lengths_fit, no_clash, nothing_packed,
    only_new_blobs_are_appended, pack, pack_one, packed_ok, packing_keeps_tiles, sorted_tiles,
    sorting_keeps_last_given, spilling_stores_the_same, takes_storage, tile_ids,
    tiles_without_clash_are_unmistakable, unmistakable, Packed,
};
use crate::writer::written_archive;

verus! {

broadcast use vstd::std_specs::hash::group_hash_axioms;

/// The identifiers of the listed tiles.
pub open spec fn dir_ids(dir: Seq<DirEntry>) -> Seq<u64> {
    Seq::new(dir.len(), |i: int| dir[i].tile_id)
}

/// `b` lists the tiles of `a` in ascending order of their identifiers; tiles
/// with equal identifiers keep their order.
pub open spec fn is_stable_listing(a: Seq<DirEntry>, b: Seq<DirEntry>) -> bool {
    exists|order: Seq<int>| #[trigger]
        is_stable_order(dir_ids(a), order) && b == Seq::new(a.len(), |i: int| a[order[i]])
}

/// The listed tiles with their bytes.
spec fn listed_pairs(dir: Seq<DirEntry>, data: Seq<u8>) -> Seq<(u64, Seq<u8>)> {
    Seq::new(
        dir.len(),
        |i: int|
            (dir[i].tile_id, data.subrange(dir[i].offset as int, dir[i].offset + dir[i].len)),
    )
}

proof fn lemma_listed_pairs(dir: Seq<DirEntry>, data: Seq<u8>, id: u64)
    ensures
        listed_tile(dir, data, id) == given_tile(listed_pairs(dir, data), id, true),
    decreases dir.len(),
{
    if dir.len() > 0 {
        lemma_listed_pairs(dir.drop_last(), data, id);
        assert(listed_pairs(dir, data).drop_last() =~= listed_pairs(dir.drop_last(), data));
    }
}

/// Sorting a listing does not change what it gives for an identifier.
pub proof fn sorting_keeps_listed_tile(
    a: Seq<DirEntry>,
    b: Seq<DirEntry>,
    data: Seq<u8>,
    id: u64,
)
    requires
        is_stable_listing(a, b),
    ensures
        listed_tile(a, data, id) == listed_tile(b, data, id),
{
    let order = choose|order: Seq<int>| #[trigger]
        is_stable_order(dir_ids(a), order) && b == Seq::new(a.len(), |i: int| a[order[i]]);
    let pa = listed_pairs(a, data);
    let pb = listed_pairs(b, data);
    assert(tile_ids(pa) =~= dir_ids(a));
    assert(pb =~= Seq::new(pa.len(), |i: int| pa[order[i]]));
    assert(is_stable_sort(pa, pb));
    sorting_keeps_last_given(pa, pb, id, true);
    lemma_listed_pairs(a, data, id);
    lemma_listed_pairs(b, data, id);
}

/// Tiles that are pushed in ascending order give the same archive as the writer that
/// holds them in memory, where the hashes tell them apart and 32 bits count their
/// lengths.
pub proof fn streamed_archive_is_the_same(
    tiles: Seq<(u64, Seq<u8>)>,
    listing: Seq<DirEntry>,
    sorted: Seq<(u64, Seq<u8>)>,
    text: Seq<char>,
    info: ArchiveInfo,
)
    requires
        sorted_tiles(tiles),
        hashes_tell_apart(tiles),
        lengths_fit(tiles),
        is_stable_listing(pack(tiles, true).dir, listing),
        is_stable_sort(tiles, sorted),
    ensures
        archive_head(
            info,
            listing,
            encode_utf8(text),
            pack(tiles, true).pos,
            pack(tiles, true).places.len() as int,
        ) + pack(tiles, true).data == written_archive(sorted, text, info),
{
    let dir = pack(tiles, true).dir;
    spilling_stores_the_same(tiles);
    lemma_pos_is_end(tiles, true);
    lemma_packed_sorted(tiles, true);
    assert(listing =~= dir) by {
        let keys = dir_ids(dir);
        let order = choose|order: Seq<int>| #[trigger]
            is_stable_order(keys, order) && listing == Seq::new(dir.len(), |i: int| dir[order[i]]);
        stable_order_keeps_sorted(keys, order);
    }
    assert(sorted =~= tiles) by {
        let keys = tile_ids(tiles);
        let order = choose|order: Seq<int>| #[trigger]
            is_stable_order(keys, order) && sorted == Seq::new(
                tiles.len(),
                |i: int| tiles[order[i]],
            );
        stable_order_keeps_sorted(keys, order);
    }
}

/// Append-only tile sink.
pub struct StreamingTileWriter {
    pos: u64,
    dir: Vec<DirEntry>,
    /// Hash to place and length, for deduplication.
    dedup: HashMap<u64, (u64, u32)>,
    spilled: Ghost<Seq<u8>>,
}

impl StreamingTileWriter {
    /// What has been stored; `data` is what the spill file holds.
    pub closed spec fn packed(&self) -> Packed {
        Packed {
            places: self.dedup@,
            pos: self.pos as int,
            data: self.spilled@,
            dir: self.dir@,
        }
    }

    /// The storage is in order.
    pub open spec fn wf(&self) -> bool {
        packed_ok(self.packed()) && self.packed().pos <= u64::MAX
    }

    /// A writer with nothing stored.
    pub fn new() -> (w: StreamingTileWriter)
        ensures
            w.wf(),
            w.packed() == nothing_packed(),
    {
        let w = StreamingTileWriter {
            pos: 0,
            dir: Vec::new(),
            dedup: HashMap::new(),
            spilled: Ghost(Seq::empty()),
        };
        assert(w.packed() =~= nothing_packed());
        w
    }

    /// Whether a blob has to be appended to the spill file when it is pushed.
    pub fn needs_storage(&self, data: &[u8]) -> (r: bool)
        ensures
            r == takes_storage(self.packed().places, data@),
    {
        if data.len() == 0 {
            return false;
        }
        let h: u64 = hash_bytes(data);
        let len: u32 = (data.len() as u64 % 0x1_0000_0000) as u32;
        match self.dedup.get(&h) {
            Some(place) => (*place).1 != len,
            None => true,
        }
    }

    /// Push one compressed tile. Identical blobs share one storage slot.
    pub fn push(&mut self, tile_id: u64, data: &[u8])
        requires
            old(self).wf(),
            pack_one(old(self).packed(), tile_id, data@, true).pos <= u64::MAX,
        ensures
            final(self).wf(),
            final(self).packed() == pack_one(old(self).packed(), tile_id, data@, true),
            final(self).packed().dir.len() == old(self).packed().dir.len() + if data@.len() > 0 {
                1int
            } else {
                0
            },
            final(self).packed().data == old(self).packed().data + if takes_storage(
                old(self).packed().places,
                data@,
            ) {
                data@
            } else {
                Seq::empty()
            },
            forall|tiles: Seq<(u64, Seq<u8>)>|
                old(self).packed() == #[trigger] pack(tiles, true) && hashes_tell_apart(
                    tiles.push((tile_id, data@)),
                ) ==> takes_storage(old(self).packed().places, data@) == (data@.len() > 0
                    && forall|k: int|
                    0 <= k < tiles.len() ==> (#[trigger] tiles[k]).1 != data@),
    {
        let ghost before_push = self.packed();
        proof {
            lemma_pack_one_ok(self.packed(), tile_id, data@, true);
            assert(self.packed().data + Seq::<u8>::empty() =~= self.packed().data);
            assert forall|tiles: Seq<(u64, Seq<u8>)>|
                self.packed() == #[trigger] pack(tiles, true) && hashes_tell_apart(
                    tiles.push((tile_id, data@)),
                ) implies takes_storage(self.packed().places, data@) == (data@.len() > 0
                && forall|k: int| 0 <= k < tiles.len() ==> (#[trigger] tiles[k]).1 != data@) by {
                only_new_blobs_are_appended(tiles, tile_id, data@, true);
                assert(pack_one(self.packed(), tile_id, data@, true).data.len()
                    == self.packed().data.len() + if takes_storage(self.packed().places, data@) {
                    data@.len()
                } else {
                    0
                });
            }
        }
        if data.len() == 0 {
            return;
        }
        let h: u64 = hash_bytes(data);
        let len: u32 = (data.len() as u64 % 0x1_0000_0000) as u32;
        let found: Option<(u64, u32)> = match self.dedup.get(&h) {
            Some(place) => Some(*place),
            None => None,
        };
        let shared: bool = match found {
            Some((_, stored_len)) => stored_len == len,
            None => false,
        };
        if shared {
            let (offset, _) = found.unwrap();
            self.dir.push(DirEntry { tile_id, offset, len });
        } else {
            let offset: u64 = self.pos;
            self.spilled = Ghost(self.spilled@ + data@);
            self.pos = self.pos + len as u64;
            self.dedup.insert(h, (offset, len));
            self.dir.push(DirEntry { tile_id, offset, len });
        }
        assert(self.packed() =~= pack_one(before_push, tile_id, data@, true));
    }

    /// Number of tiles pushed so far, empty ones not counted.
    pub fn tile_count(&self) -> (n: usize)
        ensures
            n == self.packed().dir.len(),
    {
        self.dir.len()
    }

    /// The number of bytes that the spill file holds.
    pub fn spilled_len(&self) -> (n: u64)
        ensures
            n == self.packed().pos,
    {
        self.pos
    }

    /// The directory in ascending order of the identifiers.
    fn sorted_directory(&self) -> (sorted: Vec<DirEntry>)
        ensures
            is_stable_listing(self.packed().dir, sorted@),
            sorted_dir(sorted@),
    {
        let mut keys: Vec<u64> = Vec::new();
        let mut i: usize = 0;
        while i < self.dir.len()
            invariant
                i <= self.dir.len(),
                keys@ == dir_ids(self.dir@).take(i as int),
            decreases self.dir.len() - i,
        {
            keys.push(self.dir[i].tile_id);
            i = i + 1;
            assert(keys@ =~= dir_ids(self.dir@).take(i as int));
        }
        assert(keys@ =~= dir_ids(self.dir@));
        let order = stable_order(&keys);
        let ghost pos = positions(order@);
        let mut sorted: Vec<DirEntry> = Vec::new();
        let mut k: usize = 0;
        while k < order.len()
            invariant
                k <= order.len(),
                order.len() == keys.len(),
                keys.len() == self.dir.len(),
                pos == positions(order@),
                forall|j: int| 0 <= j < order.len() ==> #[trigger] order[j] < keys.len(),
                sorted.len() == k,
                forall|j: int| 0 <= j < k ==> #[trigger] sorted@[j] == self.dir@[pos[j]],
            decreases order.len() - k,
        {
            sorted.push(self.dir[order[k]]);
            k = k + 1;
        }
        proof {
            assert(sorted@ =~= Seq::new(self.dir@.len(), |j: int| self.dir@[pos[j]]));
            assert(is_stable_order(dir_ids(self.dir@), pos));
            assert forall|a: int, b: int| 0 <= a <= b < sorted@.len() implies sorted@[a].tile_id
                <= sorted@[b].tile_id by {
                if a < b {
                    assert(before(keys@, pos[a], pos[b]));
                }
            }
        }
        sorted
    }

    /// Finalise: the part of the archive in front of the tile data.
    pub fn finish(self, metadata_json: &str, info: &ArchiveInfo) -> (head: Vec<u8>)
        requires
            self.wf(),
        ensures
            exists|sorted: Seq<DirEntry>| #[trigger]
                is_stable_listing(self.packed().dir, sorted) && sorted_dir(sorted) && head@
                    == archive_head(
                    *info,
                    sorted,
                    encode_utf8(metadata_json@),
                    self.packed().pos,
                    self.packed().places.len() as int,
                ) && forall|tiles: Seq<(u64, Seq<u8>)>|
                    self.packed() == #[trigger] pack(tiles, true) && lengths_fit(tiles) && no_clash(
                        tiles,
                    ) && head@.len()
                        + self.packed().data.len() <= u64::MAX ==> archive_holds(
                        head@ + self.packed().data,
                        listing_header(
                            *info,
                            sorted,
                            encode_utf8(metadata_json@),
                            self.packed().pos,
                            self.packed().places.len() as int,
                        ),
                        metadata_json@,
                        |id: u64| given_tile(tiles, id, false),
                    ) && forall|tiles: Seq<(u64, Seq<u8>)>|
                    self.packed() == #[trigger] pack(tiles, true) && lengths_fit(tiles)
                        && head@.len() + self.packed().data.len()
                        <= u64::MAX ==> archive_holds_where(
                        head@ + self.packed().data,
                        listing_header(
                            *info,
                            sorted,
                            encode_utf8(metadata_json@),
                            self.packed().pos,
                            self.packed().places.len() as int,
                        ),
                        metadata_json@,
                        |id: u64| given_tile(tiles, id, false),
                        |id: u64| unmistakable(tiles, id),
                    ),
            forall|tiles: Seq<(u64, Seq<u8>)>|
                self.packed() == #[trigger] pack(tiles, true) && sorted_tiles(tiles)
                    && hashes_tell_apart(tiles) && lengths_fit(tiles) ==> head@
                    + self.packed().data == written_archive(tiles, metadata_json@, *info),
    {
        let sorted = self.sorted_directory();
        let contents: u64 = self.dedup.len() as u64;
        let ghost st = self.packed();
        proof {
            let order = choose|order: Seq<int>| #[trigger]
                is_stable_order(dir_ids(st.dir), order) && sorted@ == Seq::new(
                    st.dir.len(),
                    |i: int| st.dir[order[i]],
                );
            assert forall|i: int| 0 <= i < sorted@.len() implies (#[trigger] sorted@[i]).offset
                + sorted@[i].len <= st.pos by {
                assert(sorted@[i] == st.dir[order[i]]);
            }
        }
        assert(dir_within(sorted@, st.pos));
        let head = build_head(
            info,
            sorted.as_slice(),
            metadata_json.as_bytes(),
            self.pos,
            contents,
        );
        assert(sorted.len() <= u64::MAX);
        proof {
            let meta = encode_utf8(metadata_json@);
            vstd::utf8::encode_utf8_valid_utf8(metadata_json@);
            vstd::utf8::encode_utf8_decode_utf8(metadata_json@);
            let h = listing_header(*info, sorted@, meta, st.pos, st.places.len() as int);
            assert forall|tiles: Seq<(u64, Seq<u8>)>|
                st == #[trigger] pack(tiles, true) && lengths_fit(tiles) && no_clash(tiles)
                    && head@.len() + st.data.len() <= u64::MAX implies archive_holds(
                head@ + st.data,
                h,
                metadata_json@,
                |id: u64| given_tile(tiles, id, false),
            ) by {
                lemma_pos_is_end(tiles, true);
                laid_out_archive_reads_back(
                    *info,
                    sorted@,
                    meta,
                    st.data,
                    st.places.len() as int,
                    head@ + st.data,
                );
                let listed = |id: u64| listed_tile(sorted@, st.data, id);
                let wanted = |id: u64| given_tile(tiles, id, false);
                assert forall|id: u64| #[trigger] listed(id) == wanted(id) by {
                    tiles_without_clash_are_unmistakable(tiles, id);
                    packing_keeps_tiles(tiles, id, true);
                    sorting_keeps_listed_tile(st.dir, sorted@, st.data, id);
                }
                assert(listed =~= wanted);
            }
            assert forall|tiles: Seq<(u64, Seq<u8>)>|
                st == #[trigger] pack(tiles, true) && lengths_fit(tiles) && head@.len() + st.data.len() <= u64::MAX implies archive_holds_where(
                head@ + st.data,
                h,
                metadata_json@,
                |id: u64| given_tile(tiles, id, false),
                |id: u64| unmistakable(tiles, id),
            ) by {
                lemma_pos_is_end(tiles, true);
                laid_out_archive_reads_back(
                    *info,
                    sorted@,
                    meta,
                    st.data,
                    st.places.len() as int,
                    head@ + st.data,
                );
                let listed = |id: u64| listed_tile(sorted@, st.data, id);
                let wanted = |id: u64| given_tile(tiles, id, false);
                assert forall|id: u64| unmistakable(tiles, id) implies #[trigger] listed(id)
                    == wanted(id) by {
                    packing_keeps_tiles(tiles, id, true);
                    sorting_keeps_listed_tile(st.dir, sorted@, st.data, id);
                }
            }
            assert forall|tiles: Seq<(u64, Seq<u8>)>|
                st == #[trigger] pack(tiles, true) && sorted_tiles(tiles) && hashes_tell_apart(
                    tiles,
                ) && lengths_fit(tiles) implies head@ + st.data == written_archive(
                tiles,
                metadata_json@,
                *info,
            ) by {
                assert(is_stable_sort(tiles, tiles)) by {
                    let same = Seq::new(tiles.len(), |i: int| i);
                    assert(is_stable_order(tile_ids(tiles), same));
                    assert(tiles =~= Seq::new(tiles.len(), |i: int| tiles[same[i]]));
                }
                streamed_archive_is_the_same(tiles, sorted@, tiles, metadata_json@, *info);
            }
        }
        head
    }
}

} // verus!
