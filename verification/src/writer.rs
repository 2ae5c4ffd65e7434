//! PMTiles v3 writer with tile deduplication.
//!
//! Identical tile blobs are stored once and referenced from multiple directory
//! entries. Tiles with zero length are elided.

use std::collections::HashMap;

use vstd::prelude::*;
use vstd::utf8::encode_utf8;

use crate::archive::{
    archive_head, archive_holds, archive_holds_where, build_head, laid_out_archive_reads_back,
    listed_tile, listing_header, ArchiveInfo,
};
use crate::directory::DirEntry;
use crate::header::Header;
use crate::order::{before, is_stable_order, positions, stable_order};
use crate::packing::{
    distinct_ids, filled_tiles, only_filled_tiles_matter, same_tiles, given_tile, hash_bytes,
    is_stable_sort, lemma_packed_ok, lemma_packed_sorted, lemma_pos_is_end, lengths_fit, no_clash,
    nothing_packed, pack, pack_one, packing_keeps_tiles, sorted_tiles, sorting_keeps_last_given,
    tile_ids, tiles_without_clash_are_unmistakable, unmistakable, Packed,
};

verus! {

broadcast use vstd::std_specs::hash::group_hash_axioms;

/// A tile to be written.
pub struct TileEntry {
    pub tile_id: u64,
    /// Raw tile bytes, already compressed by the caller (or uncompressed).
    pub data: Vec<u8>,
}

impl View for TileEntry {
    type V = (u64, Seq<u8>);

    open spec fn view(&self) -> (u64, Seq<u8>) {
        (self.tile_id, self.data@)
    }
}

/// The tiles as pairs of an identifier and bytes.
pub open spec fn tile_views(tiles: Seq<TileEntry>) -> Seq<(u64, Seq<u8>)> {
    Seq::new(tiles.len(), |i: int| tiles[i]@)
}

/// The archive that holds `tiles`, in the order given, and the metadata text.
pub open spec fn written_archive(
    tiles: Seq<(u64, Seq<u8>)>,
    text: Seq<char>,
    info: ArchiveInfo,
) -> Seq<u8> {
    let st = pack(tiles, false);
    archive_head(
        info,
        st.dir,
        encode_utf8(text),
        st.data.len() as int,
        st.places.len() as int,
    ) + st.data
}

/// The header of the archive that holds `tiles`, in the order given.
pub open spec fn written_header(
    tiles: Seq<(u64, Seq<u8>)>,
    text: Seq<char>,
    info: ArchiveInfo,
) -> Header {
    let st = pack(tiles, false);
    listing_header(info, st.dir, encode_utf8(text), st.data.len() as int, st.places.len() as int)
}

/// The archive depends on the tiles that are not empty only: empty ones may be left
/// out, and the tiles given in any order.
pub proof fn archive_of_filled_tiles(
    a: Seq<(u64, Seq<u8>)>,
    sorted_a: Seq<(u64, Seq<u8>)>,
    b: Seq<(u64, Seq<u8>)>,
    sorted_b: Seq<(u64, Seq<u8>)>,
    text: Seq<char>,
    info: ArchiveInfo,
)
    requires
        is_stable_sort(a, sorted_a),
        is_stable_sort(b, sorted_b),
        distinct_ids(a),
        distinct_ids(b),
        same_tiles(filled_tiles(a), filled_tiles(b)),
    ensures
        written_archive(sorted_a, text, info) == written_archive(sorted_b, text, info),
{
    only_filled_tiles_matter(a, sorted_a, b, sorted_b, false);
}

/// Bring the tiles in ascending order of their identifiers.
pub(crate) fn sort_tiles(tiles: &mut Vec<TileEntry>)
    ensures
        is_stable_sort(tile_views(old(tiles)@), tile_views(final(tiles)@)),
        sorted_tiles(tile_views(final(tiles)@)),
{
    let ghost given = tile_views(tiles@);
    let mut keys: Vec<u64> = Vec::new();
    let mut i: usize = 0;
    while i < tiles.len()
        invariant
            i <= tiles.len(),
            given == tile_views(tiles@),
            keys@ == tile_ids(given).take(i as int),
        decreases tiles.len() - i,
    {
        keys.push(tiles[i].tile_id);
        i = i + 1;
        assert(keys@ =~= tile_ids(given).take(i as int));
    }
    assert(keys@ =~= tile_ids(given));
    let order = stable_order(&keys);
    let ghost pos = positions(order@);
    let mut sorted: Vec<TileEntry> = Vec::new();
    let mut k: usize = 0;
    while k < order.len()
        invariant
            k <= order.len(),
            order.len() == keys.len(),
            keys.len() == tiles.len(),
            keys@ == tile_ids(given),
            given.len() == tiles.len(),
            pos == positions(order@),
            is_stable_order(keys@, pos),
            forall|j: int| 0 <= j < order.len() ==> #[trigger] order[j] < keys.len(),
            forall|j: int| k <= j < order.len() ==> tiles@[#[trigger] pos[j]]@ == given[pos[j]],
            sorted.len() == k,
            forall|j: int| 0 <= j < k ==> (#[trigger] sorted@[j])@ == given[pos[j]],
        decreases order.len() - k,
    {
        let p: usize = order[k];
        assert(pos[k as int] == p);
        let mut data: Vec<u8> = Vec::new();
        let ghost prev = tiles@;
        std::mem::swap(&mut tiles[p].data, &mut data);
        proof {
            assert(tiles@.len() == prev.len());
            assert forall|j: int| k + 1 <= j < order.len() implies tiles@[#[trigger] pos[j]]@
                == given[pos[j]] by {
                assert(before(keys@, pos[k as int], pos[j]));
                assert(tiles@[pos[j]] == prev[pos[j]]);
            }
        }
        sorted.push(TileEntry { tile_id: keys[p], data });
        k = k + 1;
    }
    proof {
        let result = tile_views(sorted@);
        assert(result =~= Seq::new(given.len(), |j: int| given[pos[j]]));
        assert(is_stable_order(tile_ids(given), pos));
        assert forall|a: int, b: int| 0 <= a <= b < result.len() implies result[a].0
            <= result[b].0 by {
            if a < b {
                assert(before(keys@, pos[a], pos[b]));
            }
        }
    }
    *tiles = sorted;
}

/// A store whose blobs are held in full.
pub open spec fn packed_parts(
    places: Map<u64, (u64, u32)>,
    data: Seq<u8>,
    dir: Seq<DirEntry>,
) -> Packed {
    Packed { places, pos: data.len() as int, data, dir }
}

/// Store one more tile.
fn pack_tile(
    places: &mut HashMap<u64, (u64, u32)>,
    data: &mut Vec<u8>,
    dir: &mut Vec<DirEntry>,
    t: &TileEntry,
)
    ensures
        packed_parts(final(places)@, final(data)@, final(dir)@) == pack_one(
            packed_parts(old(places)@, old(data)@, old(dir)@),
            t.tile_id,
            t.data@,
            false,
        ),
{
    if t.data.len() == 0 {
        return;
    }
    let h: u64 = hash_bytes(t.data.as_slice());
    let len: u32 = (t.data.len() as u64 % 0x1_0000_0000) as u32;
    let offset: u64 = data.len() as u64;
    let found: Option<(u64, u32)> = match places.get(&h) {
        Some(place) => Some(*place),
        None => None,
    };
    match found {
        Some((stored_at, stored_len)) => {
            if stored_len != len {
                data.extend_from_slice(t.data.as_slice());
                dir.push(DirEntry { tile_id: t.tile_id, offset, len });
            } else {
                dir.push(DirEntry { tile_id: t.tile_id, offset: stored_at, len });
            }
        },
        None => {
            data.extend_from_slice(t.data.as_slice());
            places.insert(h, (offset, len));
            dir.push(DirEntry { tile_id: t.tile_id, offset, len });
        },
    }
}

/// Store the tiles one after the other, identical blobs once.
fn pack_tiles(tiles: &Vec<TileEntry>) -> (r: (Vec<DirEntry>, Vec<u8>, u64))
    ensures
        r.0@ == pack(tile_views(tiles@), false).dir,
        r.1@ == pack(tile_views(tiles@), false).data,
        r.2 == pack(tile_views(tiles@), false).places.len(),
{
    let ghost given = tile_views(tiles@);
    let mut places: HashMap<u64, (u64, u32)> = HashMap::new();
    let mut data: Vec<u8> = Vec::new();
    let mut dir: Vec<DirEntry> = Vec::new();
    let mut i: usize = 0;
    assert(given.take(0) =~= Seq::<(u64, Seq<u8>)>::empty());
    assert(packed_parts(places@, data@, dir@) =~= nothing_packed());
    while i < tiles.len()
        invariant
            i <= tiles.len(),
            given == tile_views(tiles@),
            pack(given.take(i as int), false) == packed_parts(places@, data@, dir@),
        decreases tiles.len() - i,
    {
        let t = &tiles[i];
        proof {
            assert(given.take(i + 1).drop_last() =~= given.take(i as int));
            assert(given.take(i + 1).last() == given[i as int]);
        }
        pack_tile(&mut places, &mut data, &mut dir, t);
        i = i + 1;
    }
    assert(given.take(i as int) =~= given);
    let contents: u64 = places.len() as u64;
    (dir, data, contents)
}

/// Write a PMTiles v3 archive with deduplication.
///
/// Tiles with identical data share a single storage slot in the data section.
/// Empty tiles are dropped. Coordinates are in units of 1e-7 degrees.
pub fn write_pmtiles(
    tiles: &mut Vec<TileEntry>,
    metadata_json: &str,
    info: &ArchiveInfo,
) -> (out: Vec<u8>)
    ensures
        is_stable_sort(tile_views(old(tiles)@), tile_views(final(tiles)@)),
        sorted_tiles(tile_views(final(tiles)@)),
        out@ == written_archive(tile_views(final(tiles)@), metadata_json@, *info),
        ({
            let sorted = tile_views(final(tiles)@);
            lengths_fit(sorted) && no_clash(sorted) ==> archive_holds(
                out@,
                written_header(sorted, metadata_json@, *info),
                metadata_json@,
                |id: u64| given_tile(tile_views(old(tiles)@), id, false),
            )
        }),
        ({
            let sorted = tile_views(final(tiles)@);
            lengths_fit(sorted) ==> archive_holds_where(
                out@,
                written_header(sorted, metadata_json@, *info),
                metadata_json@,
                |id: u64| given_tile(tile_views(old(tiles)@), id, false),
                |id: u64| unmistakable(sorted, id),
            )
        }),
{
    let ghost first = tile_views(tiles@);
    sort_tiles(tiles);
    let (dir, data, contents) = pack_tiles(tiles);
    let ghost given = tile_views(tiles@);
    let ghost st = pack(given, false);
    let data_len: u64 = data.len() as u64;
    proof {
        lemma_pos_is_end(given, false);
        lemma_packed_ok(given, false);
        lemma_packed_sorted(given, false);
    }
    let mut out = build_head(
        info,
        dir.as_slice(),
        metadata_json.as_bytes(),
        data_len,
        contents,
    );
    out.extend_from_slice(data.as_slice());
    assert(out.len() <= u64::MAX && dir.len() <= u64::MAX);
    proof {
        let meta = encode_utf8(metadata_json@);
        vstd::utf8::encode_utf8_valid_utf8(metadata_json@);
        vstd::utf8::encode_utf8_decode_utf8(metadata_json@);
        assert(out@ =~= written_archive(given, metadata_json@, *info));
        if lengths_fit(given) {
            laid_out_archive_reads_back(
                *info,
                st.dir,
                meta,
                st.data,
                st.places.len() as int,
                out@,
            );
            let listed = |id: u64| listed_tile(st.dir, st.data, id);
            let wanted = |id: u64| given_tile(first, id, false);
            assert forall|id: u64| unmistakable(given, id) implies #[trigger] listed(id)
                == wanted(id) by {
                packing_keeps_tiles(given, id, false);
                sorting_keeps_last_given(first, given, id, false);
            }
            if no_clash(given) {
                assert forall|id: u64| #[trigger] listed(id) == wanted(id) by {
                    tiles_without_clash_are_unmistakable(given, id);
                }
                assert(listed =~= wanted);
            }
        }
    }
    out
}

} // verus!
