//! A minimal but fully valid PMTiles v3 archive, built in memory.

use vstd::prelude::*;
use vstd::utf8::encode_utf8;

use crate::archive::{
    archive_head, archive_holds, build_head, dir_within, laid_out_archive_reads_back, listed_tile,
    listing_header, ArchiveInfo,
};
use crate::directory::{sorted_dir, DirEntry};
use crate::header::Compression;
use crate::le::low32;
use crate::order::{before, is_stable_order, positions, stable_order};
use crate::tile_id::{tile_id, tile_to_id};
use crate::packing::{
    distinct_ids, given_tile, is_stable_sort, lengths_fit, same_tiles, sorted_tiles,
    sorting_forgets_the_order, sorting_keeps_last_given, tile_ids,
};

verus! {

/// A tile by its zoom level, column and row.
pub type PlacedTile = (u8, u32, u32, Vec<u8>);

/// The tiles with their identifiers.
pub open spec fn placed_views(tiles: Seq<PlacedTile>) -> Seq<(u64, Seq<u8>)> {
    Seq::new(
        tiles.len(),
        |i: int|
            (
                tile_id(tiles[i].0 as nat, tiles[i].1 as int, tiles[i].2 as int) as u64,
                tiles[i].3@,
            ),
    )
}

/// The tiles laid out one behind the other: the listing and the tile data.
pub open spec fn lay_out(tiles: Seq<(u64, Seq<u8>)>) -> (Seq<DirEntry>, Seq<u8>)
    decreases tiles.len(),
{
    if tiles.len() == 0 {
        (Seq::empty(), Seq::empty())
    } else {
        let (dir, data) = lay_out(tiles.drop_last());
        let (id, bytes) = tiles.last();
        (
            dir.push(
                DirEntry {
                    tile_id: id,
                    offset: data.len() as u64,
                    len: low32(bytes.len() as int),
                },
            ),
            data + bytes,
        )
    }
}

/// What the header of a fixture says.
pub open spec fn fixture_info() -> ArchiveInfo {
    ArchiveInfo {
        tile_compression: Compression::Uncompressed,
        min_zoom: 0,
        max_zoom: 2,
        min_lon_e7: 0,
        min_lat_e7: 0,
        max_lon_e7: 0,
        max_lat_e7: 0,
        center_zoom: 0,
        center_lon_e7: 0,
        center_lat_e7: 0,
    }
}

/// The metadata of a fixture: an empty JSON object.
pub open spec fn fixture_text() -> Seq<char> {
    seq!['{', '}']
}

/// The fixture that holds `tiles`, in the order given.
pub open spec fn fixture_archive(tiles: Seq<(u64, Seq<u8>)>) -> Seq<u8> {
    let (dir, data) = lay_out(tiles);
    archive_head(
        fixture_info(),
        dir,
        encode_utf8(fixture_text()),
        data.len() as int,
        tiles.len() as int,
    ) + data
}

proof fn lemma_lay_out(tiles: Seq<(u64, Seq<u8>)>)
    requires
        sorted_tiles(tiles),
        lay_out(tiles).1.len() <= u64::MAX,
    ensures
        lay_out(tiles).0.len() == tiles.len(),
        dir_within(lay_out(tiles).0, lay_out(tiles).1.len() as int),
        sorted_dir(lay_out(tiles).0),
        forall|i: int| 0 <= i < tiles.len() ==> (#[trigger] lay_out(tiles).0[i]).tile_id
            == tiles[i].0,
    decreases tiles.len(),
{
    if tiles.len() > 0 {
        let rest = tiles.drop_last();
        let (dir, data) = lay_out(rest);
        let (next_dir, next_data) = lay_out(tiles);
        assert(next_data == data + tiles.last().1);
        lemma_lay_out(rest);
        assert forall|i: int| 0 <= i < tiles.len() implies (#[trigger] next_dir[i]).tile_id
            == tiles[i].0 by {
            if i < rest.len() {
                assert(next_dir[i] == dir[i]);
                assert(rest[i] == tiles[i]);
            }
        }
        assert forall|i: int| 0 <= i < next_dir.len() implies (#[trigger] next_dir[i]).offset
            + next_dir[i].len <= next_data.len() by {
            if i < dir.len() {
                assert(next_dir[i] == dir[i]);
            }
        }
    }
}

/// The listing of a fixture gives for every identifier the bytes last given.
proof fn lemma_lay_out_keeps_tiles(tiles: Seq<(u64, Seq<u8>)>, id: u64, more: Seq<u8>)
    requires
        sorted_tiles(tiles),
        lengths_fit(tiles),
        lay_out(tiles).1.len() <= u64::MAX,
    ensures
        listed_tile(lay_out(tiles).0, lay_out(tiles).1 + more, id) == given_tile(tiles, id, true),
    decreases tiles.len(),
{
    if tiles.len() > 0 {
        let rest = tiles.drop_last();
        let (dir, data) = lay_out(rest);
        let (next_dir, next_data) = lay_out(tiles);
        let bytes = tiles.last().1;
        assert(next_data == data + bytes);
        assert(tiles[tiles.len() - 1].1.len() <= u32::MAX);
        lemma_lay_out_keeps_tiles(rest, id, bytes + more);
        assert(data + (bytes + more) =~= next_data + more);
        assert(next_dir.drop_last() =~= dir);
        let e = next_dir.last();
        assert((next_data + more).subrange(e.offset as int, e.offset + e.len) =~= bytes);
    }
}

/// A fixture of tiles with distinct identifiers does not depend on their order.
pub proof fn fixture_forgets_the_order(
    a: Seq<(u64, Seq<u8>)>,
    sorted_a: Seq<(u64, Seq<u8>)>,
    b: Seq<(u64, Seq<u8>)>,
    sorted_b: Seq<(u64, Seq<u8>)>,
)
    requires
        is_stable_sort(a, sorted_a),
        is_stable_sort(b, sorted_b),
        distinct_ids(a),
        distinct_ids(b),
        same_tiles(a, b),
    ensures
        fixture_archive(sorted_a) == fixture_archive(sorted_b),
{
    sorting_forgets_the_order(a, sorted_a, b, sorted_b);
}

/// Build an archive that holds `tiles` as they are, uncompressed.
pub fn build_fixture(tiles: &[PlacedTile]) -> (out: Vec<u8>)
    requires
        forall|i: int| 0 <= i < tiles.len() ==> (#[trigger] tiles[i]).0 <= 31,
    ensures
        exists|sorted: Seq<(u64, Seq<u8>)>| #[trigger]
            is_stable_sort(placed_views(tiles@), sorted) && out@ == fixture_archive(sorted),
        lengths_fit(placed_views(tiles@)) ==> exists|sorted: Seq<(u64, Seq<u8>)>| #[trigger]
            is_stable_sort(placed_views(tiles@), sorted) && archive_holds(
                out@,
                listing_header(
                    fixture_info(),
                    lay_out(sorted).0,
                    encode_utf8(fixture_text()),
                    lay_out(sorted).1.len() as int,
                    sorted.len() as int,
                ),
                fixture_text(),
                |id: u64| given_tile(placed_views(tiles@), id, true),
            ),
{
    let ghost given = placed_views(tiles@);
    let mut ids: Vec<u64> = Vec::new();
    let mut i: usize = 0;
    while i < tiles.len()
        invariant
            i <= tiles.len(),
            forall|k: int| 0 <= k < tiles.len() ==> (#[trigger] tiles[k]).0 <= 31,
            given == placed_views(tiles@),
            ids@ == tile_ids(given).take(i as int),
        decreases tiles.len() - i,
    {
        let t = &tiles[i];
        assert(tiles@[i as int].0 <= 31);
        ids.push(tile_to_id(t.0, t.1, t.2));
        i = i + 1;
        assert(ids@ =~= tile_ids(given).take(i as int));
    }
    assert(ids@ =~= tile_ids(given));
    let order = stable_order(&ids);
    let ghost pos = positions(order@);
    let ghost sorted = Seq::new(given.len(), |k: int| given[pos[k]]);
    proof {
        assert(is_stable_sort(given, sorted));
        assert forall|a: int, b: int| 0 <= a <= b < sorted.len() implies sorted[a].0
            <= sorted[b].0 by {
            if a < b {
                assert(before(ids@, pos[a], pos[b]));
            }
        }
    }
    let mut data: Vec<u8> = Vec::new();
    let mut dir: Vec<DirEntry> = Vec::new();
    let mut k: usize = 0;
    assert(sorted.take(0) =~= Seq::<(u64, Seq<u8>)>::empty());
    while k < order.len()
        invariant
            k <= order.len(),
            order.len() == tiles.len(),
            ids.len() == tiles.len(),
            ids@ == tile_ids(given),
            given == placed_views(tiles@),
            pos == positions(order@),
            sorted == Seq::new(given.len(), |m: int| given[pos[m]]),
            forall|m: int| 0 <= m < order.len() ==> #[trigger] order[m] < ids.len(),
            lay_out(sorted.take(k as int)) == (dir@, data@),
        decreases order.len() - k,
    {
        let p: usize = order[k];
        let t = &tiles[p];
        proof {
            assert(sorted.take(k + 1).drop_last() =~= sorted.take(k as int));
            assert(sorted.take(k + 1).last() == given[p as int]);
        }
        dir.push(
            DirEntry {
                tile_id: ids[p],
                offset: data.len() as u64,
                len: (t.3.len() as u64 % 0x1_0000_0000) as u32,
            },
        );
        data.extend_from_slice(t.3.as_slice());
        k = k + 1;
    }
    assert(sorted.take(k as int) =~= sorted);
    let data_len: u64 = data.len() as u64;
    proof {
        lemma_lay_out(sorted);
    }
    let info = ArchiveInfo {
        tile_compression: Compression::Uncompressed,
        min_zoom: 0,
        max_zoom: 2,
        min_lon_e7: 0,
        min_lat_e7: 0,
        max_lon_e7: 0,
        max_lat_e7: 0,
        center_zoom: 0,
        center_lon_e7: 0,
        center_lat_e7: 0,
    };
    let mut out = build_head(&info, dir.as_slice(), "{}".as_bytes(), data_len, dir.len() as u64);
    out.extend_from_slice(data.as_slice());
    assert(out.len() <= u64::MAX && dir.len() <= u64::MAX);
    proof {
        reveal_strlit("{}");
        assert("{}"@ =~= fixture_text());
        let meta = encode_utf8(fixture_text());
        vstd::utf8::encode_utf8_valid_utf8(fixture_text());
        vstd::utf8::encode_utf8_decode_utf8(fixture_text());
        assert(out@ =~= fixture_archive(sorted));
        if lengths_fit(given) {
            assert(lengths_fit(sorted)) by {
                assert forall|m: int| 0 <= m < sorted.len() implies (#[trigger] sorted[m]).1.len()
                    <= u32::MAX by {
                    assert(given[pos[m]].1.len() <= u32::MAX);
                }
            }
            laid_out_archive_reads_back(
                info,
                dir@,
                meta,
                data@,
                sorted.len() as int,
                out@,
            );
            let listed = |id: u64| listed_tile(dir@, data@, id);
            let wanted = |id: u64| given_tile(given, id, true);
            assert forall|id: u64| #[trigger] listed(id) == wanted(id) by {
                lemma_lay_out_keeps_tiles(sorted, id, Seq::empty());
                assert(data@ + Seq::<u8>::empty() =~= data@);
                sorting_keeps_last_given(given, sorted, id, true);
            }
            assert(listed =~= wanted);
        }
    }
    out
}

} // verus!
