//! What an archive says of the tiles that were put into it, and where it says so.

use vstd::prelude::*;

use crate::archive::{archive_header, ArchiveInfo};
use crate::directory::{sorted_entries, Entry};
use crate::header::{
    compression_of, header_bytes, header_reads_back, lemma_header_len, parsed_header, Compression,
    Header, HEADER_LEN,
};
use crate::le::{le_value, low32, signed32, u32_at, u64_at};
use crate::packing::{
    filled_tiles, fnv1a, given_tile, hashes_tell_apart, pack, takes_storage,
};
use crate::pmtiles::{looked_up, not_found, rank, stored_directory, PmtErrorView};

verus! {

/// A number of four bytes is spelled with its least significant byte first, and so is
/// one of eight; a signed number is the two's complement of four bytes.
pub proof fn numbers_start_with_their_low_byte(s: Seq<u8>, off: int)
    requires
        0 <= off,
        off + 8 <= s.len(),
    ensures
        u32_at(s, off) == s[off] + 0x100 * s[off + 1] + 0x1_0000 * s[off + 2] + 0x100_0000 * s[off
            + 3],
        u64_at(s, off) == u32_at(s, off) + 0x1_0000_0000 * u32_at(s, off + 4),
        u32_at(s, off) - signed32(u32_at(s, off)) == 0 || u32_at(s, off) - signed32(u32_at(s, off))
            == 0x1_0000_0000,
{
    lemma_four_bytes(s, off);
    lemma_four_bytes(s, off + 4);
    let w = s.subrange(off, off + 8);
    let rest = w.drop_first().drop_first().drop_first().drop_first();
    assert(rest =~= s.subrange(off + 4, off + 8));
    reveal_with_fuel(le_value, 5);
    assert(w[0] == s[off]);
    assert(w.drop_first()[0] == s[off + 1]);
    assert(w.drop_first().drop_first()[0] == s[off + 2]);
    assert(w.drop_first().drop_first().drop_first()[0] == s[off + 3]);
    assert(le_value(w) == s[off] + 0x100 * s[off + 1] + 0x1_0000 * s[off + 2] + 0x100_0000 * s[off
        + 3] + 0x1_0000_0000 * le_value(rest));
}

proof fn lemma_four_bytes(s: Seq<u8>, off: int)
    requires
        0 <= off,
        off + 4 <= s.len(),
    ensures
        u32_at(s, off) == s[off] + 0x100 * s[off + 1] + 0x1_0000 * s[off + 2] + 0x100_0000 * s[off
            + 3],
        le_value(s.subrange(off, off + 4)) == u32_at(s, off),
{
    let w = s.subrange(off, off + 4);
    reveal_with_fuel(le_value, 5);
    assert(w[0] == s[off]);
    assert(w.drop_first()[0] == s[off + 1]);
    assert(w.drop_first().drop_first()[0] == s[off + 2]);
    assert(w.drop_first().drop_first().drop_first()[0] == s[off + 3]);
    assert(w.drop_first().drop_first().drop_first().drop_first().len() == 0);
}

/// Every field of a header has its place: the magic bytes and the version come first,
/// then the numbers of eight bytes, the single bytes, and the bounds and the centre in
/// four bytes each.
pub proof fn every_field_has_its_place(h: Header)
    ensures
        ({
            let b = header_bytes(h);
            &&& b.len() == 127
            &&& b.subrange(0, 7) == seq![0x50u8, 0x4d, 0x54, 0x69, 0x6c, 0x65, 0x73]
            &&& b[7] == 3
            &&& u64_at(b, 8) == h.root_dir_offset
            &&& u64_at(b, 16) == h.root_dir_len
            &&& u64_at(b, 24) == h.metadata_offset
            &&& u64_at(b, 32) == h.metadata_len
            &&& u64_at(b, 40) == h.leaf_dirs_offset
            &&& u64_at(b, 48) == h.leaf_dirs_len
            &&& u64_at(b, 56) == h.tile_data_offset
            &&& u64_at(b, 64) == h.tile_data_len
            &&& u64_at(b, 72) == h.addressed_tiles
            &&& u64_at(b, 80) == h.tile_entries
            &&& u64_at(b, 88) == h.tile_contents
            &&& (b[96] == 1) == h.clustered
            &&& compression_of(b[97]) == h.internal_compression
            &&& compression_of(b[98]) == h.tile_compression
            &&& b[99] == h.tile_type
            &&& b[100] == h.min_zoom
            &&& b[101] == h.max_zoom
            &&& signed32(u32_at(b, 102)) == h.min_lon_e7
            &&& signed32(u32_at(b, 106)) == h.min_lat_e7
            &&& signed32(u32_at(b, 110)) == h.max_lon_e7
            &&& signed32(u32_at(b, 114)) == h.max_lat_e7
            &&& b[118] == h.center_zoom
            &&& signed32(u32_at(b, 119)) == h.center_lon_e7
            &&& signed32(u32_at(b, 123)) == h.center_lat_e7
        }),
{
    let b = header_bytes(h);
    lemma_header_len(h);
    assert(b.subrange(0, HEADER_LEN as int) =~= b);
    header_reads_back(b, h);
    assert(parsed_header(b) == Ok::<Header, PmtErrorView>(h));
}

/// The compressions are numbered from 0 on: unknown, none, gzip, brotli, zstd.
pub proof fn compressions_are_numbered(c: Compression)
    ensures
        compression_of(c.spec_code()) == c,
        c.spec_code() == 0 <==> c == Compression::Unknown,
        c.spec_code() == 1 <==> c == Compression::Uncompressed,
        c.spec_code() == 2 <==> c == Compression::Gzip,
        c.spec_code() == 3 <==> c == Compression::Brotli,
        c.spec_code() == 4 <==> c == Compression::Zstd,
{
}

/// A header is accepted exactly if it is long enough, starts with the magic bytes and is
/// of version 3; a wrong version is reported as what it is.
pub proof fn only_version_three_is_read(buf: Seq<u8>)
    ensures
        parsed_header(buf) is Ok <==> buf.len() >= 127 && buf.subrange(0, 7) == seq![
            0x50u8,
            0x4d,
            0x54,
            0x69,
            0x6c,
            0x65,
            0x73,
        ] && buf[7] == 3,
        parsed_header(buf) matches Err(e) ==> e == PmtErrorView::BadMagic || (e
            == PmtErrorView::UnsupportedVersion(buf[7]) && buf[7] != 3),
        parsed_header(buf) == Err::<Header, PmtErrorView>(PmtErrorView::BadMagic) <==> buf.len()
            < 127 || buf.subrange(0, 7) != seq![0x50u8, 0x4d, 0x54, 0x69, 0x6c, 0x65, 0x73],
{
}

/// The parts of an archive lie one right behind the other, and its header says of the
/// tiles what it was told: their compression, zooms, bounds and centre, and how many
/// there are.
pub proof fn the_header_says_what_it_was_told(
    info: ArchiveInfo,
    dir_len: int,
    meta_len: int,
    data_len: int,
    entries: int,
    contents: int,
)
    requires
        0 <= dir_len && 0 <= meta_len && 0 <= data_len && 0 <= entries && 0 <= contents,
        127 + dir_len + meta_len + data_len <= u64::MAX,
        entries <= u64::MAX && contents <= u64::MAX,
    ensures
        ({
            let h = archive_header(info, dir_len, meta_len, data_len, entries, contents);
            &&& h.root_dir_offset == 127
            &&& h.metadata_offset == h.root_dir_offset + h.root_dir_len
            &&& h.leaf_dirs_offset == h.metadata_offset + h.metadata_len
            &&& h.tile_data_offset == h.leaf_dirs_offset + h.leaf_dirs_len
            &&& h.tile_data_offset + h.tile_data_len == 127 + dir_len + meta_len + data_len
            &&& h.root_dir_len == dir_len && h.metadata_len == meta_len && h.tile_data_len
                == data_len
            &&& h.addressed_tiles == entries && h.tile_entries == entries && h.tile_contents
                == contents
            &&& h.clustered && h.internal_compression == Compression::Gzip && h.tile_type == 1
            &&& h.tile_compression == info.tile_compression
            &&& h.min_zoom == info.min_zoom && h.max_zoom == info.max_zoom
            &&& h.min_lon_e7 == info.min_lon_e7 && h.min_lat_e7 == info.min_lat_e7
            &&& h.max_lon_e7 == info.max_lon_e7 && h.max_lat_e7 == info.max_lat_e7
            &&& h.center_zoom == info.center_zoom
            &&& h.center_lon_e7 == info.center_lon_e7 && h.center_lat_e7 == info.center_lat_e7
        }),
{
}

/// What counts as given for an identifier is the last tile with it, of those that are
/// not empty unless empty ones count; nothing counts only if there is no such tile.
pub proof fn the_last_tile_given_counts(tiles: Seq<(u64, Seq<u8>)>, id: u64, empties: bool)
    ensures
        match given_tile(tiles, id, empties) {
            Some(data) => exists|k: int|
                0 <= k < tiles.len() && #[trigger] tiles[k] == (id, data) && (empties || data.len()
                    > 0) && forall|j: int|
                    k < j < tiles.len() ==> (#[trigger] tiles[j]).0 != id || (!empties
                        && tiles[j].1.len() == 0),
            None => forall|j: int|
                0 <= j < tiles.len() ==> (#[trigger] tiles[j]).0 != id || (!empties
                    && tiles[j].1.len() == 0),
        },
    decreases tiles.len(),
{
    if tiles.len() > 0 {
        let rest = tiles.drop_last();
        let n = tiles.len() - 1;
        the_last_tile_given_counts(rest, id, empties);
        if tiles.last().0 == id && (empties || tiles.last().1.len() > 0) {
            assert(tiles[n] == (id, tiles.last().1));
        } else {
            match given_tile(rest, id, empties) {
                Some(data) => {
                    let k = choose|k: int|
                        0 <= k < rest.len() && #[trigger] rest[k] == (id, data) && (empties
                            || data.len() > 0) && forall|j: int|
                            k < j < rest.len() ==> (#[trigger] rest[j]).0 != id || (!empties
                                && rest[j].1.len() == 0);
                    assert(tiles[k] == (id, data));
                    assert forall|j: int| k < j < tiles.len() implies (#[trigger] tiles[j]).0 != id
                        || (!empties && tiles[j].1.len() == 0) by {
                        if j < n {
                            assert(rest[j] == tiles[j]);
                        }
                    }
                },
                None => {
                    assert forall|j: int| 0 <= j < tiles.len() implies (#[trigger] tiles[j]).0
                        != id || (!empties && tiles[j].1.len() == 0) by {
                        if j < n {
                            assert(rest[j] == tiles[j]);
                        }
                    }
                },
            }
        }
    }
}

/// The tiles that are not empty, without repetition.
pub open spec fn blobs(tiles: Seq<(u64, Seq<u8>)>) -> Set<Seq<u8>> {
    tiles.filter(|t: (u64, Seq<u8>)| t.1.len() > 0).map_values(
        |t: (u64, Seq<u8>)| t.1,
    ).to_set()
}

proof fn lemma_blobs_push(tiles: Seq<(u64, Seq<u8>)>)
    requires
        tiles.len() > 0,
    ensures
        blobs(tiles) == (if tiles.last().1.len() > 0 {
            blobs(tiles.drop_last()).insert(tiles.last().1)
        } else {
            blobs(tiles.drop_last())
        }),
{
    reveal(Seq::filter);
    let filled = |t: (u64, Seq<u8>)| t.1.len() > 0;
    let bytes = |t: (u64, Seq<u8>)| t.1;
    let rest = tiles.drop_last().filter(filled);
    if tiles.last().1.len() > 0 {
        let a = rest.map_values(bytes);
        let b = tiles.filter(filled).map_values(bytes);
        assert(b =~= a.push(tiles.last().1));
        assert(b.to_set() =~= a.to_set().insert(tiles.last().1)) by {
            assert forall|d: Seq<u8>| b.contains(d) <==> a.contains(d) || d == tiles.last().1 by {
                if a.contains(d) {
                    let i = choose|i: int| 0 <= i < a.len() && a[i] == d;
                    assert(b[i] == d);
                }
                assert(b[a.len() as int] == tiles.last().1);
                if b.contains(d) && d != tiles.last().1 {
                    let i = choose|i: int| 0 <= i < b.len() && b[i] == d;
                    assert(a[i] == d);
                }
            }
        }
    }
}

proof fn lemma_blobs_hold(tiles: Seq<(u64, Seq<u8>)>, d: Seq<u8>)
    ensures
        blobs(tiles).contains(d) <==> d.len() > 0 && exists|k: int|
            0 <= k < tiles.len() && (#[trigger] tiles[k]).1 == d,
    decreases tiles.len(),
{
    if tiles.len() > 0 {
        let rest = tiles.drop_last();
        lemma_blobs_push(tiles);
        lemma_blobs_hold(rest, d);
        if exists|k: int| 0 <= k < rest.len() && (#[trigger] rest[k]).1 == d {
            let k = choose|k: int| 0 <= k < rest.len() && (#[trigger] rest[k]).1 == d;
            assert(tiles[k].1 == d);
        }
        if exists|k: int| 0 <= k < tiles.len() && (#[trigger] tiles[k]).1 == d {
            let k = choose|k: int| 0 <= k < tiles.len() && (#[trigger] tiles[k]).1 == d;
            if k < rest.len() {
                assert(rest[k].1 == d);
            }
        }
        if tiles.last().1 == d {
            assert(tiles[tiles.len() - 1].1 == d);
        }
    } else {
        reveal(Seq::filter);
        assert(tiles.filter(|t: (u64, Seq<u8>)| t.1.len() > 0) =~= Seq::<(u64, Seq<u8>)>::empty());
    }
}

/// An archive lists every tile that is not empty, and it counts as many contents as
/// there are different ones among them, where the hashes tell them apart.
pub proof fn tiles_and_contents_are_counted(tiles: Seq<(u64, Seq<u8>)>, spill: bool)
    requires
        hashes_tell_apart(tiles),
    ensures
        pack(tiles, spill).dir.len() == tiles.filter(|t: (u64, Seq<u8>)| t.1.len() > 0).len(),
        pack(tiles, spill).places.len() == blobs(tiles).len(),
        filled_tiles(tiles) == tiles.filter(|t: (u64, Seq<u8>)| t.1.len() > 0),
{
    lemma_counted(tiles, spill);
    lemma_filled_is_filter(tiles);
}

proof fn lemma_filled_is_filter(tiles: Seq<(u64, Seq<u8>)>)
    ensures
        filled_tiles(tiles) == tiles.filter(|t: (u64, Seq<u8>)| t.1.len() > 0),
    decreases tiles.len(),
{
    reveal(Seq::filter);
    if tiles.len() > 0 {
        lemma_filled_is_filter(tiles.drop_last());
    } else {
        assert(tiles =~= Seq::<(u64, Seq<u8>)>::empty());
    }
}

proof fn lemma_counted(tiles: Seq<(u64, Seq<u8>)>, spill: bool)
    requires
        hashes_tell_apart(tiles),
    ensures
        pack(tiles, spill).dir.len() == tiles.filter(|t: (u64, Seq<u8>)| t.1.len() > 0).len(),
        pack(tiles, spill).places.dom().finite(),
        pack(tiles, spill).places.len() == blobs(tiles).len(),
        blobs(tiles).finite(),
        forall|h: u64| #[trigger]
            pack(tiles, spill).places.contains_key(h) ==> exists|d: Seq<u8>|
                blobs(tiles).contains(d) && h == #[trigger] fnv1a(d)
                    && pack(tiles, spill).places[h].1 == low32(d.len() as int),
        forall|d: Seq<u8>| #[trigger]
            blobs(tiles).contains(d) ==> pack(tiles, spill).places.contains_key(fnv1a(d)),
    decreases tiles.len(),
{
    reveal(Seq::filter);
    if tiles.len() == 0 {
        assert forall|d: Seq<u8>| !#[trigger] blobs(tiles).contains(d) by {
            lemma_blobs_hold(tiles, d);
        }
        assert(blobs(tiles) =~= Set::<Seq<u8>>::empty());
        assert(pack(tiles, spill).places.dom() =~= Set::<u64>::empty());
    } else {
        let rest = tiles.drop_last();
        let last = tiles.last();
        let st = pack(rest, spill);
        let now = pack(tiles, spill);
        let h = fnv1a(last.1);
        assert(hashes_tell_apart(rest)) by {
            assert forall|i: int, j: int|
                0 <= i < rest.len() && 0 <= j < rest.len() && fnv1a(#[trigger] rest[i].1) == fnv1a(
                    #[trigger] rest[j].1,
                ) implies rest[i].1 == rest[j].1 by {
                assert(tiles[i].1 == rest[i].1 && tiles[j].1 == rest[j].1);
            }
        }
        lemma_counted(rest, spill);
        lemma_blobs_push(tiles);
        if last.1.len() > 0 {
            if st.places.contains_key(h) {
                let d = choose|d: Seq<u8>|
                    blobs(rest).contains(d) && h == #[trigger] fnv1a(d) && st.places[h].1
                        == low32(d.len() as int);
                lemma_blobs_hold(rest, d);
                let k = choose|k: int| 0 <= k < rest.len() && (#[trigger] rest[k]).1 == d;
                assert(tiles[k].1 == d);
                assert(tiles[tiles.len() - 1].1 == last.1);
                assert(d == last.1);
                assert(!takes_storage(st.places, last.1));
                assert(blobs(tiles) =~= blobs(rest));
            } else {
                assert(!blobs(rest).contains(last.1));
                assert(now.places == st.places.insert(h, (st.pos as u64, low32(last.1.len() as int))));
                assert(now.places.dom() =~= st.places.dom().insert(h));
                assert forall|g: u64| #[trigger] now.places.contains_key(g) implies exists|
                    d: Seq<u8>,
                |
                    blobs(tiles).contains(d) && g == #[trigger] fnv1a(d) && now.places[g].1
                        == low32(d.len() as int) by {
                    if g == h {
                        assert(blobs(tiles).contains(last.1));
                    } else {
                        assert(st.places.contains_key(g));
                        let d = choose|d: Seq<u8>|
                            blobs(rest).contains(d) && g == #[trigger] fnv1a(d) && st.places[g].1
                                == low32(d.len() as int);
                        assert(blobs(tiles).contains(d));
                    }
                }
            }
        }
    }
}

proof fn lemma_rank(dir: Seq<Entry>, id: u64)
    requires
        sorted_entries(dir),
    ensures
        0 <= rank(dir, id) <= dir.len(),
        forall|i: int| 0 <= i < rank(dir, id) ==> (#[trigger] dir[i]).tile_id <= id,
        forall|i: int| rank(dir, id) <= i < dir.len() ==> (#[trigger] dir[i]).tile_id > id,
    decreases dir.len(),
{
    if dir.len() > 0 {
        let rest = dir.drop_last();
        let last = dir.len() - 1;
        if dir.last().tile_id <= id {
            assert forall|i: int| 0 <= i < dir.len() implies (#[trigger] dir[i]).tile_id <= id by {
                assert(dir[i].tile_id <= dir[last].tile_id);
            }
        } else {
            assert(sorted_entries(rest));
            lemma_rank(rest, id);
            assert forall|i: int| 0 <= i < rank(dir, id) implies (#[trigger] dir[i]).tile_id
                <= id by {
                assert(rest[i] == dir[i]);
            }
            assert forall|i: int| rank(dir, id) <= i < dir.len() implies (
            #[trigger] dir[i]).tile_id > id by {
                if i < last {
                    assert(rest[i] == dir[i]);
                }
            }
        }
    }
}

/// A tile is found exactly if the last entry that does not lie behind it covers it: the
/// run of the entry starts at its own identifier and has as many tiles as it says. The
/// tiles of a run have the same length and lie one behind the other.
pub proof fn entries_cover_their_runs(
    archive: Seq<u8>,
    h: Header,
    dir: Seq<Entry>,
    id: u64,
    depth: nat,
    i: int,
)
    requires
        sorted_entries(dir),
        0 <= i < dir.len(),
        dir[i].tile_id <= id,
        i + 1 < dir.len() ==> id < dir[i + 1].tile_id,
        dir[i].run_length > 0,
        dir[i].tile_id + dir[i].run_length <= u64::MAX,
        dir[i].offset + dir[i].run_length * dir[i].length <= u64::MAX,
    ensures
        id < dir[i].tile_id + dir[i].run_length ==> (looked_up(archive, h, dir, id, depth) matches Some(
            Ok(e),
        ) && e.length == dir[i].length && e.offset == dir[i].offset + (id - dir[i].tile_id)
            * dir[i].length),
        id >= dir[i].tile_id + dir[i].run_length ==> looked_up(archive, h, dir, id, depth) == Some(
            Err::<Entry, PmtErrorView>(not_found()),
        ),
{
    lemma_rank(dir, id);
    let n = rank(dir, id);
    assert(n == i + 1) by {
        if n <= i {
            assert(dir[i].tile_id > id);
        }
        if n > i + 1 {
            assert(dir[i + 1].tile_id <= id);
        }
    }
    let e = dir[i];
    if id < e.tile_id + e.run_length {
        let k = id - e.tile_id;
        assert(0 <= k * e.length <= e.run_length * e.length) by (nonlinear_arith)
            requires
                0 <= k < e.run_length,
                0 <= e.length,
        ;
        if k == 0 {
            assert(k * e.length == 0) by (nonlinear_arith)
                requires
                    k == 0,
            ;
        }
    }
}

/// In a directory that lists nothing at or before a tile, the tile is not found.
pub proof fn tiles_before_the_first_entry_are_not_found(
    archive: Seq<u8>,
    h: Header,
    dir: Seq<Entry>,
    id: u64,
    depth: nat,
)
    requires
        sorted_entries(dir),
        dir.len() == 0 || id < dir[0].tile_id,
    ensures
        looked_up(archive, h, dir, id, depth) == Some(Err::<Entry, PmtErrorView>(not_found())),
{
    lemma_rank(dir, id);
    if rank(dir, id) > 0 {
        assert(dir[0].tile_id <= id);
    }
}

/// An entry without a run stands for a leaf directory: what it covers is looked up
/// there, down to the second level below the root.
pub proof fn leaves_are_searched(
    archive: Seq<u8>,
    h: Header,
    dir: Seq<Entry>,
    id: u64,
    depth: nat,
    i: int,
    leaf: Seq<Entry>,
)
    requires
        sorted_entries(dir),
        0 <= i < dir.len(),
        dir[i].tile_id <= id,
        i + 1 < dir.len() ==> id < dir[i + 1].tile_id,
        dir[i].run_length == 0,
        stored_directory(
            archive,
            h.internal_compression,
            h.leaf_dirs_offset + dir[i].offset,
            dir[i].length as int,
        ) == Some(Ok::<Seq<Entry>, PmtErrorView>(leaf)),
    ensures
        depth <= 1 ==> looked_up(archive, h, dir, id, depth) == looked_up(
            archive,
            h,
            leaf,
            id,
            depth + 1,
        ),
        depth > 1 ==> looked_up(archive, h, dir, id, depth) == Some(
            Err::<Entry, PmtErrorView>(PmtErrorView::CorruptDirectory),
        ),
{
    lemma_rank(dir, id);
    let n = rank(dir, id);
    assert(n == i + 1) by {
        if n <= i {
            assert(dir[i].tile_id > id);
        }
        if n > i + 1 {
            assert(dir[i + 1].tile_id <= id);
        }
    }
}

} // verus!
