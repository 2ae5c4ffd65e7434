//! From baked tiles to a finished archive.

use vstd::prelude::*;

use crate::archive::{archive_holds, archive_holds_where, ArchiveInfo};
use crate::codec::{
    brotli_compress, brotli_decompress, brotli_of, decoded, gunzip, gunzip_of, gzip, gzip_of,
    unbrotli_of,
};
use crate::error::{bake_error_text, BakeError, BakeErrorView};
use crate::header::Compression;
use crate::order::{is_stable_order, stable_order_lists_all};
use crate::packing::{
    given_tile, is_stable_sort, lengths_fit, no_clash, pack, sorted_tiles, tile_ids, unmistakable,
};
use crate::tile_encode::{encode_tile, geometry_fits, tile_bytes, EncodableFeature};
use crate::tile_id::{tile_id, tile_to_id};
use crate::writer::{
    sort_tiles, tile_views, write_pmtiles, written_archive, written_header, TileEntry,
};

verus! {

/// How tiles are compressed.
#[derive(Debug, Clone, Copy, PartialEq, Eq, Structural)]
pub enum TileCompression {
    Gzip,
    Brotli,
}

/// What a bake is asked to do.
pub struct BakeConfig {
    /// Layer name used in the tiles and in the metadata.
    pub layer_name: String,
    pub min_zoom: u8,
    pub max_zoom: u8,
    pub attribution: Option<String>,
    /// How tiles are stored.
    pub compression: TileCompression,
    /// The property fields to keep; `None` keeps every field.
    pub keep_fields: Option<Vec<String>>,
}

impl Default for BakeConfig {
    fn default() -> (c: BakeConfig)
        ensures
            c.layer_name@ == "default"@,
            c.min_zoom == 0,
            c.max_zoom == 14,
            c.attribution is None,
            c.compression == TileCompression::Gzip,
            c.keep_fields is None,
    {
        BakeConfig {
            layer_name: "default".to_owned(),
            min_zoom: 0,
            max_zoom: 14,
            attribution: None,
            compression: TileCompression::Gzip,
            keep_fields: None,
        }
    }
}

/// A finished archive.
pub struct BakeOutput {
    pub pmtiles_bytes: Vec<u8>,
    pub tile_count: usize,
    pub archive_bytes: u64,
}

/// The name of a compression in the metadata.
pub open spec fn compression_label(c: TileCompression) -> Seq<char> {
    match c {
        TileCompression::Gzip => "gzip"@,
        TileCompression::Brotli => "brotli"@,
    }
}

/// The header's word for a compression.
pub open spec fn stored_compression(c: TileCompression) -> Compression {
    match c {
        TileCompression::Gzip => Compression::Gzip,
        TileCompression::Brotli => Compression::Brotli,
    }
}

pub fn compression_name(c: TileCompression) -> (r: String)
    ensures
        r@ == compression_label(c),
{
    match c {
        TileCompression::Gzip => "gzip".to_owned(),
        TileCompression::Brotli => "brotli".to_owned(),
    }
}

pub fn to_lm_compression(c: TileCompression) -> (r: Compression)
    ensures
        r == stored_compression(c),
{
    match c {
        TileCompression::Gzip => Compression::Gzip,
        TileCompression::Brotli => Compression::Brotli,
    }
}

/// What compressing a tile gives.
pub open spec fn compressed(data: Seq<u8>, c: TileCompression) -> Result<
    Seq<u8>,
    BakeErrorView,
> {
    match c {
        TileCompression::Gzip => Ok(gzip_of(data)),
        TileCompression::Brotli => match brotli_of(data) {
            Ok(d) => Ok(d),
            Err(t) => Err(BakeErrorView::Write(t)),
        },
    }
}

/// What decompressing a tile gives.
pub open spec fn decompressed(data: Seq<u8>, c: TileCompression) -> Result<
    Seq<u8>,
    BakeErrorView,
> {
    let r = match c {
        TileCompression::Gzip => gunzip_of(data),
        TileCompression::Brotli => unbrotli_of(data),
    };
    match r {
        Ok(d) => Ok(d),
        Err(t) => Err(BakeErrorView::Write(t)),
    }
}

/// Compress one tile. What was compressed can be decompressed.
pub fn compress_tile(data: &[u8], comp: TileCompression) -> (r: Result<Vec<u8>, BakeError>)
    ensures
        match compressed(data@, comp) {
            Ok(d) => r matches Ok(v) && v@ == d,
            Err(e) => r matches Err(x) && x@ == e,
        },
        r matches Ok(v) ==> decompressed(v@, comp) == Ok::<Seq<u8>, BakeErrorView>(data@),
{
    match comp {
        TileCompression::Gzip => Ok(gzip(data)),
        TileCompression::Brotli => match brotli_compress(data) {
            Ok(v) => Ok(v),
            Err(t) => Err(BakeError::Write(t)),
        },
    }
}

/// Decompress one tile.
pub fn decompress_tile(data: &[u8], comp: TileCompression) -> (r: Result<Vec<u8>, BakeError>)
    ensures
        match decompressed(data@, comp) {
            Ok(d) => r matches Ok(v) && v@ == d,
            Err(e) => r matches Err(x) && x@ == e,
        },
{
    let out = match comp {
        TileCompression::Gzip => gunzip(data),
        TileCompression::Brotli => brotli_decompress(data),
    };
    match out {
        Ok(v) => Ok(v),
        Err(t) => Err(BakeError::Write(t)),
    }
}

/// The tile that holds the given features: none without features, or where the
/// tile cannot be compressed.
pub open spec fn baked_tile(
    z: u8,
    x: u32,
    y: u32,
    layer: Seq<char>,
    features: Seq<EncodableFeature>,
    c: TileCompression,
) -> Option<(u64, Seq<u8>)> {
    if features.len() == 0 {
        None
    } else {
        match compressed(tile_bytes(layer, features), c) {
            Ok(data) => Some((tile_id(z as nat, x as int, y as int) as u64, data)),
            Err(_) => None,
        }
    }
}

/// Encode and compress the features of one tile.
pub fn bake_tile(
    z: u8,
    x: u32,
    y: u32,
    layer_name: &str,
    features: &Vec<EncodableFeature>,
    comp: TileCompression,
) -> (r: Option<TileEntry>)
    requires
        z <= 31,
        forall|i: int| 0 <= i < features.len() ==> geometry_fits((#[trigger] features@[i]).geom),
    ensures
        match baked_tile(z, x, y, layer_name@, features@, comp) {
            Some(t) => r matches Some(e) && e@ == t && decompressed(t.1, comp) == Ok::<
                Seq<u8>,
                BakeErrorView,
            >(tile_bytes(layer_name@, features@)),
            None => r is None,
        },
{
    if features.len() == 0 {
        return None;
    }
    let raw = encode_tile(layer_name, features);
    match compress_tile(raw.as_slice(), comp) {
        Ok(data) => Some(TileEntry { tile_id: tile_to_id(z, x, y), data }),
        Err(_) => None,
    }
}

/// The number of tiles at the start that have the identifier `id`.
pub open spec fn leading(tiles: Seq<(u64, Seq<u8>)>, id: u64) -> int
    decreases tiles.len(),
{
    if tiles.len() > 0 && tiles[0].0 == id {
        1 + leading(tiles.skip(1), id)
    } else {
        0
    }
}

/// The number of tiles at the start that have the identifier of the first.
pub open spec fn group_len(tiles: Seq<(u64, Seq<u8>)>) -> int {
    leading(tiles, tiles[0].0)
}

pub proof fn lemma_leading(tiles: Seq<(u64, Seq<u8>)>, id: u64)
    ensures
        0 <= leading(tiles, id) <= tiles.len(),
        tiles.len() > 0 && tiles[0].0 == id ==> leading(tiles, id) >= 1,
    decreases tiles.len(),
{
    if tiles.len() > 0 {
        lemma_leading(tiles.skip(1), id);
    }
}

/// The decompressed tiles one behind the other. Concatenated vector tiles are
/// a vector tile with the layers of all of them.
pub open spec fn joined(tiles: Seq<(u64, Seq<u8>)>, c: TileCompression) -> Result<
    Seq<u8>,
    BakeErrorView,
>
    decreases tiles.len(),
{
    if tiles.len() == 0 {
        Ok(Seq::empty())
    } else {
        match joined(tiles.drop_last(), c) {
            Err(e) => Err(e),
            Ok(head) => match decompressed(tiles.last().1, c) {
                Err(e) => Err(e),
                Ok(d) => Ok(head + d),
            },
        }
    }
}

/// One tile for a group of tiles with one identifier: a single tile is passed
/// through, several become one tile with all their layers.
pub open spec fn merged_group(group: Seq<(u64, Seq<u8>)>, c: TileCompression) -> Result<
    (u64, Seq<u8>),
    BakeErrorView,
> {
    if group.len() == 1 {
        Ok(group[0])
    } else {
        match joined(group, c) {
            Err(e) => Err(e),
            Ok(raw) => match compressed(raw, c) {
                Err(e) => Err(BakeErrorView::Encode(bake_error_text(e))),
                Ok(d) => Ok((group[0].0, d)),
            },
        }
    }
}

/// One tile per identifier.
pub open spec fn merged(tiles: Seq<(u64, Seq<u8>)>, c: TileCompression) -> Result<
    Seq<(u64, Seq<u8>)>,
    BakeErrorView,
>
    decreases tiles.len(),
{
    if tiles.len() == 0 {
        Ok(Seq::empty())
    } else {
        proof {
            lemma_leading(tiles, tiles[0].0);
        }
        let n = group_len(tiles);
        match merged_group(tiles.take(n), c) {
            Err(e) => Err(e),
            Ok(t) => match merged(tiles.skip(n), c) {
                Err(e) => Err(e),
                Ok(rest) => Ok(seq![t] + rest),
            },
        }
    }
}

/// Every merged tile reads as the tiles that it stands for: a single one is
/// unchanged, and several are found in it one behind the other.
pub open spec fn merge_reads_back(
    tiles: Seq<(u64, Seq<u8>)>,
    out: Seq<(u64, Seq<u8>)>,
    c: TileCompression,
) -> bool
    decreases tiles.len(),
{
    if tiles.len() == 0 {
        out.len() == 0
    } else {
        proof {
            lemma_leading(tiles, tiles[0].0);
        }
        let n = group_len(tiles);
        &&& out.len() > 0
        &&& out[0].0 == tiles[0].0
        &&& n == 1 ==> out[0].1 == tiles[0].1
        &&& n > 1 ==> joined(tiles.take(n), c) is Ok && decompressed(out[0].1, c) == joined(
            tiles.take(n),
            c,
        )
        &&& merge_reads_back(tiles.skip(n), out.skip(1), c)
    }
}

proof fn lemma_leading_is(tiles: Seq<(u64, Seq<u8>)>, id: u64, n: int)
    requires
        0 <= n <= tiles.len(),
        forall|k: int| 0 <= k < n ==> (#[trigger] tiles[k]).0 == id,
        n < tiles.len() ==> tiles[n].0 != id,
    ensures
        leading(tiles, id) == n,
    decreases tiles.len(),
{
    if n > 0 {
        let rest = tiles.skip(1);
        assert forall|k: int| 0 <= k < n - 1 implies (#[trigger] rest[k]).0 == id by {
            assert(tiles[k + 1].0 == id);
        }
        assert(tiles[0].0 == id);
        lemma_leading_is(rest, id, n - 1);
    }
}

proof fn lemma_distinct_merge(tiles: Seq<(u64, Seq<u8>)>, c: TileCompression)
    requires
        forall|i: int, j: int| 0 <= i < j < tiles.len() ==> tiles[i].0 != tiles[j].0,
    ensures
        merged(tiles, c) == Ok::<Seq<(u64, Seq<u8>)>, BakeErrorView>(tiles),
    decreases tiles.len(),
{
    if tiles.len() > 0 {
        if tiles.len() > 1 {
            assert(tiles[0].0 != tiles[1].0);
        }
        lemma_leading_is(tiles, tiles[0].0, 1);
        let rest = tiles.skip(1);
        assert forall|i: int, j: int| 0 <= i < j < rest.len() implies rest[i].0 != rest[j].0 by {
            assert(tiles[i + 1].0 != tiles[j + 1].0);
        }
        lemma_distinct_merge(rest, c);
        assert(tiles.take(1)[0] == tiles[0]);
        assert(seq![tiles[0]] + rest =~= tiles);
    } else {
        assert(tiles =~= Seq::<(u64, Seq<u8>)>::empty());
    }
}

/// Where no identifier occurs twice, merging changes nothing.
pub proof fn merging_distinct_tiles_is_a_no_op(
    tiles: Seq<(u64, Seq<u8>)>,
    c: TileCompression,
)
    requires
        forall|i: int, j: int| 0 <= i < j < tiles.len() ==> tiles[i].0 != tiles[j].0,
    ensures
        merged(tiles, c) == Ok::<Seq<(u64, Seq<u8>)>, BakeErrorView>(tiles),
{
    lemma_distinct_merge(tiles, c);
}

/// Tiles that are put one behind the other hold what the first of them hold and then
/// what the others hold, wherever they are cut in two, and a tile alone is what it
/// decompresses to.
pub proof fn joined_tiles_follow_one_another(
    front: Seq<(u64, Seq<u8>)>,
    back: Seq<(u64, Seq<u8>)>,
    c: TileCompression,
)
    ensures
        joined(front + back, c) == (match (joined(front, c), joined(back, c)) {
            (Ok(a), Ok(b)) => Ok::<Seq<u8>, BakeErrorView>(a + b),
            (Err(e), _) => Err(e),
            (Ok(_), Err(e)) => Err(e),
        }),
        back.len() == 1 ==> joined(back, c) == decompressed(back[0].1, c),
    decreases back.len(),
{
    if back.len() == 0 {
        assert(front + back =~= front);
        if let Ok(a) = joined(front, c) {
            assert(a + Seq::<u8>::empty() =~= a);
        }
    } else {
        joined_tiles_follow_one_another(front, back.drop_last(), c);
        assert((front + back).drop_last() =~= front + back.drop_last());
        assert((front + back).last() == back.last());
        if let Ok(d) = decompressed(back.last().1, c) {
            if let Ok(b) = joined(back.drop_last(), c) {
                if let Ok(a) = joined(front, c) {
                    assert((a + b) + d =~= a + (b + d));
                }
            }
            if back.len() == 1 {
                assert(Seq::<u8>::empty() + d =~= d);
            }
        }
    }
}

proof fn lemma_joined_holds(tiles: Seq<(u64, Seq<u8>)>, c: TileCompression, i: int)
    requires
        0 <= i < tiles.len(),
        joined(tiles, c) is Ok,
    ensures
        decompressed(tiles[i].1, c) is Ok,
        exists|before: Seq<u8>, after: Seq<u8>|
            joined(tiles, c)->Ok_0 == #[trigger] (before + decompressed(tiles[i].1, c)->Ok_0
                + after),
{
    let front = tiles.take(i);
    let one = tiles.subrange(i, i + 1);
    let back = tiles.skip(i + 1);
    assert(front + one + back =~= tiles);
    joined_tiles_follow_one_another(front + one, back, c);
    joined_tiles_follow_one_another(front, one, c);
    assert(one[0] == tiles[i]);
    let before = joined(front, c)->Ok_0;
    let after = joined(back, c)->Ok_0;
    assert(joined(tiles, c)->Ok_0 == before + decompressed(tiles[i].1, c)->Ok_0 + after);
}

/// The tile `out` shows everything that `tile` shows: it has its identifier, and
/// it is the same tile or decompresses to bytes that hold those of `tile`.
pub open spec fn shows(
    out: (u64, Seq<u8>),
    tile: (u64, Seq<u8>),
    c: TileCompression,
) -> bool {
    out.0 == tile.0 && (out.1 == tile.1 || (decompressed(tile.1, c) is Ok && decompressed(
        out.1,
        c,
    ) is Ok && exists|before: Seq<u8>, after: Seq<u8>|
        decompressed(out.1, c)->Ok_0 == #[trigger] (before + decompressed(tile.1, c)->Ok_0
            + after)))
}

proof fn lemma_leading_same(tiles: Seq<(u64, Seq<u8>)>, id: u64, k: int)
    requires
        0 <= k < leading(tiles, id),
    ensures
        k < tiles.len(),
        tiles[k].0 == id,
    decreases tiles.len(),
{
    lemma_leading(tiles, id);
    if k > 0 {
        lemma_leading_same(tiles.skip(1), id, k - 1);
    }
}

proof fn lemma_leading_ends(tiles: Seq<(u64, Seq<u8>)>, id: u64)
    requires
        leading(tiles, id) < tiles.len(),
    ensures
        tiles[leading(tiles, id)].0 != id,
    decreases tiles.len(),
{
    if tiles.len() > 0 && tiles[0].0 == id {
        lemma_leading_ends(tiles.skip(1), id);
        lemma_leading(tiles.skip(1), id);
    }
}

proof fn lemma_shown(
    tiles: Seq<(u64, Seq<u8>)>,
    out: Seq<(u64, Seq<u8>)>,
    c: TileCompression,
    i: int,
) -> (k: int)
    requires
        merge_reads_back(tiles, out, c),
        0 <= i < tiles.len(),
    ensures
        0 <= k < out.len(),
        shows(out[k], tiles[i], c),
    decreases tiles.len(),
{
    lemma_leading(tiles, tiles[0].0);
    let n = group_len(tiles);
    if i < n {
        lemma_leading_same(tiles, tiles[0].0, i);
        if n > 1 {
            lemma_joined_holds(tiles.take(n), c, i);
            assert(tiles.take(n)[i] == tiles[i]);
        }
        0
    } else {
        let k = lemma_shown(tiles.skip(n), out.skip(1), c, i - n);
        assert(tiles.skip(n)[i - n] == tiles[i]);
        assert(out.skip(1)[k] == out[k + 1]);
        k + 1
    }
}

proof fn lemma_known(
    tiles: Seq<(u64, Seq<u8>)>,
    out: Seq<(u64, Seq<u8>)>,
    c: TileCompression,
    k: int,
) -> (i: int)
    requires
        merge_reads_back(tiles, out, c),
        0 <= k < out.len(),
    ensures
        0 <= i < tiles.len(),
        tiles[i].0 == out[k].0,
    decreases tiles.len(),
{
    lemma_leading(tiles, tiles[0].0);
    let n = group_len(tiles);
    if k == 0 {
        0
    } else {
        let i = lemma_known(tiles.skip(n), out.skip(1), c, k - 1);
        assert(tiles.skip(n)[i] == tiles[n + i]);
        assert(out.skip(1)[k - 1] == out[k]);
        n + i
    }
}

proof fn lemma_ascending(
    tiles: Seq<(u64, Seq<u8>)>,
    out: Seq<(u64, Seq<u8>)>,
    c: TileCompression,
    j: int,
    k: int,
)
    requires
        sorted_tiles(tiles),
        merge_reads_back(tiles, out, c),
        0 <= j < k < out.len(),
    ensures
        out[j].0 < out[k].0,
    decreases tiles.len(),
{
    lemma_leading(tiles, tiles[0].0);
    let n = group_len(tiles);
    let rest = tiles.skip(n);
    let tail = out.skip(1);
    assert(tail[k - 1] == out[k]);
    if j > 0 {
        assert(tail[j - 1] == out[j]);
        lemma_ascending(rest, tail, c, j - 1, k - 1);
    } else {
        let i = lemma_known(rest, tail, c, k - 1);
        lemma_leading_ends(tiles, tiles[0].0);
        assert(rest[i] == tiles[n + i]);
        assert(tiles[0].0 <= tiles[n].0);
        assert(tiles[n].0 <= tiles[n + i].0);
    }
}

/// Merging loses nothing and makes nothing up: every tile that was given is shown by
/// one of the merged tiles, every merged tile has the identifier of a given one, and
/// the merged tiles come in the order of their identifiers, none of which occurs
/// twice.
pub proof fn merged_tiles_show_all_tiles(
    tiles: Seq<(u64, Seq<u8>)>,
    out: Seq<(u64, Seq<u8>)>,
    c: TileCompression,
)
    requires
        sorted_tiles(tiles),
        merge_reads_back(tiles, out, c),
    ensures
        forall|i: int|
            0 <= i < tiles.len() ==> exists|k: int|
                0 <= k < out.len() && shows(#[trigger] out[k], #[trigger] tiles[i], c),
        forall|k: int|
            0 <= k < out.len() ==> exists|i: int|
                0 <= i < tiles.len() && (#[trigger] tiles[i]).0 == (#[trigger] out[k]).0,
        forall|j: int, k: int| 0 <= j < k < out.len() ==> out[j].0 < out[k].0,
{
    assert forall|i: int| 0 <= i < tiles.len() implies exists|k: int|
        0 <= k < out.len() && shows(#[trigger] out[k], #[trigger] tiles[i], c) by {
        let k = lemma_shown(tiles, out, c, i);
        assert(shows(out[k], tiles[i], c));
    }
    assert forall|k: int| 0 <= k < out.len() implies exists|i: int|
        0 <= i < tiles.len() && (#[trigger] tiles[i]).0 == (#[trigger] out[k]).0 by {
        let i = lemma_known(tiles, out, c, k);
        assert(tiles[i].0 == out[k].0);
    }
    assert forall|j: int, k: int| 0 <= j < k < out.len() implies out[j].0 < out[k].0 by {
        lemma_ascending(tiles, out, c, j, k);
    }
}

proof fn lemma_joined_ok(tiles: Seq<(u64, Seq<u8>)>, c: TileCompression)
    requires
        forall|i: int| 0 <= i < tiles.len() ==> decompressed((#[trigger] tiles[i]).1, c) is Ok,
    ensures
        joined(tiles, c) is Ok,
    decreases tiles.len(),
{
    if tiles.len() > 0 {
        let rest = tiles.drop_last();
        assert forall|i: int| 0 <= i < rest.len() implies decompressed(
            (#[trigger] rest[i]).1,
            c,
        ) is Ok by {
            assert(rest[i] == tiles[i]);
        }
        lemma_joined_ok(rest, c);
        assert(tiles.last() == tiles[tiles.len() - 1]);
    }
}

/// Tiles that can be decompressed can be merged, as many as there are, where
/// compressing does not fail.
pub proof fn readable_tiles_can_be_merged(tiles: Seq<(u64, Seq<u8>)>, c: TileCompression)
    requires
        forall|i: int| 0 <= i < tiles.len() ==> decompressed((#[trigger] tiles[i]).1, c) is Ok,
        forall|d: Seq<u8>| (#[trigger] compressed(d, c)) is Ok,
    ensures
        merged(tiles, c) is Ok,
    decreases tiles.len(),
{
    if tiles.len() > 0 {
        lemma_leading(tiles, tiles[0].0);
        let n = group_len(tiles);
        let group = tiles.take(n);
        let rest = tiles.skip(n);
        assert forall|i: int| 0 <= i < group.len() implies decompressed(
            (#[trigger] group[i]).1,
            c,
        ) is Ok by {
            assert(group[i] == tiles[i]);
        }
        assert forall|i: int| 0 <= i < rest.len() implies decompressed(
            (#[trigger] rest[i]).1,
            c,
        ) is Ok by {
            assert(rest[i] == tiles[n + i]);
        }
        lemma_joined_ok(group, c);
        assert(compressed(joined(group, c)->Ok_0, c) is Ok);
        readable_tiles_can_be_merged(rest, c);
    }
}

/// A tile that was baked is found/// A tile that was baked is found under its zoom, column and row, in this order, and
/// decompresses to the encoded features. Only without features is there none, unless
/// the tile cannot be compressed.
pub proof fn baked_tiles_are_found_by_place(
    z: u8,
    x: u32,
    y: u32,
    layer: Seq<char>,
    features: Seq<EncodableFeature>,
    c: TileCompression,
)
    ensures
        features.len() == 0 ==> baked_tile(z, x, y, layer, features, c) is None,
        match baked_tile(z, x, y, layer, features, c) {
            Some(t) => t.0 == tile_id(z as nat, x as int, y as int) as u64 && compressed(
                tile_bytes(layer, features),
                c,
            ) == Ok::<Seq<u8>, BakeErrorView>(t.1),
            None => features.len() == 0 || c == TileCompression::Brotli,
        },
{
}

fn combine_mvt_layers(
    entries: &Vec<TileEntry>,
    from: usize,
    to: usize,
    comp: TileCompression,
) -> (r: Result<Vec<u8>, BakeError>)
    requires
        from <= to <= entries.len(),
    ensures
        match joined(tile_views(entries@).subrange(from as int, to as int), comp) {
            Ok(d) => r matches Ok(v) && v@ == d,
            Err(e) => r matches Err(x) && x@ == e,
        },
{
    let ghost all = tile_views(entries@);
    let ghost group = all.subrange(from as int, to as int);
    let mut out: Vec<u8> = Vec::new();
    let mut k: usize = from;
    assert(group.take(0) =~= Seq::<(u64, Seq<u8>)>::empty());
    while k < to
        invariant
            from <= k <= to <= entries.len(),
            all == tile_views(entries@),
            group == all.subrange(from as int, to as int),
            joined(group.take(k - from), comp) == Ok::<Seq<u8>, BakeErrorView>(out@),
        decreases to - k,
    {
        let ghost m = k - from;
        proof {
            assert(group.take(m + 1).drop_last() =~= group.take(m));
            assert(group.take(m + 1).last() == all[k as int]);
        }
        match decompress_tile(entries[k].data.as_slice(), comp) {
            Ok(raw) => {
                let ghost head = out@;
                out.extend_from_slice(raw.as_slice());
                assert(out@ =~= head + raw@);
            },
            Err(e) => {
                proof {
                    lemma_joined_stuck(group, comp, m + 1);
                }
                return Err(e);
            },
        }
        k = k + 1;
    }
    assert(group.take(k - from) =~= group);
    Ok(out)
}

proof fn lemma_joined_stuck(tiles: Seq<(u64, Seq<u8>)>, c: TileCompression, n: int)
    requires
        0 <= n <= tiles.len(),
        joined(tiles.take(n), c) is Err,
    ensures
        joined(tiles, c) == joined(tiles.take(n), c),
    decreases tiles.len(),
{
    if n < tiles.len() {
        assert(tiles.drop_last().take(n) =~= tiles.take(n));
        lemma_joined_stuck(tiles.drop_last(), c, n);
    } else {
        assert(tiles.take(n) =~= tiles);
    }
}

/// The end of the group of tiles that starts at `i`.
fn group_end(entries: &Vec<TileEntry>, i: usize) -> (j: usize)
    requires
        i < entries.len(),
    ensures
        i < j <= entries.len(),
        j - i == group_len(tile_views(entries@).skip(i as int)),
{
    let ghost rest = tile_views(entries@).skip(i as int);
    let id: u64 = entries[i].tile_id;
    let mut j: usize = i + 1;
    while j < entries.len() && entries[j].tile_id == id
        invariant
            i < j <= entries.len(),
            rest == tile_views(entries@).skip(i as int),
            id == rest[0].0,
            forall|k: int| 0 <= k < j - i ==> (#[trigger] rest[k]).0 == id,
        decreases entries.len() - j,
    {
        assert(rest[j - i].0 == id);
        j = j + 1;
    }
    proof {
        if j < entries.len() {
            assert(rest[j - i].0 == entries@[j as int].tile_id);
        }
        lemma_leading_is(rest, id, j - i);
    }
    j
}

/// What a group of tiles becomes.
fn merge_group(entries: &mut Vec<TileEntry>, i: usize, j: usize, comp: TileCompression) -> (r:
    Result<TileEntry, BakeError>)
    requires
        i < j <= old(entries).len(),
    ensures
        final(entries).len() == old(entries).len(),
        tile_views(final(entries)@).skip(j as int) == tile_views(old(entries)@).skip(j as int),
        ({
            let group = tile_views(old(entries)@).subrange(i as int, j as int);
            &&& match merged_group(group, comp) {
                Ok(t) => r matches Ok(v) && v@ == t,
                Err(e) => r matches Err(x) && x@ == e,
            }
            &&& j - i > 1 ==> (r matches Ok(v) ==> joined(group, comp) is Ok && decompressed(
                v.data@,
                comp,
            ) == joined(group, comp))
        }),
{
    let id: u64 = entries[i].tile_id;
    let ghost all = tile_views(entries@);
    let ghost group = all.subrange(i as int, j as int);
    if j - i == 1 {
        let mut data: Vec<u8> = Vec::new();
        std::mem::swap(&mut entries[i].data, &mut data);
        assert(tile_views(entries@).skip(j as int) =~= all.skip(j as int));
        assert(group[0] == all[i as int]);
        return Ok(TileEntry { tile_id: id, data });
    }
    let raw = match combine_mvt_layers(entries, i, j, comp) {
        Ok(raw) => raw,
        Err(e) => return Err(e),
    };
    match compress_tile(raw.as_slice(), comp) {
        Ok(data) => Ok(TileEntry { tile_id: id, data }),
        Err(e) => Err(BakeError::Encode(e.message())),
    }
}

/// Merge the tiles that share an identifier across layers into one tile with
/// all their layers.
pub fn merge_tile_entries(given: Vec<TileEntry>, comp: TileCompression) -> (r: Result<
    Vec<TileEntry>,
    BakeError,
>)
    ensures
        exists|sorted: Seq<(u64, Seq<u8>)>| #[trigger]
            is_stable_sort(tile_views(given@), sorted) && sorted_tiles(sorted) && match merged(
                sorted,
                comp,
            ) {
                Ok(m) => r matches Ok(v) && tile_views(v@) == m && merge_reads_back(
                    sorted,
                    m,
                    comp,
                ),
                Err(e) => r matches Err(x) && x@ == e,
            },
{
    let ghost first = tile_views(given@);
    let mut entries = given;
    sort_tiles(&mut entries);
    let ghost sorted = tile_views(entries@);
    let mut out: Vec<TileEntry> = Vec::new();
    let mut i: usize = 0;
    proof {
        assert(sorted.skip(0) =~= sorted);
        if let Ok(rest) = merged(sorted, comp) {
            assert(tile_views(out@) + rest =~= rest);
        }
    }
    while i < entries.len()
        invariant
            i <= entries.len(),
            entries.len() == sorted.len(),
            first == tile_views(given@),
            is_stable_sort(first, sorted),
            sorted_tiles(sorted),
            tile_views(entries@).skip(i as int) == sorted.skip(i as int),
            merge_progress(sorted, i as int, tile_views(out@), comp),
        decreases entries.len() - i,
    {
        let j: usize = group_end(&entries, i);
        let ghost rest = sorted.skip(i as int);
        let ghost n = j - i;
        let ghost before = tile_views(entries@);
        proof {
            assert(rest.take(n) =~= sorted.subrange(i as int, j as int));
            assert(before.subrange(i as int, j as int) =~= before.skip(i as int).take(n));
            assert(rest.skip(n) =~= sorted.skip(j as int));
        }
        match merge_group(&mut entries, i, j, comp) {
            Ok(t) => {
                let ghost done = tile_views(out@);
                out.push(t);
                proof {
                    assert(tile_views(out@) =~= done.push(t@));
                    assert(before.skip(j as int) =~= before.skip(i as int).skip(n));
                    lemma_merge_step(sorted, i as int, j as int, done, t@, comp);
                }
            },
            Err(e) => {
                assert(merged(rest, comp) == Err::<Seq<(u64, Seq<u8>)>, BakeErrorView>(e@));
                return Err(e);
            },
        }
        i = j;
    }
    proof {
        assert(sorted.skip(i as int) =~= Seq::<(u64, Seq<u8>)>::empty());
        assert(tile_views(out@) + Seq::<(u64, Seq<u8>)>::empty() =~= tile_views(out@));
    }
    Ok(out)
}

/// Merging `sorted` is to put `done` in front of what its tail from `i` on
/// becomes.
spec fn merge_progress(
    sorted: Seq<(u64, Seq<u8>)>,
    i: int,
    done: Seq<(u64, Seq<u8>)>,
    c: TileCompression,
) -> bool {
    match merged(sorted.skip(i), c) {
        Ok(rest) => {
            &&& merged(sorted, c) == Ok::<Seq<(u64, Seq<u8>)>, BakeErrorView>(done + rest)
            &&& merge_reads_back(sorted.skip(i), rest, c) ==> merge_reads_back(
                sorted,
                done + rest,
                c,
            )
        },
        Err(e) => merged(sorted, c) == Err::<Seq<(u64, Seq<u8>)>, BakeErrorView>(e),
    }
}

proof fn lemma_merge_step(
    sorted: Seq<(u64, Seq<u8>)>,
    i: int,
    j: int,
    done: Seq<(u64, Seq<u8>)>,
    t: (u64, Seq<u8>),
    c: TileCompression,
)
    requires
        0 <= i < j <= sorted.len(),
        j - i == group_len(sorted.skip(i)),
        merge_progress(sorted, i, done, c),
        merged_group(sorted.skip(i).take(j - i), c) == Ok::<(u64, Seq<u8>), BakeErrorView>(t),
        j - i > 1 ==> joined(sorted.skip(i).take(j - i), c) is Ok && decompressed(t.1, c) == joined(
            sorted.skip(i).take(j - i),
            c,
        ),
    ensures
        merge_progress(sorted, j, done.push(t), c),
{
    let rest = sorted.skip(i);
    let n = j - i;
    assert(rest.skip(n) =~= sorted.skip(j));
    assert(rest.take(n)[0] == rest[0]);
    match merged(sorted.skip(j), c) {
        Ok(tail) => {
            let whole = seq![t] + tail;
            assert(merged(rest, c) == Ok::<Seq<(u64, Seq<u8>)>, BakeErrorView>(whole));
            assert(done + whole =~= done.push(t) + tail);
            assert(whole.skip(1) =~= tail);
            if merge_reads_back(sorted.skip(j), tail, c) {
                assert(merge_reads_back(rest, whole, c));
            }
        },
        Err(e) => {
            assert(merged(rest, c) == Err::<Seq<(u64, Seq<u8>)>, BakeErrorView>(e));
        },
    }
}

/// What the header of a baked archive says.
pub open spec fn baked_info(
    min_zoom: u8,
    max_zoom: u8,
    compression: TileCompression,
    bounds_e7: Seq<i32>,
    center_e7: Seq<i32>,
) -> ArchiveInfo {
    ArchiveInfo {
        tile_compression: stored_compression(compression),
        min_zoom,
        max_zoom,
        min_lon_e7: bounds_e7[0],
        min_lat_e7: bounds_e7[1],
        max_lon_e7: bounds_e7[2],
        max_lat_e7: bounds_e7[3],
        center_zoom: ((min_zoom + max_zoom) / 2) as u8,
        center_lon_e7: center_e7[0],
        center_lat_e7: center_e7[1],
    }
}

/// What the header of a baked archive says: west, south, east and north, and
/// the longitude and latitude of the centre, in units of 1e-7 degrees.
pub fn archive_info(config: &BakeConfig, bounds_e7: &[i32; 4], center_e7: &[i32; 2]) -> (info:
    ArchiveInfo)
    requires
        config.min_zoom + config.max_zoom <= u8::MAX,
    ensures
        info == baked_info(
            config.min_zoom,
            config.max_zoom,
            config.compression,
            bounds_e7@,
            center_e7@,
        ),
{
    ArchiveInfo {
        tile_compression: to_lm_compression(config.compression),
        min_zoom: config.min_zoom,
        max_zoom: config.max_zoom,
        min_lon_e7: bounds_e7[0],
        min_lat_e7: bounds_e7[1],
        max_lon_e7: bounds_e7[2],
        max_lat_e7: bounds_e7[3],
        center_zoom: (config.min_zoom + config.max_zoom) / 2,
        center_lon_e7: center_e7[0],
        center_lat_e7: center_e7[1],
    }
}

/// `archive` is the archive of `tiles`. It gives each of them back that is not taken
/// for another one, and all of them where no two share their hash and their length
/// only.
pub open spec fn is_archive_of(
    archive: Seq<u8>,
    tiles: Seq<(u64, Seq<u8>)>,
    text: Seq<char>,
    info: ArchiveInfo,
) -> bool {
    exists|sorted: Seq<(u64, Seq<u8>)>| #[trigger]
        is_stable_sort(tiles, sorted) && sorted_tiles(sorted) && archive == written_archive(
            sorted,
            text,
            info,
        ) && (lengths_fit(sorted) && no_clash(sorted) ==> archive_holds(
            archive,
            written_header(sorted, text, info),
            text,
            |id: u64| given_tile(tiles, id, false),
        )) && (lengths_fit(sorted) ==> archive_holds_where(
            archive,
            written_header(sorted, text, info),
            text,
            |id: u64| given_tile(tiles, id, false),
            |id: u64| unmistakable(sorted, id),
        ))
}

/// Assemble baked tiles into a finished archive.
pub fn write_archive(entries: Vec<TileEntry>, metadata_json: &str, info: &ArchiveInfo) -> (out:
    BakeOutput)
    ensures
        out.tile_count == entries.len(),
        is_archive_of(out.pmtiles_bytes@, tile_views(entries@), metadata_json@, *info),
        out.archive_bytes == out.pmtiles_bytes.len(),
{
    let tile_count: usize = entries.len();
    let mut tiles = entries;
    let pmtiles_bytes = write_pmtiles(&mut tiles, metadata_json, info);
    let archive_bytes: u64 = pmtiles_bytes.len() as u64;
    assert(is_archive_of(pmtiles_bytes@, tile_views(entries@), metadata_json@, *info)) by {
        assert(is_stable_sort(tile_views(entries@), tile_views(tiles@)));
    }
    BakeOutput { pmtiles_bytes, tile_count, archive_bytes }
}

/// The tiles of every layer.
pub open spec fn layer_views(layers: Seq<Vec<TileEntry>>) -> Seq<Seq<(u64, Seq<u8>)>> {
    Seq::new(layers.len(), |i: int| tile_views(layers[i]@))
}

/// The tiles of all layers, layer after layer.
pub open spec fn all_tiles(layers: Seq<Seq<(u64, Seq<u8>)>>) -> Seq<(u64, Seq<u8>)>
    decreases layers.len(),
{
    if layers.len() == 0 {
        Seq::empty()
    } else {
        all_tiles(layers.drop_last()) + layers.last()
    }
}

/// The tiles of several layers are those of the first layers followed by those of
/// the other ones, wherever the list of layers is cut in two, and a layer alone gives
/// its own tiles.
pub proof fn layers_follow_one_another(
    front: Seq<Seq<(u64, Seq<u8>)>>,
    back: Seq<Seq<(u64, Seq<u8>)>>,
    layer: Seq<(u64, Seq<u8>)>,
)
    ensures
        all_tiles(front + back) == all_tiles(front) + all_tiles(back),
        all_tiles(seq![layer]) == layer,
    decreases back.len(),
{
    let one = seq![layer];
    assert(one.drop_last() =~= Seq::<Seq<(u64, Seq<u8>)>>::empty());
    assert(all_tiles(one.drop_last()) + layer =~= layer);
    if back.len() == 0 {
        assert(front + back =~= front);
        assert(all_tiles(front) + all_tiles(back) =~= all_tiles(front));
    } else {
        layers_follow_one_another(front, back.drop_last(), layer);
        assert((front + back).drop_last() =~= front + back.drop_last());
        assert((all_tiles(front) + all_tiles(back.drop_last())) + back.last() =~= all_tiles(front)
            + (all_tiles(back.drop_last()) + back.last()));
    }
}

/// No tile of any layer is lost: each of them is among the tiles of all layers, and
/// there are as many of these as the layers have together.
pub proof fn every_layer_is_gathered(layers: Seq<Seq<(u64, Seq<u8>)>>)
    ensures
        forall|l: int, k: int|
            0 <= l < layers.len() && 0 <= k < layers[l].len() ==> all_tiles(layers).contains(
                #[trigger] layers[l][k],
            ),
        forall|t: (u64, Seq<u8>)| #[trigger]
            all_tiles(layers).contains(t) ==> exists|l: int|
                0 <= l < layers.len() && (#[trigger] layers[l]).contains(t),
        all_tiles(layers).len() == layers.fold_left(
            0int,
            |n: int, l: Seq<(u64, Seq<u8>)>| n + l.len(),
        ),
    decreases layers.len(),
{
    if layers.len() > 0 {
        let rest = layers.drop_last();
        let head = all_tiles(rest);
        let last = layers.last();
        every_layer_is_gathered(rest);
        assert forall|l: int, k: int|
            0 <= l < layers.len() && 0 <= k < layers[l].len() implies all_tiles(layers).contains(
            #[trigger] layers[l][k],
        ) by {
            if l < rest.len() {
                assert(rest[l][k] == layers[l][k]);
                let i = choose|i: int| 0 <= i < head.len() && head[i] == rest[l][k];
                assert(all_tiles(layers)[i] == layers[l][k]);
            } else {
                assert(all_tiles(layers)[head.len() + k] == layers[l][k]);
            }
        }
        assert forall|t: (u64, Seq<u8>)| #[trigger] all_tiles(layers).contains(t) implies exists|
            l: int,
        |
            0 <= l < layers.len() && (#[trigger] layers[l]).contains(t) by {
            let i = choose|i: int| 0 <= i < all_tiles(layers).len() && all_tiles(layers)[i] == t;
            if i < head.len() {
                assert(head[i] == t);
                assert(head.contains(t));
                let l = choose|l: int| 0 <= l < rest.len() && (#[trigger] rest[l]).contains(t);
                assert(layers[l].contains(t));
            } else {
                assert(last[i - head.len()] == t);
                assert(layers[layers.len() - 1].contains(t));
            }
        }
    }
}

/// Every tile of every layer is shown by one of `out`.
pub open spec fn all_layers_are_shown(
    layers: Seq<Seq<(u64, Seq<u8>)>>,
    out: Seq<(u64, Seq<u8>)>,
    c: TileCompression,
) -> bool {
    forall|l: int, k: int|
        0 <= l < layers.len() && 0 <= k < layers[l].len() ==> exists|j: int|
            0 <= j < out.len() && shows(#[trigger] out[j], #[trigger] layers[l][k], c)
}

/// However many layers are baked, each tile of each of them is shown by one of the tiles
/// that are written, and no tile is written for a place at which no layer has one.
pub proof fn no_layer_is_left_out(
    layers: Seq<Seq<(u64, Seq<u8>)>>,
    sorted: Seq<(u64, Seq<u8>)>,
    out: Seq<(u64, Seq<u8>)>,
    c: TileCompression,
)
    requires
        is_stable_sort(all_tiles(layers), sorted),
        sorted_tiles(sorted),
        merge_reads_back(sorted, out, c),
    ensures
        all_layers_are_shown(layers, out, c),
        forall|j: int|
            0 <= j < out.len() ==> exists|l: int, k: int|
                0 <= l < layers.len() && 0 <= k < layers[l].len() && (#[trigger] layers[l][k]).0
                    == (#[trigger] out[j]).0,
{
    assert forall|l: int, k: int| 0 <= l < layers.len() && 0 <= k < layers[l].len() implies exists|
        j: int,
    | 0 <= j < out.len() && shows(#[trigger] out[j], #[trigger] layers[l][k], c) by {
        let j = lemma_layer_shown(layers, sorted, out, c, l, k);
        assert(shows(out[j], layers[l][k], c));
    }
    assert forall|j: int| 0 <= j < out.len() implies exists|l: int, k: int|
        0 <= l < layers.len() && 0 <= k < layers[l].len() && (#[trigger] layers[l][k]).0 == (
        #[trigger] out[j]).0 by {
        let (l, k) = lemma_layer_known(layers, sorted, out, c, j);
        assert(layers[l][k].0 == out[j].0);
    }
}

proof fn lemma_sorted_holds_the_same(all: Seq<(u64, Seq<u8>)>, sorted: Seq<(u64, Seq<u8>)>)
    requires
        is_stable_sort(all, sorted),
    ensures
        forall|t: (u64, Seq<u8>)| all.contains(t) <==> sorted.contains(t),
{
    let order = choose|order: Seq<int>| #[trigger]
        is_stable_order(tile_ids(all), order) && sorted == Seq::new(
            all.len(),
            |i: int| all[order[i]],
        );
    stable_order_lists_all(tile_ids(all), order);
    assert forall|t: (u64, Seq<u8>)| all.contains(t) <==> sorted.contains(t) by {
        if all.contains(t) {
            let p = choose|p: int| 0 <= p < all.len() && all[p] == t;
            assert(order.contains(p));
            let i = choose|i: int| 0 <= i < order.len() && order[i] == p;
            assert(sorted[i] == t);
        }
        if sorted.contains(t) {
            let i = choose|i: int| 0 <= i < sorted.len() && sorted[i] == t;
            assert(order.contains(order[i]));
            assert(all[order[i]] == t);
        }
    }
}

proof fn lemma_layer_shown(
    layers: Seq<Seq<(u64, Seq<u8>)>>,
    sorted: Seq<(u64, Seq<u8>)>,
    out: Seq<(u64, Seq<u8>)>,
    c: TileCompression,
    l: int,
    k: int,
) -> (j: int)
    requires
        is_stable_sort(all_tiles(layers), sorted),
        sorted_tiles(sorted),
        merge_reads_back(sorted, out, c),
        0 <= l < layers.len(),
        0 <= k < layers[l].len(),
    ensures
        0 <= j < out.len(),
        shows(out[j], layers[l][k], c),
{
    let t = layers[l][k];
    assert(sorted.contains(t)) by {
        every_layer_is_gathered(layers);
        lemma_sorted_holds_the_same(all_tiles(layers), sorted);
    }
    let i = choose|i: int| 0 <= i < sorted.len() && sorted[i] == t;
    lemma_shown(sorted, out, c, i)
}

proof fn lemma_layer_known(
    layers: Seq<Seq<(u64, Seq<u8>)>>,
    sorted: Seq<(u64, Seq<u8>)>,
    out: Seq<(u64, Seq<u8>)>,
    c: TileCompression,
    j: int,
) -> (r: (int, int))
    requires
        is_stable_sort(all_tiles(layers), sorted),
        sorted_tiles(sorted),
        merge_reads_back(sorted, out, c),
        0 <= j < out.len(),
    ensures
        0 <= r.0 < layers.len(),
        0 <= r.1 < layers[r.0].len(),
        layers[r.0][r.1].0 == out[j].0,
{
    let i = lemma_known(sorted, out, c, j);
    let t = sorted[i];
    assert(all_tiles(layers).contains(t)) by {
        assert(sorted.contains(t));
        lemma_sorted_holds_the_same(all_tiles(layers), sorted);
    }
    assert(exists|l: int| 0 <= l < layers.len() && (#[trigger] layers[l]).contains(t)) by {
        every_layer_is_gathered(layers);
    }
    let l = choose|l: int| 0 <= l < layers.len() && (#[trigger] layers[l]).contains(t);
    let k = choose|k: int| 0 <= k < layers[l].len() && layers[l][k] == t;
    (l, k)
}

proof fn lemma_baked_shows(
    layers: Seq<Seq<(u64, Seq<u8>)>>,
    bytes: Seq<u8>,
    metadata: Seq<char>,
    info: ArchiveInfo,
    c: TileCompression,
)
    requires
        exists|sorted: Seq<(u64, Seq<u8>)>| #[trigger]
            is_stable_sort(all_tiles(layers), sorted) && sorted_tiles(sorted) && (merged(
                sorted,
                c,
            ) matches Ok(m) && is_archive_of(bytes, m, metadata, info) && merge_reads_back(
                sorted,
                m,
                c,
            )),
    ensures
        exists|m: Seq<(u64, Seq<u8>)>| #[trigger]
            is_archive_of(bytes, m, metadata, info) && all_layers_are_shown(layers, m, c),
{
    let sorted = choose|sorted: Seq<(u64, Seq<u8>)>| #[trigger]
        is_stable_sort(all_tiles(layers), sorted) && sorted_tiles(sorted) && (merged(
            sorted,
            c,
        ) matches Ok(m) && is_archive_of(bytes, m, metadata, info) && merge_reads_back(
            sorted,
            m,
            c,
        ));
    no_layer_is_left_out(layers, sorted, merged(sorted, c)->Ok_0, c);
}

fn collect_layers(layers: Vec<Vec<TileEntry>>) -> (all: Vec<TileEntry>)
    ensures
        tile_views(all@) == all_tiles(layer_views(layers@)),
{
    let ghost given = layer_views(layers@);
    let mut layers = layers;
    let mut all: Vec<TileEntry> = Vec::new();
    let mut i: usize = 0;
    proof {
        assert(given.take(0) =~= Seq::<Seq<(u64, Seq<u8>)>>::empty());
        assert(tile_views(all@) =~= Seq::<(u64, Seq<u8>)>::empty());
    }
    while i < layers.len()
        invariant
            i <= layers.len(),
            given.len() == layers.len(),
            forall|k: int| i <= k < layers.len() ==> tile_views((#[trigger] layers@[k])@)
                == given[k],
            tile_views(all@) == all_tiles(given.take(i as int)),
        decreases layers.len() - i,
    {
        let mut layer: Vec<TileEntry> = Vec::new();
        let ghost prev = layers@;
        std::mem::swap(&mut layers[i], &mut layer);
        let ghost done = all@;
        let ghost added = layer@;
        proof {
            assert(added == prev[i as int]@);
            assert(tile_views(added) == given[i as int]);
            assert forall|k: int| i < k < layers.len() implies tile_views(
                (#[trigger] layers@[k])@,
            ) == given[k] by {
                assert(layers@[k] == prev[k]);
            }
        }
        all.append(&mut layer);
        proof {
            assert(tile_views(all@) =~= tile_views(done) + tile_views(added));
            assert(given.take(i + 1).drop_last() =~= given.take(i as int));
        }
        i = i + 1;
    }
    assert(given.take(i as int) =~= given);
    all
}

/// Bake several layers into one archive: the tiles of all layers, those with
/// the same identifier merged into one.
pub fn bake_multi(
    layers: Vec<Vec<TileEntry>>,
    comp: TileCompression,
    metadata_json: &str,
    info: &ArchiveInfo,
) -> (r: Result<BakeOutput, BakeError>)
    ensures
        layers.len() == 0 ==> (r matches Err(e) && e@ == BakeErrorView::Empty),
        layers.len() > 0 ==> exists|sorted: Seq<(u64, Seq<u8>)>| #[trigger]
            is_stable_sort(all_tiles(layer_views(layers@)), sorted) && sorted_tiles(sorted)
                && match merged(sorted, comp) {
                Ok(m) => r matches Ok(out) && out.tile_count == m.len() && out.archive_bytes
                    == out.pmtiles_bytes.len() && is_archive_of(
                    out.pmtiles_bytes@,
                    m,
                    metadata_json@,
                    *info,
                ) && merge_reads_back(sorted, m, comp),
                Err(e) => r matches Err(x) && x@ == e,
            },
        r matches Ok(out) ==> exists|m: Seq<(u64, Seq<u8>)>| #[trigger]
            is_archive_of(out.pmtiles_bytes@, m, metadata_json@, *info) && all_layers_are_shown(
                layer_views(layers@),
                m,
                comp,
            ),
{
    if layers.len() == 0 {
        return Err(BakeError::Empty);
    }
    let ghost views = layer_views(layers@);
    let all = collect_layers(layers);
    match merge_tile_entries(all, comp) {
        Err(e) => Err(e),
        Ok(tiles) => {
            let out = write_archive(tiles, metadata_json, info);
            proof {
                lemma_baked_shows(views, out.pmtiles_bytes@, metadata_json@, *info, comp);
            }
            Ok(out)
        },
    }
}

/// The header of a baked archive says the zooms, the bounds and the centre that were given.
/// Its zoom of the centre lies half way between the zooms, and its compression undoes that
/// of the tiles.
pub proof fn archives_say_how_they_were_baked(
    min_zoom: u8,
    max_zoom: u8,
    compression: TileCompression,
    bounds_e7: Seq<i32>,
    center_e7: Seq<i32>,
)
    requires
        min_zoom <= max_zoom,
        bounds_e7.len() == 4,
        center_e7.len() == 2,
    ensures
        ({
            let info = baked_info(min_zoom, max_zoom, compression, bounds_e7, center_e7);
            &&& info.min_zoom == min_zoom && info.max_zoom == max_zoom
            &&& min_zoom <= info.center_zoom <= max_zoom
            &&& 2 * info.center_zoom <= min_zoom + max_zoom <= 2 * info.center_zoom + 1
            &&& bounds_e7 == seq![
                info.min_lon_e7,
                info.min_lat_e7,
                info.max_lon_e7,
                info.max_lat_e7,
            ]
            &&& center_e7 == seq![info.center_lon_e7, info.center_lat_e7]
            &&& info.tile_compression == Compression::Gzip <==> compression is Gzip
            &&& info.tile_compression == Compression::Brotli <==> compression is Brotli
        }),
        compression_label(compression) == (if compression is Gzip {
            "gzip"@
        } else {
            "brotli"@
        }),
{
    let info = baked_info(min_zoom, max_zoom, compression, bounds_e7, center_e7);
    assert(bounds_e7 =~= seq![
        info.min_lon_e7,
        info.min_lat_e7,
        info.max_lon_e7,
        info.max_lat_e7,
    ]);
    assert(center_e7 =~= seq![info.center_lon_e7, info.center_lat_e7]);
}

} // verus!
