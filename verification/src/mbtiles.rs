//! Import of MBTiles.
//!
//! Rows are numbered from the south there, and from the north here, so the row
//! is flipped. Tiles are passed through verbatim.

use vstd::prelude::*;

use crate::archive::ArchiveInfo;
use crate::bake_args::text_option;
use crate::error::{BakeError, BakeErrorView};
use crate::header::Compression;
use crate::json_text::{number_parsed, parse_number};
use crate::text::{
    decimal, decimal_reads_back, list_parts, parse_unsigned, same_text, split_list, text_views,
    unsigned_value,
};
use crate::tile_id::{side, tile_id, tile_ids_are_distinct, tile_to_id};
use crate::tiling::grid_side;
use crate::writer::{tile_views, TileEntry};

verus! {

/// A row of the `tiles` table.
pub struct MbtilesRow {
    pub zoom_level: i64,
    pub tile_column: i64,
    pub tile_row: i64,
    pub tile_data: Vec<u8>,
}

impl MbtilesRow {
    pub open spec fn zoom(&self) -> u8 {
        self.zoom_level as u8
    }

    /// The zoom level has identifiers, and the row is one of its rows.
    pub open spec fn fits(&self) -> bool {
        self.zoom() <= 31 && 0 <= self.tile_row < side(self.zoom() as nat)
    }

    /// The identifier of the tile, its row counted from the north.
    pub open spec fn id(&self) -> int {
        tile_id(
            self.zoom() as nat,
            (self.tile_column as u32) as int,
            side(self.zoom() as nat) - 1 - self.tile_row,
        )
    }

    /// Whether the row is one of its zoom level.
    pub fn is_valid(&self) -> (r: bool)
        ensures
            r == self.fits(),
    {
        #[verifier::truncate]
        let z: u8 = self.zoom_level as u8;
        z <= 31 && 0 <= self.tile_row && self.tile_row < grid_side(z) as i64
    }
}

/// Flipping the rows keeps tiles apart: two rows in the grid of their zoom level
/// have the same identifier only if they name the same tile.
pub proof fn flipped_tiles_are_distinct(a: MbtilesRow, b: MbtilesRow)
    requires
        a.fits(),
        b.fits(),
        (a.tile_column as u32) < side(a.zoom() as nat),
        (b.tile_column as u32) < side(b.zoom() as nat),
        a.id() == b.id(),
    ensures
        a.zoom() == b.zoom(),
        a.tile_column as u32 == b.tile_column as u32,
        a.tile_row == b.tile_row,
{
    tile_ids_are_distinct(
        a.zoom() as nat,
        (a.tile_column as u32) as int,
        side(a.zoom() as nat) - 1 - a.tile_row,
        b.zoom() as nat,
        (b.tile_column as u32) as int,
        side(b.zoom() as nat) - 1 - b.tile_row,
    );
}

/// The tiles of the rows.
pub open spec fn imported(rows: Seq<MbtilesRow>) -> Seq<(u64, Seq<u8>)> {
    Seq::new(rows.len(), |i: int| (rows[i].id() as u64, rows[i].tile_data@))
}

/// The tiles of the rows, in their order; none at all is an error.
pub fn import_tiles(given: Vec<MbtilesRow>) -> (r: Result<Vec<TileEntry>, BakeError>)
    requires
        forall|i: int| 0 <= i < given.len() ==> (#[trigger] given@[i]).fits(),
    ensures
        if given@.len() == 0 {
            r matches Err(e) && e@ == BakeErrorView::Empty
        } else {
            r matches Ok(v) && tile_views(v@) == imported(given@)
        },
{
    let ghost all = given@;
    let ghost wanted = imported(all);
    let mut rows = given;
    let mut entries: Vec<TileEntry> = Vec::new();
    let mut i: usize = 0;
    while i < rows.len()
        invariant
            i <= rows.len(),
            rows.len() == all.len(),
            wanted == imported(all),
            forall|k: int| i <= k < all.len() ==> #[trigger] rows@[k] == all[k],
            forall|k: int| 0 <= k < all.len() ==> (#[trigger] all[k]).fits(),
            tile_views(entries@) == wanted.take(i as int),
        decreases rows.len() - i,
    {
        let ghost prev = rows@;
        let ghost before = tile_views(entries@);
        assert(rows@[i as int] == all[i as int]);
        assert(all[i as int].fits());
        #[verifier::truncate]
        let z: u8 = rows[i].zoom_level as u8;
        #[verifier::truncate]
        let x: u32 = rows[i].tile_column as u32;
        let y: u32 = grid_side(z) - 1 - rows[i].tile_row as u32;
        let id: u64 = tile_to_id(z, x, y);
        let mut data: Vec<u8> = Vec::new();
        std::mem::swap(&mut rows[i].tile_data, &mut data);
        entries.push(TileEntry { tile_id: id, data });
        proof {
            assert forall|k: int| i < k < all.len() implies #[trigger] rows@[k] == all[k] by {
                assert(rows@[k] == prev[k]);
            }
            assert(tile_views(entries@) =~= before.push(wanted[i as int]));
            assert(tile_views(entries@) =~= wanted.take(i + 1));
        }
        i = i + 1;
    }
    assert(wanted.take(i as int) =~= wanted);
    if entries.len() == 0 {
        return Err(BakeError::Empty);
    }
    Ok(entries)
}

/// The value of `key`; a later value replaces an earlier one.
pub open spec fn last_value(meta: Seq<(String, String)>, key: Seq<char>) -> Option<Seq<char>>
    decreases meta.len(),
{
    if meta.len() == 0 {
        None
    } else if meta.last().0@ == key {
        Some(meta.last().1@)
    } else {
        last_value(meta.drop_last(), key)
    }
}

/// The value of `key` in the metadata table.
pub fn metadata_value(meta: &Vec<(String, String)>, key: &str) -> (r: Option<String>)
    ensures
        text_option(r) == last_value(meta@, key@),
{
    let mut n: usize = meta.len();
    assert(meta@.take(n as int) =~= meta@);
    while n > 0
        invariant
            n <= meta.len(),
            last_value(meta@.take(n as int), key@) == last_value(meta@, key@),
        decreases n,
    {
        assert(meta@.take(n as int).drop_last() =~= meta@.take(n - 1));
        if same_text(meta[n - 1].0.as_str(), key) {
            return Some(meta[n - 1].1.clone());
        }
        n = n - 1;
    }
    None
}

/// A zoom level of the metadata table, or the default.
pub open spec fn zoom_value(meta: Seq<(String, String)>, key: Seq<char>, default: u8) -> u8 {
    match last_value(meta, key) {
        None => default,
        Some(s) => match unsigned_value(s, 255) {
            None => default,
            Some(v) => v as u8,
        },
    }
}

fn metadata_zoom(meta: &Vec<(String, String)>, key: &str, default: u8) -> (r: u8)
    ensures
        r == zoom_value(meta@, key@, default),
{
    match metadata_value(meta, key) {
        None => default,
        Some(s) => match parse_unsigned(s.as_str(), 255) {
            None => default,
            Some(v) => v as u8,
        },
    }
}

/// The bytes start as gzip data does.
pub open spec fn looks_gzipped(data: Seq<u8>) -> bool {
    data.len() >= 2 && data[0] == 0x1f && data[1] == 0x8b
}

/// How the tiles are compressed, judged by the first one.
pub fn detect_compression(first: &Option<Vec<u8>>) -> (r: &'static str)
    ensures
        r@ == (if *first matches Some(d) && looks_gzipped(d@) {
            "gzip"@
        } else {
            "none"@
        }),
{
    match first {
        Some(d) => if d.len() >= 2 && d[0] == 0x1f && d[1] == 0x8b {
            "gzip"
        } else {
            "none"
        },
        None => "none",
    }
}

/// What an MBTiles database holds.
pub struct MbtilesInfo {
    pub entries: Vec<TileEntry>,
    pub min_zoom: u8,
    pub max_zoom: u8,
    /// West, south, east and north, as bit patterns.
    pub bounds: [u64; 4],
    pub name: String,
    pub description: Option<String>,
    pub tile_compression: String,
}

/// The numbers among the texts, as bit patterns.
pub open spec fn numbers_among(parts: Seq<Seq<char>>) -> Seq<u64>
    decreases parts.len(),
{
    if parts.len() == 0 {
        Seq::empty()
    } else {
        let head = numbers_among(parts.drop_last());
        match number_parsed(parts.last()) {
            Some(n) => head.push(n),
            None => head,
        }
    }
}

/// The bounds where none are given: 180 degrees west and east, 85 degrees south
/// and north.
pub open spec fn world_bounds() -> Seq<u64> {
    seq![
        0xc066_8000_0000_0000u64,
        0xc055_4000_0000_0000u64,
        0x4066_8000_0000_0000u64,
        0x4055_4000_0000_0000u64,
    ]
}

/// The bounds in a list of four numbers that are separated by commas.
pub open spec fn bounds_read(text: Option<Seq<char>>) -> Seq<u64> {
    match text {
        Some(t) => {
            let found = numbers_among(list_parts(t));
            if found.len() == 4 {
                found
            } else {
                world_bounds()
            }
        },
        None => world_bounds(),
    }
}

/// Read the bounds: west, south, east and north. Parts of the list that are no
/// numbers are passed over.
pub fn parse_bounds(text: &Option<String>) -> (r: [u64; 4])
    ensures
        r@ == bounds_read(text_option(*text)),
{
    let mut found: Vec<u64> = Vec::new();
    if let Some(t) = text {
        let parts = split_list(t.as_str());
        let ghost all = text_views(parts@);
        let mut i: usize = 0;
        assert(all.take(0) =~= Seq::<Seq<char>>::empty());
        while i < parts.len()
            invariant
                i <= parts.len(),
                all == text_views(parts@),
                found@ == numbers_among(all.take(i as int)),
            decreases parts.len() - i,
        {
            proof {
                assert(all.take(i + 1).drop_last() =~= all.take(i as int));
                assert(all.take(i + 1).last() == all[i as int]);
            }
            match parse_number(parts[i].as_str()) {
                Some(n) => found.push(n),
                None => {},
            }
            i = i + 1;
        }
        assert(all.take(i as int) =~= all);
    }
    let r: [u64; 4] = if found.len() == 4 {
        [found[0], found[1], found[2], found[3]]
    } else {
        [
            0xc066_8000_0000_0000,
            0xc055_4000_0000_0000,
            0x4066_8000_0000_0000,
            0x4055_4000_0000_0000,
        ]
    };
    assert(r@ =~= bounds_read(text_option(*text)));
    r
}

/// Put together what was read from a database: the rows of the metadata table,
/// the first tile, and all tiles.
pub fn import_mbtiles(
    meta: &Vec<(String, String)>,
    first: &Option<Vec<u8>>,
    rows: Vec<MbtilesRow>,
) -> (r: Result<MbtilesInfo, BakeError>)
    requires
        forall|i: int| 0 <= i < rows.len() ==> (#[trigger] rows@[i]).fits(),
    ensures
        match r {
            Err(e) => rows@.len() == 0 && e@ == BakeErrorView::Empty,
            Ok(m) => {
                &&& rows@.len() > 0
                &&& tile_views(m.entries@) == imported(rows@)
                &&& m.min_zoom == zoom_value(meta@, "minzoom"@, 0)
                &&& m.max_zoom == zoom_value(meta@, "maxzoom"@, 14)
                &&& m.bounds@ == bounds_read(last_value(meta@, "bounds"@))
                &&& m.name@ == (match last_value(meta@, "name"@) {
                    Some(s) => s,
                    None => "imported"@,
                })
                &&& text_option(m.description) == last_value(meta@, "description"@)
                &&& m.tile_compression@ == (if *first matches Some(d) && looks_gzipped(d@) {
                    "gzip"@
                } else {
                    "none"@
                })
            },
        },
{
    match import_tiles(rows) {
        Err(e) => Err(e),
        Ok(entries) => {
            let name = match metadata_value(meta, "name") {
                Some(s) => s,
                None => "imported".to_owned(),
            };
            Ok(
                MbtilesInfo {
                    entries,
                    min_zoom: metadata_zoom(meta, "minzoom", 0),
                    max_zoom: metadata_zoom(meta, "maxzoom", 14),
                    bounds: parse_bounds(&metadata_value(meta, "bounds")),
                    name,
                    description: metadata_value(meta, "description"),
                    tile_compression: detect_compression(first).to_owned(),
                },
            )
        },
    }
}

/// How the tiles of an imported archive are compressed.
pub open spec fn imported_compression(label: Seq<char>) -> Compression {
    if label == "gzip"@ {
        Compression::Gzip
    } else {
        Compression::Uncompressed
    }
}

/// What the header of an imported archive says: west, south, east and north, and the
/// longitude and latitude of the centre, in units of 1e-7 degrees.
pub fn imported_info(db: &MbtilesInfo, bounds_e7: &[i32; 4], center_e7: &[i32; 2]) -> (info:
    ArchiveInfo)
    ensures
        info == (ArchiveInfo {
            tile_compression: imported_compression(db.tile_compression@),
            min_zoom: db.min_zoom,
            max_zoom: db.max_zoom,
            min_lon_e7: bounds_e7@[0],
            min_lat_e7: bounds_e7@[1],
            max_lon_e7: bounds_e7@[2],
            max_lat_e7: bounds_e7@[3],
            center_zoom: ((db.min_zoom + db.max_zoom) / 2) as u8,
            center_lon_e7: center_e7@[0],
            center_lat_e7: center_e7@[1],
        }),
{
    let tile_compression = if same_text(db.tile_compression.as_str(), "gzip") {
        Compression::Gzip
    } else {
        Compression::Uncompressed
    };
    let middle: u16 = (db.min_zoom as u16 + db.max_zoom as u16) / 2;
    ArchiveInfo {
        tile_compression,
        min_zoom: db.min_zoom,
        max_zoom: db.max_zoom,
        min_lon_e7: bounds_e7[0],
        min_lat_e7: bounds_e7[1],
        max_lon_e7: bounds_e7[2],
        max_lat_e7: bounds_e7[3],
        center_zoom: middle as u8,
        center_lon_e7: center_e7[0],
        center_lat_e7: center_e7[1],
    }
}

/// Every row becomes a tile, in the order of the rows and with its bytes as they are. Its
/// column stays, and its row is counted from the other end: what is the first row there
/// is the last one here.
pub proof fn rows_are_counted_from_the_other_end(rows: Seq<MbtilesRow>, i: int, y: int)
    requires
        0 <= i < rows.len(),
        rows[i].fits(),
        0 <= rows[i].zoom_level <= 31,
        0 <= rows[i].tile_column <= u32::MAX,
        y + rows[i].tile_row == side(rows[i].zoom_level as nat) - 1,
    ensures
        imported(rows).len() == rows.len(),
        imported(rows)[i].0 == tile_id(
            rows[i].zoom_level as nat,
            rows[i].tile_column as int,
            y,
        ) as u64,
        imported(rows)[i].1 == rows[i].tile_data@,
{
}

/// The value of a key is the last one that the table gives for it; a key has no value
/// only if the table does not name it.
pub proof fn the_last_value_counts(meta: Seq<(String, String)>, key: Seq<char>)
    ensures
        match last_value(meta, key) {
            Some(v) => exists|k: int|
                0 <= k < meta.len() && (#[trigger] meta[k]).0@ == key && meta[k].1@ == v && forall|
                    j: int,
                |
                    k < j < meta.len() ==> (#[trigger] meta[j]).0@ != key,
            None => forall|j: int| 0 <= j < meta.len() ==> (#[trigger] meta[j]).0@ != key,
        },
    decreases meta.len(),
{
    if meta.len() > 0 {
        let rest = meta.drop_last();
        let n = meta.len() - 1;
        the_last_value_counts(rest, key);
        if meta.last().0@ == key {
            assert(meta[n].0@ == key);
        } else if let Some(v) = last_value(rest, key) {
            let k = choose|k: int|
                0 <= k < rest.len() && (#[trigger] rest[k]).0@ == key && rest[k].1@ == v && forall|
                    j: int,
                |
                    k < j < rest.len() ==> (#[trigger] rest[j]).0@ != key;
            assert(meta[k].0@ == key);
            assert forall|j: int| k < j < meta.len() implies (#[trigger] meta[j]).0@ != key by {
                if j < n {
                    assert(rest[j] == meta[j]);
                }
            }
        } else {
            assert forall|j: int| 0 <= j < meta.len() implies (#[trigger] meta[j]).0@ != key by {
                if j < n {
                    assert(rest[j] == meta[j]);
                }
            }
        }
    }
}

/// A zoom level that the table gives in decimal is taken; the default stands in only
/// where there is none that fits in a byte.
pub proof fn zooms_of_the_table_are_taken(
    meta: Seq<(String, String)>,
    key: Seq<char>,
    default: u8,
    zoom: u8,
)
    ensures
        last_value(meta, key) == Some(decimal(zoom as nat)) ==> zoom_value(meta, key, default)
            == zoom,
        last_value(meta, key) is None ==> zoom_value(meta, key, default) == default,
        last_value(meta, key) matches Some(s) && unsigned_value(s, 255) is None ==> zoom_value(
            meta,
            key,
            default,
        ) == default,
{
    decimal_reads_back(zoom as nat, 255);
}

/// The numbers among the parts of a list are taken in their order, and what is no
/// number is passed over.
pub proof fn all_numbers_are_taken(parts: Seq<Seq<char>>)
    ensures
        numbers_among(parts) == parts.filter(
            |p: Seq<char>| number_parsed(p) is Some,
        ).map_values(|p: Seq<char>| number_parsed(p)->0),
    decreases parts.len(),
{
    reveal(Seq::filter);
    let reads = |p: Seq<char>| number_parsed(p) is Some;
    let value = |p: Seq<char>| number_parsed(p)->0;
    if parts.len() > 0 {
        let rest = parts.drop_last();
        all_numbers_are_taken(rest);
        if reads(parts.last()) {
            assert(rest.filter(reads).push(parts.last()).map_values(value) =~= rest.filter(
                reads,
            ).map_values(value).push(value(parts.last())));
        }
    } else {
        assert(parts.filter(reads).map_values(value) =~= numbers_among(parts));
    }
}

/// Four numbers, separated by commas, are the bounds in their order; with any other
/// number of them, or without a list, the bounds are those of the world.
pub proof fn four_numbers_are_bounds(text: Seq<char>)
    ensures
        numbers_among(list_parts(text)).len() == 4 ==> bounds_read(Some(text)) == numbers_among(
            list_parts(text),
        ),
        numbers_among(list_parts(text)).len() != 4 ==> bounds_read(Some(text)) == bounds_read(None),
        bounds_read(None) == seq![
            0xc066_8000_0000_0000u64,
            0xc055_4000_0000_0000u64,
            0x4066_8000_0000_0000u64,
            0x4055_4000_0000_0000u64,
        ],
{
}

/// Gzip data is known by its first two bytes, and only tiles that are said to be gzipped
/// are taken to be compressed.
pub proof fn gzipped_tiles_are_known_by_their_start(data: Seq<u8>, label: Seq<char>)
    ensures
        looks_gzipped(seq![0x1fu8, 0x8bu8] + data),
        looks_gzipped(data) ==> data == seq![0x1fu8, 0x8bu8] + data.skip(2),
        imported_compression(label) == (if label == "gzip"@ {
            Compression::Gzip
        } else {
            Compression::Uncompressed
        }),
{
    if looks_gzipped(data) {
        assert(data =~= seq![0x1fu8, 0x8bu8] + data.skip(2));
    }
}

} // verus!
