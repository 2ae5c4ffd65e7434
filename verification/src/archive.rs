//! The layout of a written archive: header, root directory, metadata, tile
//! data, one right behind the other, and what can be read back from it.

use vstd::prelude::*;
use vstd::utf8::{decode_utf8, encode_utf8, valid_utf8};

use crate::codec::{decoded, gunzip_of, gzip, gzip_of};
use crate::directory::{
    build_directory, contiguous, decoded_directory, directory_bytes, directory_reads_back,
    listed_entries, offsets_fit, sorted_dir, sorted_entries, DirEntry, Entry,
};
use crate::header::{
    header_bytes, header_reads_back, lemma_header_len, parsed_header, Compression, Header,
    HEADER_LEN,
};
use crate::pmtiles::{
    looked_up, metadata_read, not_found, opened, placed, rank, section, stored_directory, tile_read,
    unpacked, PmtErrorView,
};
use crate::tile_id::{lemma_zoom_limits, tile_id};

verus! {

/// What the header of an archive says besides where its parts lie.
#[derive(Debug, Clone, Copy)]
pub struct ArchiveInfo {
    pub tile_compression: Compression,
    pub min_zoom: u8,
    pub max_zoom: u8,
    /// West, south, east and north, in units of 1e-7 degrees.
    pub min_lon_e7: i32,
    pub min_lat_e7: i32,
    pub max_lon_e7: i32,
    pub max_lat_e7: i32,
    pub center_zoom: u8,
    pub center_lon_e7: i32,
    pub center_lat_e7: i32,
}

/// The header of an archive whose parts have the given lengths.
pub open spec fn archive_header(
    info: ArchiveInfo,
    dir_len: int,
    meta_len: int,
    data_len: int,
    entries: int,
    contents: int,
) -> Header {
    Header {
        root_dir_offset: HEADER_LEN as u64,
        root_dir_len: dir_len as u64,
        metadata_offset: (HEADER_LEN + dir_len) as u64,
        metadata_len: meta_len as u64,
        leaf_dirs_offset: (HEADER_LEN + dir_len + meta_len) as u64,
        leaf_dirs_len: 0,
        tile_data_offset: (HEADER_LEN + dir_len + meta_len) as u64,
        tile_data_len: data_len as u64,
        addressed_tiles: entries as u64,
        tile_entries: entries as u64,
        tile_contents: contents as u64,
        clustered: true,
        internal_compression: Compression::Gzip,
        tile_compression: info.tile_compression,
        tile_type: 1,
        min_zoom: info.min_zoom,
        max_zoom: info.max_zoom,
        min_lon_e7: info.min_lon_e7,
        min_lat_e7: info.min_lat_e7,
        max_lon_e7: info.max_lon_e7,
        max_lat_e7: info.max_lat_e7,
        center_zoom: info.center_zoom,
        center_lon_e7: info.center_lon_e7,
        center_lat_e7: info.center_lat_e7,
    }
}

/// The header of the archive that lists `dir` over `data_len` bytes of tile
/// data and `contents` different blobs.
pub open spec fn listing_header(
    info: ArchiveInfo,
    dir: Seq<DirEntry>,
    meta: Seq<u8>,
    data_len: int,
    contents: int,
) -> Header {
    archive_header(
        info,
        gzip_of(directory_bytes(dir)).len() as int,
        gzip_of(meta).len() as int,
        data_len,
        dir.len() as int,
        contents,
    )
}

/// Everything in front of the tile data.
pub open spec fn archive_head(
    info: ArchiveInfo,
    dir: Seq<DirEntry>,
    meta: Seq<u8>,
    data_len: int,
    contents: int,
) -> Seq<u8> {
    header_bytes(listing_header(info, dir, meta, data_len, contents)) + gzip_of(
        directory_bytes(dir),
    ) + gzip_of(meta)
}

/// The bytes that `dir` gives for tile `id` over the tile data `data`: those
/// of the last entry with that identifier.
pub open spec fn listed_tile(dir: Seq<DirEntry>, data: Seq<u8>, id: u64) -> Option<Seq<u8>>
    decreases dir.len(),
{
    if dir.len() == 0 {
        None
    } else if dir.last().tile_id == id {
        Some(data.subrange(dir.last().offset as int, dir.last().offset + dir.last().len))
    } else {
        listed_tile(dir.drop_last(), data, id)
    }
}

/// Every entry points into the tile data.
pub open spec fn dir_within(dir: Seq<DirEntry>, data_len: int) -> bool {
    forall|i: int| 0 <= i < dir.len() ==> (#[trigger] dir[i]).offset + dir[i].len <= data_len
}

/// Reading `archive` gives exactly the tiles that `tile` says, and the text
/// `text` as metadata.
pub open spec fn archive_holds(
    archive: Seq<u8>,
    h: Header,
    text: Seq<char>,
    tile: spec_fn(u64) -> Option<Seq<u8>>,
) -> bool {
    &&& opened(archive) matches Some(Ok((got, root))) && got == h && forall|z: u8, x: u32, y: u32|
        z <= 31 ==> #[trigger] tile_read(archive, h, root, z, x, y) == Some(
            match tile(tile_id(z as nat, x as int, y as int) as u64) {
                Some(data) => Ok::<Seq<u8>, PmtErrorView>(data),
                None => Err(not_found()),
            },
        )
    &&& metadata_read(archive, h) == Some(Ok::<Seq<char>, PmtErrorView>(text))
}

/// Reading `archive` gives the text `text` as metadata, and exactly what `tile` says
/// for every tile that `sure` holds of.
pub open spec fn archive_holds_where(
    archive: Seq<u8>,
    h: Header,
    text: Seq<char>,
    tile: spec_fn(u64) -> Option<Seq<u8>>,
    sure: spec_fn(u64) -> bool,
) -> bool {
    &&& opened(archive) matches Some(Ok((got, root))) && got == h && forall|z: u8, x: u32, y: u32|
        z <= 31 && sure(tile_id(z as nat, x as int, y as int) as u64) ==> #[trigger] tile_read(
            archive,
            h,
            root,
            z,
            x,
            y,
        ) == Some(
            match tile(tile_id(z as nat, x as int, y as int) as u64) {
                Some(data) => Ok::<Seq<u8>, PmtErrorView>(data),
                None => Err(not_found()),
            },
        )
    &&& metadata_read(archive, h) == Some(Ok::<Seq<char>, PmtErrorView>(text))
}

proof fn lemma_sections(
    info: ArchiveInfo,
    dir: Seq<DirEntry>,
    meta: Seq<u8>,
    data: Seq<u8>,
    contents: int,
    archive: Seq<u8>,
)
    requires
        archive == archive_head(info, dir, meta, data.len() as int, contents) + data,
        archive.len() <= u64::MAX,
    ensures
        parsed_header(archive) == Ok::<Header, PmtErrorView>(
            listing_header(info, dir, meta, data.len() as int, contents),
        ),
        ({
            let h = listing_header(info, dir, meta, data.len() as int, contents);
            &&& section(archive, h.root_dir_offset as int, h.root_dir_len as int) == Some(
                gzip_of(directory_bytes(dir)),
            )
            &&& section(archive, h.metadata_offset as int, h.metadata_len as int) == Some(
                gzip_of(meta),
            )
            &&& forall|off: int, len: int|
                0 <= off && 0 <= len && off + len <= data.len() ==> #[trigger] section(
                    archive,
                    h.tile_data_offset + off,
                    len,
                ) == Some(data.subrange(off, off + len))
        }),
{
    let h = listing_header(info, dir, meta, data.len() as int, contents);
    let hb = header_bytes(h);
    let dz = gzip_of(directory_bytes(dir));
    let mz = gzip_of(meta);
    lemma_header_len(h);
    assert(archive == hb + dz + mz + data);
    assert(archive.subrange(0, HEADER_LEN as int) =~= hb);
    header_reads_back(archive, h);
    let a = HEADER_LEN as int;
    let b = a + dz.len();
    let c = b + mz.len();
    assert(archive.subrange(a, b) =~= dz);
    assert(archive.subrange(b, c) =~= mz);
    assert forall|off: int, len: int|
        0 <= off && 0 <= len && off + len <= data.len() implies #[trigger] section(
        archive,
        h.tile_data_offset + off,
        len,
    ) == Some(data.subrange(off, off + len)) by {
        assert(archive.subrange(c + off, c + off + len) =~= data.subrange(off, off + len));
    }
}

/// Searching the decoded listing finds what the listing gives.
proof fn lemma_lookup(
    archive: Seq<u8>,
    h: Header,
    dir: Seq<DirEntry>,
    root: Seq<Entry>,
    data: Seq<u8>,
    id: u64,
)
    requires
        sorted_dir(dir),
        dir_within(dir, data.len() as int),
        root == listed_entries(dir),
    ensures
        match listed_tile(dir, data, id) {
            None => looked_up(archive, h, root, id, 0) == Some(
                Err::<Entry, PmtErrorView>(not_found()),
            ),
            Some(bytes) => looked_up(archive, h, root, id, 0) matches Some(Ok(e)) && e.offset
                + e.length <= data.len() && bytes == data.subrange(
                e.offset as int,
                e.offset + e.length,
            ),
        },
    decreases dir.len(),
{
    if dir.len() > 0 {
        let rest = dir.drop_last();
        let front = root.drop_last();
        let last = dir.len() - 1;
        assert(root[last].tile_id == dir[last].tile_id);
        assert(dir[last].offset + dir[last].len <= data.len());
        if dir.last().tile_id > id {
            assert(sorted_dir(rest));
            assert(dir_within(rest, data.len() as int));
            assert(front =~= listed_entries(rest));
            lemma_lookup(archive, h, rest, front, data, id);
            lemma_rank_bounds(front, id);
            let n = rank(front, id);
            assert(rank(root, id) == n);
            if n > 0 {
                assert(root[n - 1] == front[n - 1]);
            }
        } else if dir.last().tile_id == id {
            assert(rank(root, id) == root.len());
            assert(placed(root.last(), id) is Some);
        } else {
            assert(rank(root, id) == root.len());
            assert(listed_tile(dir, data, id) is None) by {
                lemma_listed_none(dir, data, id);
            }
        }
    }
}

proof fn lemma_rank_bounds(dir: Seq<Entry>, id: u64)
    ensures
        0 <= rank(dir, id) <= dir.len(),
    decreases dir.len(),
{
    if dir.len() > 0 && dir.last().tile_id > id {
        lemma_rank_bounds(dir.drop_last(), id);
    }
}

pub(crate) proof fn lemma_listed_none(dir: Seq<DirEntry>, data: Seq<u8>, id: u64)
    requires
        forall|i: int| 0 <= i < dir.len() ==> (#[trigger] dir[i]).tile_id != id,
    ensures
        listed_tile(dir, data, id) is None,
    decreases dir.len(),
{
    if dir.len() > 0 {
        lemma_listed_none(dir.drop_last(), data, id);
    }
}

/// An archive that was laid out from a listing gives back the listed tiles and its
/// metadata, provided that the compressor is undone by the decompressor on its two
/// compressed parts.
pub proof fn laid_out_archive_reads_back(
    info: ArchiveInfo,
    dir: Seq<DirEntry>,
    meta: Seq<u8>,
    data: Seq<u8>,
    contents: int,
    archive: Seq<u8>,
)
    requires
        archive == archive_head(info, dir, meta, data.len() as int, contents) + data,
        archive.len() <= u64::MAX,
        dir.len() <= u64::MAX,
        sorted_dir(dir),
        dir_within(dir, data.len() as int),
        valid_utf8(meta),
        gunzip_of(gzip_of(directory_bytes(dir))) == decoded(directory_bytes(dir)),
        gunzip_of(gzip_of(meta)) == decoded(meta),
    ensures
        archive_holds(
            archive,
            listing_header(info, dir, meta, data.len() as int, contents),
            decode_utf8(meta),
            |id: u64| listed_tile(dir, data, id),
        ),
{
    let h = listing_header(info, dir, meta, data.len() as int, contents);
    let root = listed_entries(dir);
    let tile = |id: u64| listed_tile(dir, data, id);
    lemma_sections(info, dir, meta, data, contents, archive);
    assert(offsets_fit(dir)) by {
        lemma_header_len(h);
        assert(archive.len() >= HEADER_LEN + data.len());
        assert forall|i: int| 0 <= i < dir.len() implies (#[trigger] dir[i]).offset < u64::MAX
            || contiguous(dir, i) by {}
    }
    directory_reads_back(dir);
    assert(opened(archive) == Some(Ok::<(Header, Seq<Entry>), PmtErrorView>((h, root))));
    assert forall|z: u8, x: u32, y: u32| z <= 31 implies #[trigger] tile_read(
        archive,
        h,
        root,
        z,
        x,
        y,
    ) == Some(
        match tile(tile_id(z as nat, x as int, y as int) as u64) {
            Some(bytes) => Ok::<Seq<u8>, PmtErrorView>(bytes),
            None => Err(not_found()),
        },
    ) by {
        lemma_lookup(archive, h, dir, root, data, tile_id(z as nat, x as int, y as int) as u64);
    }
}

/// Lay out everything in front of the tile data.
pub(crate) fn build_head(
    info: &ArchiveInfo,
    dir: &[DirEntry],
    meta: &[u8],
    data_len: u64,
    contents: u64,
) -> (head: Vec<u8>)
    requires
        sorted_dir(dir@),
    ensures
        head@ == archive_head(*info, dir@, meta@, data_len as int, contents as int),
        gunzip_of(gzip_of(directory_bytes(dir@))) == decoded(directory_bytes(dir@)),
        gunzip_of(gzip_of(meta@)) == decoded(meta@),
{
    let dir_raw = build_directory(dir);
    let dir_gz = gzip(dir_raw.as_slice());
    let meta_gz = gzip(meta);
    // The sums cannot wrap: in the end the head holds all of it.
    let metadata_offset: u64 = (HEADER_LEN as u64).wrapping_add(dir_gz.len() as u64);
    let tile_data_offset: u64 = metadata_offset.wrapping_add(meta_gz.len() as u64);
    let header = Header {
        root_dir_offset: HEADER_LEN as u64,
        root_dir_len: dir_gz.len() as u64,
        metadata_offset,
        metadata_len: meta_gz.len() as u64,
        leaf_dirs_offset: tile_data_offset,
        leaf_dirs_len: 0,
        tile_data_offset,
        tile_data_len: data_len,
        addressed_tiles: dir.len() as u64,
        tile_entries: dir.len() as u64,
        tile_contents: contents,
        clustered: true,
        internal_compression: Compression::Gzip,
        tile_compression: info.tile_compression,
        tile_type: 1,
        min_zoom: info.min_zoom,
        max_zoom: info.max_zoom,
        min_lon_e7: info.min_lon_e7,
        min_lat_e7: info.min_lat_e7,
        max_lon_e7: info.max_lon_e7,
        max_lat_e7: info.max_lat_e7,
        center_zoom: info.center_zoom,
        center_lon_e7: info.center_lon_e7,
        center_lat_e7: info.center_lat_e7,
    };
    let mut out = header.encode();
    proof {
        lemma_header_len(header);
    }
    out.extend_from_slice(dir_gz.as_slice());
    out.extend_from_slice(meta_gz.as_slice());
    assert(out.len() == HEADER_LEN + dir_gz.len() + meta_gz.len());
    out
}

} // verus!
