//! The PMTiles v3 reader.
//!
//! An archive starts with a fixed header. The header says where the root
//! directory, the metadata, the leaf directories and the tile data lie.
//! Directories and metadata are compressed; the tile data is handed out as it
//! is stored.

use vstd::prelude::*;
use vstd::utf8::{
    decode_utf8, encode_utf8, encode_utf8_decode_utf8, encode_utf8_valid_utf8, valid_utf8,
};

use crate::codec::{gunzip, gunzip_of};
use crate::directory::{
    decoded_directory, decoded_directory_is_sorted, sorted_entries, try_decode_directory, Entry,
};
use crate::header::{parsed_header, Compression, Header};
use crate::text::{decimal, push_decimal, push_text};
use crate::tile_id::{lemma_zoom_limits, tile_id, tile_ids_stay_in_their_zoom, tile_to_id};

verus! {

/// What can go wrong when an archive is read.
#[derive(Debug)]
pub enum PmtError {
    Io(String),
    BadMagic,
    UnsupportedVersion(u8),
    TileNotFound { z: u8, x: u32, y: u32 },
    CorruptDirectory,
    Decompress(String),
}

/// An error with its text as a sequence of characters.
pub enum PmtErrorView {
    Io(Seq<char>),
    BadMagic,
    UnsupportedVersion(u8),
    TileNotFound { z: u8, x: u32, y: u32 },
    CorruptDirectory,
    Decompress(Seq<char>),
}

impl View for PmtError {
    type V = PmtErrorView;

    open spec fn view(&self) -> PmtErrorView {
        match *self {
            PmtError::Io(s) => PmtErrorView::Io(s@),
            PmtError::BadMagic => PmtErrorView::BadMagic,
            PmtError::UnsupportedVersion(v) => PmtErrorView::UnsupportedVersion(v),
            PmtError::TileNotFound { z, x, y } => PmtErrorView::TileNotFound { z, x, y },
            PmtError::CorruptDirectory => PmtErrorView::CorruptDirectory,
            PmtError::Decompress(s) => PmtErrorView::Decompress(s@),
        }
    }
}

/// The text of an error, for users.
pub open spec fn pmt_error_text(e: PmtErrorView) -> Seq<char> {
    match e {
        PmtErrorView::Io(s) => "io: "@ + s,
        PmtErrorView::BadMagic => "invalid magic bytes — not a PMTiles file"@,
        PmtErrorView::UnsupportedVersion(v) => "unsupported PMTiles spec version "@ + decimal(
            v as nat,
        ) + " (only v3 supported)"@,
        PmtErrorView::TileNotFound { z, x, y } => "tile not found: z="@ + decimal(z as nat) + " x="@
            + decimal(x as nat) + " y="@ + decimal(y as nat),
        PmtErrorView::CorruptDirectory => "corrupt directory entry"@,
        PmtErrorView::Decompress(s) => "decompression failed: "@ + s,
    }
}

impl PmtError {
    /// The text of the error, for users.
    pub fn message(&self) -> (r: String)
        ensures
            r@ == pmt_error_text(self@),
    {
        match self {
            PmtError::Io(s) => {
                let mut r = "io: ".to_owned();
                push_text(&mut r, s.as_str());
                r
            },
            PmtError::BadMagic => "invalid magic bytes — not a PMTiles file".to_owned(),
            PmtError::UnsupportedVersion(v) => {
                let mut r = "unsupported PMTiles spec version ".to_owned();
                push_decimal(&mut r, *v as u64);
                push_text(&mut r, " (only v3 supported)");
                r
            },
            PmtError::TileNotFound { z, x, y } => {
                let mut r = "tile not found: z=".to_owned();
                push_decimal(&mut r, *z as u64);
                push_text(&mut r, " x=");
                push_decimal(&mut r, *x as u64);
                push_text(&mut r, " y=");
                push_decimal(&mut r, *y as u64);
                r
            },
            PmtError::CorruptDirectory => "corrupt directory entry".to_owned(),
            PmtError::Decompress(s) => {
                let mut r = "decompression failed: ".to_owned();
                push_text(&mut r, s.as_str());
                r
            },
        }
    }
}

#[verifier::external_type_specification]
#[verifier::external_body]
pub struct ExBytes(bytes::Bytes);

/// The bytes that a `bytes::Bytes` handle refers to.
pub uninterp spec fn bytes_held(b: bytes::Bytes) -> Seq<u8>;

/// `bytes::Bytes::copy_from_slice` makes a handle that refers to a copy of
/// the slice.
pub assume_specification[ bytes::Bytes::copy_from_slice ](data: &[u8]) -> (b: bytes::Bytes)
    ensures
        bytes_held(b) == data@,
;

/// Tile bytes as returned by the reader.
pub struct TileData {
    /// Raw (possibly compressed) tile bytes.
    pub data: bytes::Bytes,
    /// How the tiles of the archive are compressed.
    pub compression: Compression,
}

/// The text that describes why `data` is not UTF-8.
pub uninterp spec fn utf8_error_text(data: Seq<u8>) -> Seq<char>;

/// Calls `String::from_utf8`.
///
/// Claimed: it succeeds on valid UTF-8 only, with the characters that the
/// bytes encode; the text of its error depends on the bytes alone.
#[verifier::external_body]
fn string_from_utf8(data: Vec<u8>) -> (r: Result<String, String>)
    ensures
        match r {
            Ok(s) => valid_utf8(data@) && s@ == decode_utf8(data@),
            Err(t) => !valid_utf8(data@) && t@ == utf8_error_text(data@),
        },
{
    String::from_utf8(data).map_err(|e| e.to_string())
}

/// The `len` bytes of the archive from `off` on, if it has them.
pub open spec fn section(archive: Seq<u8>, off: int, len: int) -> Option<Seq<u8>> {
    if off + len <= archive.len() {
        Some(archive.subrange(off, off + len))
    } else {
        None
    }
}

/// A directory or the metadata, unpacked.
pub open spec fn unpacked(data: Seq<u8>, comp: Compression) -> Result<Seq<u8>, PmtErrorView> {
    match comp {
        Compression::Gzip => match gunzip_of(data) {
            Ok(d) => Ok(d),
            Err(t) => Err(PmtErrorView::Decompress(t)),
        },
        Compression::Uncompressed | Compression::Unknown => Ok(data),
        Compression::Brotli => Err(
            PmtErrorView::Decompress("unsupported internal compression Brotli"@),
        ),
        Compression::Zstd => Err(
            PmtErrorView::Decompress("unsupported internal compression Zstd"@),
        ),
    }
}

/// The directory stored at `off`; nothing where it lies outside the archive
/// or holds a number beyond 64 bits.
pub open spec fn stored_directory(
    archive: Seq<u8>,
    comp: Compression,
    off: int,
    len: int,
) -> Option<Result<Seq<Entry>, PmtErrorView>> {
    match section(archive, off, len) {
        None => None,
        Some(raw) => match unpacked(raw, comp) {
            Err(e) => Some(Err(e)),
            Ok(data) => decoded_directory(data),
        },
    }
}

/// What opening an archive gives: its header and its root directory.
pub open spec fn opened(archive: Seq<u8>) -> Option<Result<(Header, Seq<Entry>), PmtErrorView>> {
    match parsed_header(archive) {
        Err(e) => Some(Err(e)),
        Ok(h) => match stored_directory(
            archive,
            h.internal_compression,
            h.root_dir_offset as int,
            h.root_dir_len as int,
        ) {
            None => None,
            Some(Err(e)) => Some(Err(e)),
            Some(Ok(dir)) => Some(Ok((h, dir))),
        },
    }
}

/// The number of entries up to the last one whose identifier is at most `id`.
pub open spec fn rank(dir: Seq<Entry>, id: u64) -> int
    decreases dir.len(),
{
    if dir.len() == 0 {
        0
    } else if dir.last().tile_id <= id {
        dir.len() as int
    } else {
        rank(dir.drop_last(), id)
    }
}

/// The error for a tile that the archive does not list.
pub open spec fn not_found() -> PmtErrorView {
    PmtErrorView::TileNotFound { z: 0, x: 0, y: 0 }
}

/// Where the bytes of tile `id` lie, according to the entry `e` of a run that
/// starts at or before it. The tiles of a run have equal lengths and lie one
/// behind the other.
pub open spec fn placed(e: Entry, id: u64) -> Option<Result<Entry, PmtErrorView>> {
    if e.tile_id == id {
        Some(Ok(Entry { tile_id: id, offset: e.offset, length: e.length, run_length: 1 }))
    } else if e.run_length <= 1 {
        Some(Err(not_found()))
    } else if e.tile_id + e.run_length > u64::MAX {
        None
    } else if id >= e.tile_id + e.run_length {
        Some(Err(not_found()))
    } else if (id - e.tile_id) * e.length > u64::MAX || e.offset + (id - e.tile_id) * e.length
        > u64::MAX {
        None
    } else {
        Some(
            Ok(
                Entry {
                    tile_id: id,
                    offset: (e.offset + (id - e.tile_id) * e.length) as u64,
                    length: e.length,
                    run_length: 1,
                },
            ),
        )
    }
}

/// The search for tile `id` in `dir`, which lies `depth` levels below the
/// root. It follows pointers to leaf directories down to the second level.
pub open spec fn looked_up(
    archive: Seq<u8>,
    h: Header,
    dir: Seq<Entry>,
    id: u64,
    depth: nat,
) -> Option<Result<Entry, PmtErrorView>>
    decreases 3 - depth,
{
    let n = rank(dir, id);
    if n == 0 {
        Some(Err(not_found()))
    } else {
        let e = dir[n - 1];
        if e.run_length > 0 {
            placed(e, id)
        } else if depth > 1 {
            Some(Err(PmtErrorView::CorruptDirectory))
        } else {
            match stored_directory(
                archive,
                h.internal_compression,
                h.leaf_dirs_offset + e.offset,
                e.length as int,
            ) {
                None => None,
                Some(Err(x)) => Some(Err(x)),
                Some(Ok(leaf)) => looked_up(archive, h, leaf, id, depth + 1),
            }
        }
    }
}

/// What reading tile `(z, x, y)` gives; nothing where the archive points
/// outside itself or at a number beyond 64 bits, or the zoom is too deep.
pub open spec fn tile_read(
    archive: Seq<u8>,
    h: Header,
    root: Seq<Entry>,
    z: u8,
    x: u32,
    y: u32,
) -> Option<Result<Seq<u8>, PmtErrorView>> {
    if z > 31 {
        None
    } else {
        match looked_up(archive, h, root, tile_id(z as nat, x as int, y as int) as u64, 0) {
            None => None,
            Some(Err(e)) => Some(Err(e)),
            Some(Ok(e)) => match section(archive, h.tile_data_offset + e.offset, e.length as int) {
                None => None,
                Some(data) => Some(Ok(data)),
            },
        }
    }
}

/// What reading the metadata gives.
pub open spec fn metadata_read(archive: Seq<u8>, h: Header) -> Option<
    Result<Seq<char>, PmtErrorView>,
> {
    match section(archive, h.metadata_offset as int, h.metadata_len as int) {
        None => None,
        Some(raw) => match unpacked(raw, h.internal_compression) {
            Err(e) => Some(Err(e)),
            Ok(data) => if valid_utf8(data) {
                Some(Ok(decode_utf8(data)))
            } else {
                Some(Err(PmtErrorView::Decompress(utf8_error_text(data))))
            },
        },
    }
}

proof fn lemma_rank(dir: Seq<Entry>, id: u64, n: int)
    requires
        sorted_entries(dir),
        0 <= n <= dir.len(),
        n > 0 ==> dir[n - 1].tile_id <= id,
        n < dir.len() ==> dir[n].tile_id > id,
    ensures
        rank(dir, id) == n,
    decreases dir.len(),
{
    if n < dir.len() {
        assert(dir[n].tile_id <= dir[dir.len() - 1].tile_id);
        let rest = dir.drop_last();
        assert(sorted_entries(rest));
        lemma_rank(rest, id, n);
    }
}

/// The last entry whose identifier is at most `id`, counted from one.
fn partition(dir: &[Entry], id: u64) -> (n: usize)
    requires
        sorted_entries(dir@),
    ensures
        n == rank(dir@, id),
        n <= dir.len(),
{
    let mut lo: usize = 0;
    let mut hi: usize = dir.len();
    while lo < hi
        invariant
            lo <= hi <= dir.len(),
            sorted_entries(dir@),
            lo > 0 ==> dir@[lo - 1].tile_id <= id,
            hi < dir.len() ==> dir@[hi as int].tile_id > id,
        decreases hi - lo,
    {
        let mid: usize = lo + (hi - lo) / 2;
        if dir[mid].tile_id <= id {
            lo = mid + 1;
        } else {
            hi = mid;
        }
    }
    proof {
        lemma_rank(dir@, id, lo as int);
    }
    lo
}

fn cut(archive: &[u8], off: u64, len: u64) -> (r: Option<Vec<u8>>)
    ensures
        match section(archive@, off as int, len as int) {
            None => r is None,
            Some(s) => r matches Some(v) && v@ == s,
        },
{
    let size: u64 = archive.len() as u64;
    let end: u64 = match off.checked_add(len) {
        Some(end) => end,
        None => return None,
    };
    if end > size {
        return None;
    }
    Some(
        vstd::slice::slice_to_vec(
            vstd::slice::slice_subrange(archive, off as usize, end as usize),
        ),
    )
}

fn unpack(data: Vec<u8>, comp: Compression) -> (r: Result<Vec<u8>, PmtError>)
    ensures
        match unpacked(data@, comp) {
            Ok(d) => r matches Ok(v) && v@ == d,
            Err(e) => r matches Err(x) && x@ == e,
        },
{
    match comp {
        Compression::Gzip => match gunzip(data.as_slice()) {
            Ok(d) => Ok(d),
            Err(t) => Err(PmtError::Decompress(t)),
        },
        Compression::Uncompressed => Ok(data),
        Compression::Unknown => Ok(data),
        Compression::Brotli => Err(
            PmtError::Decompress("unsupported internal compression Brotli".to_owned()),
        ),
        Compression::Zstd => Err(
            PmtError::Decompress("unsupported internal compression Zstd".to_owned()),
        ),
    }
}

fn load_directory(archive: &[u8], comp: Compression, off: u64, len: u64) -> (r: Option<
    Result<Vec<Entry>, PmtError>,
>)
    ensures
        match stored_directory(archive@, comp, off as int, len as int) {
            None => r is None,
            Some(Ok(dir)) => r matches Some(Ok(v)) && v@ == dir && sorted_entries(v@),
            Some(Err(e)) => r matches Some(Err(x)) && x@ == e,
        },
{
    let raw = match cut(archive, off, len) {
        Some(raw) => raw,
        None => return None,
    };
    match unpack(raw, comp) {
        Err(e) => Some(Err(e)),
        Ok(data) => {
            proof {
                decoded_directory_is_sorted(data@);
            }
            try_decode_directory(data.as_slice())
        },
    }
}

fn place(e: &Entry, id: u64) -> (r: Option<Result<Entry, PmtError>>)
    requires
        e.tile_id <= id,
    ensures
        match placed(*e, id) {
            None => r is None,
            Some(Ok(p)) => r == Some(Ok::<Entry, PmtError>(p)),
            Some(Err(t)) => r matches Some(Err(x)) && x@ == t,
        },
{
    if e.tile_id == id {
        return Some(Ok(Entry { tile_id: id, offset: e.offset, length: e.length, run_length: 1 }));
    }
    if e.run_length <= 1 {
        return Some(Err(PmtError::TileNotFound { z: 0, x: 0, y: 0 }));
    }
    let end: u64 = match e.tile_id.checked_add(e.run_length as u64) {
        Some(end) => end,
        None => return None,
    };
    if id >= end {
        return Some(Err(PmtError::TileNotFound { z: 0, x: 0, y: 0 }));
    }
    let shift: u64 = match (id - e.tile_id).checked_mul(e.length as u64) {
        Some(shift) => shift,
        None => return None,
    };
    match e.offset.checked_add(shift) {
        Some(offset) => Some(Ok(Entry { tile_id: id, offset, length: e.length, run_length: 1 })),
        None => None,
    }
}

/// Read-only PMTiles v3 reader over the bytes of an archive.
///
/// The root directory is decoded when the archive is opened. Tile data stays
/// in place and is copied out on demand.
pub struct PmtReader<'a> {
    archive: &'a [u8],
    header: Header,
    root_dir: Vec<Entry>,
}

impl<'a> PmtReader<'a> {
    /// The bytes of the archive.
    pub closed spec fn archive(&self) -> Seq<u8> {
        self.archive@
    }

    /// The header of the archive.
    pub closed spec fn header(&self) -> Header {
        self.header
    }

    /// The root directory.
    pub closed spec fn root(&self) -> Seq<Entry> {
        self.root_dir@
    }

    #[verifier::type_invariant]
    spec fn root_is_sorted(&self) -> bool {
        sorted_entries(self.root_dir@)
    }

    fn load(archive: &'a [u8]) -> (r: Option<Result<PmtReader<'a>, PmtError>>)
        ensures
            match opened(archive@) {
                None => r is None,
                Some(Ok((h, dir))) => r matches Some(Ok(v)) && v.archive() == archive@ && v.header()
                    == h && v.root() == dir,
                Some(Err(e)) => r matches Some(Err(x)) && x@ == e,
            },
    {
        let header = match Header::parse(archive) {
            Ok(h) => h,
            Err(e) => return Some(Err(e)),
        };
        match load_directory(
            archive,
            header.internal_compression,
            header.root_dir_offset,
            header.root_dir_len,
        ) {
            None => None,
            Some(Err(e)) => Some(Err(e)),
            Some(Ok(root_dir)) => Some(Ok(PmtReader { archive, header, root_dir })),
        }
    }

    /// Open the archive held in `archive`.
    pub fn open(archive: &'a [u8]) -> (r: Result<PmtReader<'a>, PmtError>)
        requires
            opened(archive@) is Some,
        ensures
            match opened(archive@) {
                None => false,
                Some(Ok((h, dir))) => r matches Ok(v) && v.archive() == archive@ && v.header() == h
                    && v.root() == dir,
                Some(Err(e)) => r matches Err(x) && x@ == e,
            },
    {
        PmtReader::load(archive).unwrap()
    }

    /// Open the archive held in `archive`; `None` where its header points
    /// outside of it or its root directory holds a number beyond 64 bits.
    pub fn try_open(archive: &'a [u8]) -> (r: Option<Result<PmtReader<'a>, PmtError>>)
        ensures
            match opened(archive@) {
                None => r is None,
                Some(Ok((h, dir))) => r matches Some(Ok(v)) && v.archive() == archive@ && v.header()
                    == h && v.root() == dir,
                Some(Err(e)) => r matches Some(Err(x)) && x@ == e,
            },
    {
        match PmtReader::load(archive) {
            None => None,
            Some(_) => Some(PmtReader::open(archive)),
        }
    }

    fn lookup(&self, dir: &[Entry], id: u64, depth: u8) -> (r: Option<Result<Entry, PmtError>>)
        requires
            sorted_entries(dir@),
            depth <= 2,
        ensures
            match looked_up(self.archive(), self.header(), dir@, id, depth as nat) {
                None => r is None,
                Some(Ok(p)) => r == Some(Ok::<Entry, PmtError>(p)),
                Some(Err(t)) => r matches Some(Err(x)) && x@ == t,
            },
        decreases 3 - depth,
    {
        let n: usize = partition(dir, id);
        if n == 0 {
            return Some(Err(PmtError::TileNotFound { z: 0, x: 0, y: 0 }));
        }
        let e = dir[n - 1];
        proof {
            lemma_rank_entry(dir@, id);
        }
        if e.run_length > 0 {
            return place(&e, id);
        }
        if depth > 1 {
            return Some(Err(PmtError::CorruptDirectory));
        }
        assert(self.archive.len() <= u64::MAX);
        let start: u64 = match self.header.leaf_dirs_offset.checked_add(e.offset) {
            Some(start) => start,
            None => return None,
        };
        match load_directory(
            self.archive,
            self.header.internal_compression,
            start,
            e.length as u64,
        ) {
            None => None,
            Some(Err(x)) => Some(Err(x)),
            Some(Ok(leaf)) => self.lookup(leaf.as_slice(), id, depth + 1),
        }
    }

    /// The range of the archive that holds tile `(z, x, y)`.
    fn locate(&self, z: u8, x: u32, y: u32) -> (r: Option<Result<(usize, usize), PmtError>>)
        ensures
            match tile_read(self.archive(), self.header(), self.root(), z, x, y) {
                None => r is None,
                Some(Ok(data)) => r matches Some(Ok((a, b))) && a <= b <= self.archive().len()
                    && self.archive().subrange(a as int, b as int) == data,
                Some(Err(e)) => r matches Some(Err(p)) && p@ == e,
            },
    {
        if z > 31 {
            return None;
        }
        proof {
            use_type_invariant(self);
        }
        let size: u64 = self.archive.len() as u64;
        let id: u64 = tile_to_id(z, x, y);
        let e = match self.lookup(self.root_dir.as_slice(), id, 0) {
            None => return None,
            Some(Err(e)) => return Some(Err(e)),
            Some(Ok(e)) => e,
        };
        let start: u64 = match self.header.tile_data_offset.checked_add(e.offset) {
            Some(start) => start,
            None => return None,
        };
        let end: u64 = match start.checked_add(e.length as u64) {
            Some(end) => end,
            None => return None,
        };
        if end > size {
            return None;
        }
        Some(Ok((start as usize, end as usize)))
    }

    /// Fetch the bytes of tile `(z, x, y)` exactly as they are stored.
    pub fn get_tile(&self, z: u8, x: u32, y: u32) -> (r: Result<TileData, PmtError>)
        requires
            tile_read(self.archive(), self.header(), self.root(), z, x, y) is Some,
        ensures
            match tile_read(self.archive(), self.header(), self.root(), z, x, y) {
                None => false,
                Some(Ok(data)) => r matches Ok(t) && bytes_held(t.data) == data && t.compression
                    == self.header().tile_compression,
                Some(Err(e)) => r matches Err(p) && p@ == e,
            },
    {
        match self.locate(z, x, y).unwrap() {
            Err(e) => Err(e),
            Ok((start, end)) => {
                let data = bytes::Bytes::copy_from_slice(
                    vstd::slice::slice_subrange(self.archive, start, end),
                );
                Ok(TileData { data, compression: self.header.tile_compression })
            },
        }
    }

    /// Fetch the bytes of tile `(z, x, y)` exactly as they are stored; `None`
    /// where the archive points outside itself or at a number beyond 64 bits,
    /// or the zoom is beyond 31.
    pub fn try_get_tile(&self, z: u8, x: u32, y: u32) -> (r: Option<Result<TileData, PmtError>>)
        ensures
            match tile_read(self.archive(), self.header(), self.root(), z, x, y) {
                None => r is None,
                Some(Ok(data)) => r matches Some(Ok(t)) && bytes_held(t.data) == data
                    && t.compression == self.header().tile_compression,
                Some(Err(e)) => r matches Some(Err(p)) && p@ == e,
            },
    {
        match self.locate(z, x, y) {
            None => None,
            Some(Err(e)) => Some(Err(e)),
            Some(Ok(_)) => Some(self.get_tile(z, x, y)),
        }
    }

    /// The metadata JSON.
    pub fn metadata(&self) -> (r: Result<String, PmtError>)
        requires
            self.header().metadata_offset + self.header().metadata_len <= self.archive().len(),
        ensures
            match metadata_read(self.archive(), self.header()) {
                None => false,
                Some(Ok(text)) => r matches Ok(s) && s@ == text,
                Some(Err(e)) => r matches Err(p) && p@ == e,
            },
    {
        let raw = cut(
            self.archive,
            self.header.metadata_offset,
            self.header.metadata_len,
        ).unwrap();
        match unpack(raw, self.header.internal_compression) {
            Err(e) => Err(e),
            Ok(data) => match string_from_utf8(data) {
                Ok(s) => Ok(s),
                Err(t) => Err(PmtError::Decompress(t)),
            },
        }
    }

    /// The metadata JSON; `None` where it lies outside the archive.
    pub fn try_metadata(&self) -> (r: Option<Result<String, PmtError>>)
        ensures
            match metadata_read(self.archive(), self.header()) {
                None => r is None,
                Some(Ok(text)) => r matches Some(Ok(s)) && s@ == text,
                Some(Err(e)) => r matches Some(Err(p)) && p@ == e,
            },
    {
        let size: u64 = self.archive.len() as u64;
        match self.header.metadata_offset.checked_add(self.header.metadata_len) {
            None => None,
            Some(end) => if end <= size {
                Some(self.metadata())
            } else {
                None
            },
        }
    }

    pub fn min_zoom(&self) -> (z: u8)
        ensures
            z == self.header().min_zoom,
    {
        self.header.min_zoom
    }

    pub fn max_zoom(&self) -> (z: u8)
        ensures
            z == self.header().max_zoom,
    {
        self.header.max_zoom
    }

    pub fn tile_count(&self) -> (n: u64)
        ensures
            n == self.header().tile_entries,
    {
        self.header.tile_entries
    }
}

proof fn lemma_rank_entry(dir: Seq<Entry>, id: u64)
    ensures
        0 <= rank(dir, id) <= dir.len(),
        rank(dir, id) > 0 ==> dir[rank(dir, id) - 1].tile_id <= id,
    decreases dir.len(),
{
    if dir.len() > 0 && dir.last().tile_id > id {
        lemma_rank_entry(dir.drop_last(), id);
    }
}

/// What is stored without compression is taken as it stands, what is gzipped is unpacked,
/// and other compressions of the inner parts are refused.
pub proof fn inner_parts_are_unpacked(data: Seq<u8>, comp: Compression)
    ensures
        comp == Compression::Uncompressed || comp == Compression::Unknown ==> unpacked(data, comp)
            == Ok::<Seq<u8>, PmtErrorView>(data),
        comp == Compression::Gzip ==> match gunzip_of(data) {
            Ok(d) => unpacked(data, comp) == Ok::<Seq<u8>, PmtErrorView>(d),
            Err(t) => unpacked(data, comp) == Err::<Seq<u8>, PmtErrorView>(
                PmtErrorView::Decompress(t),
            ),
        },
        comp == Compression::Brotli || comp == Compression::Zstd ==> (unpacked(
            data,
            comp,
        ) matches Err(PmtErrorView::Decompress(_))),
{
}

/// A part of an archive is the bytes from its offset on, as many as it is long, and there
/// is none where they go on behind the end.
pub proof fn parts_lie_where_they_are_said_to(front: Seq<u8>, part: Seq<u8>, back: Seq<u8>)
    ensures
        section(front + part + back, front.len() as int, part.len() as int) == Some(part),
        back.len() == 0 ==> section(front + part + back, front.len() as int, part.len() as int + 1)
            is None,
{
    let all = front + part + back;
    assert(all.subrange(front.len() as int, front.len() as int + part.len()) =~= part);
}

/// The metadata is read from its place in the archive, whatever stands around it.
pub proof fn metadata_is_read_from_its_place(
    front: Seq<u8>,
    text: Seq<char>,
    back: Seq<u8>,
    h: Header,
)
    requires
        h.metadata_offset == front.len(),
        h.metadata_len == encode_utf8(text).len(),
        h.internal_compression == Compression::Uncompressed,
    ensures
        metadata_read(front + encode_utf8(text) + back, h) == Some(
            Ok::<Seq<char>, PmtErrorView>(text),
        ),
{
    encode_utf8_valid_utf8(text);
    encode_utf8_decode_utf8(text);
    parts_lie_where_they_are_said_to(front, encode_utf8(text), back);
}

/// A tile is the bytes at the place that its entry names, counted from the start of the
/// tile data.
pub proof fn tiles_are_read_from_their_place(
    front: Seq<u8>,
    tile: Seq<u8>,
    back: Seq<u8>,
    h: Header,
    root: Seq<Entry>,
    e: Entry,
    z: u8,
    x: u32,
    y: u32,
)
    requires
        z <= 31,
        looked_up(
            front + tile + back,
            h,
            root,
            tile_id(z as nat, x as int, y as int) as u64,
            0,
        ) == Some(Ok::<Entry, PmtErrorView>(e)),
        h.tile_data_offset + e.offset == front.len(),
        e.length == tile.len(),
    ensures
        tile_read(front + tile + back, h, root, z, x, y) == Some(
            Ok::<Seq<u8>, PmtErrorView>(tile),
        ),
{
    parts_lie_where_they_are_said_to(front, tile, back);
}

/// An error names what it is about.
pub proof fn errors_are_told_apart(s: Seq<char>, v: u8, z: u8, x: u32, y: u32)
    ensures
        pmt_error_text(PmtErrorView::Io(s)) == "io: "@ + s,
        pmt_error_text(PmtErrorView::Decompress(s)) == "decompression failed: "@ + s,
        pmt_error_text(PmtErrorView::UnsupportedVersion(v)) == "unsupported PMTiles spec version "@
            + decimal(v as nat) + " (only v3 supported)"@,
        pmt_error_text(PmtErrorView::TileNotFound { z, x, y }) == "tile not found: z="@ + decimal(
            z as nat,
        ) + " x="@ + decimal(x as nat) + " y="@ + decimal(y as nat),
{
}

} // verus!
