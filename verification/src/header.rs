//! The fixed header of a PMTiles v3 archive.

use vstd::prelude::*;

use crate::le::{
    le_bytes, lemma_byte_ranges, lemma_le_bytes_len, lemma_u32_at, lemma_u64_at, low32, read_u32_le,
    read_u64_le, read_u8, signed32, to_signed32, u32_at, u64_at, unsigned32, write_i32_le,
    write_u64_le,
};
use crate::pmtiles::{PmtError, PmtErrorView};

verus! {

/// Length of the header in bytes.
pub const HEADER_LEN: usize = 127;

/// How a block of the archive is compressed.
#[derive(Debug, Clone, Copy, PartialEq, Eq, Structural)]
pub enum Compression {
    Unknown,
    Uncompressed,
    Gzip,
    Brotli,
    Zstd,
}

/// The compression that a header byte stands for.
pub open spec fn compression_of(v: u8) -> Compression {
    if v == 1 {
        Compression::Uncompressed
    } else if v == 2 {
        Compression::Gzip
    } else if v == 3 {
        Compression::Brotli
    } else if v == 4 {
        Compression::Zstd
    } else {
        Compression::Unknown
    }
}

impl Compression {
    /// The header byte that stands for the compression.
    pub open spec fn spec_code(self) -> u8 {
        match self {
            Compression::Unknown => 0,
            Compression::Uncompressed => 1,
            Compression::Gzip => 2,
            Compression::Brotli => 3,
            Compression::Zstd => 4,
        }
    }

    /// The compression that a header byte stands for.
    pub fn from_u8(v: u8) -> (r: Compression)
        ensures
            r == compression_of(v),
    {
        if v == 1 {
            Compression::Uncompressed
        } else if v == 2 {
            Compression::Gzip
        } else if v == 3 {
            Compression::Brotli
        } else if v == 4 {
            Compression::Zstd
        } else {
            Compression::Unknown
        }
    }

    /// The header byte that stands for the compression.
    pub fn code(self) -> (v: u8)
        ensures
            v == self.spec_code(),
    {
        match self {
            Compression::Unknown => 0,
            Compression::Uncompressed => 1,
            Compression::Gzip => 2,
            Compression::Brotli => 3,
            Compression::Zstd => 4,
        }
    }
}

/// Reading back the header byte of a compression gives the compression.
pub proof fn compression_reads_back(c: Compression)
    ensures
        compression_of(c.spec_code()) == c,
{
}

/// The fields of the header, in the order in which they are stored.
#[derive(Debug, Clone, Copy)]
pub struct Header {
    pub root_dir_offset: u64,
    pub root_dir_len: u64,
    pub metadata_offset: u64,
    pub metadata_len: u64,
    pub leaf_dirs_offset: u64,
    pub leaf_dirs_len: u64,
    pub tile_data_offset: u64,
    pub tile_data_len: u64,
    pub addressed_tiles: u64,
    pub tile_entries: u64,
    pub tile_contents: u64,
    pub clustered: bool,
    pub internal_compression: Compression,
    pub tile_compression: Compression,
    pub tile_type: u8,
    pub min_zoom: u8,
    pub max_zoom: u8,
    pub min_lon_e7: i32,
    pub min_lat_e7: i32,
    pub max_lon_e7: i32,
    pub max_lat_e7: i32,
    pub center_zoom: u8,
    pub center_lon_e7: i32,
    pub center_lat_e7: i32,
}

/// The bytes `PMTiles` that every archive starts with.
pub open spec fn magic() -> Seq<u8> {
    seq![0x50, 0x4d, 0x54, 0x69, 0x6c, 0x65, 0x73]
}

/// The header whose fields stand at their places in `buf`.
pub open spec fn header_at(buf: Seq<u8>) -> Header {
    Header {
        root_dir_offset: u64_at(buf, 8),
        root_dir_len: u64_at(buf, 16),
        metadata_offset: u64_at(buf, 24),
        metadata_len: u64_at(buf, 32),
        leaf_dirs_offset: u64_at(buf, 40),
        leaf_dirs_len: u64_at(buf, 48),
        tile_data_offset: u64_at(buf, 56),
        tile_data_len: u64_at(buf, 64),
        addressed_tiles: u64_at(buf, 72),
        tile_entries: u64_at(buf, 80),
        tile_contents: u64_at(buf, 88),
        clustered: buf[96] == 1,
        internal_compression: compression_of(buf[97]),
        tile_compression: compression_of(buf[98]),
        tile_type: buf[99],
        min_zoom: buf[100],
        max_zoom: buf[101],
        min_lon_e7: signed32(u32_at(buf, 102)),
        min_lat_e7: signed32(u32_at(buf, 106)),
        max_lon_e7: signed32(u32_at(buf, 110)),
        max_lat_e7: signed32(u32_at(buf, 114)),
        center_zoom: buf[118],
        center_lon_e7: signed32(u32_at(buf, 119)),
        center_lat_e7: signed32(u32_at(buf, 123)),
    }
}

/// What parsing the start of an archive gives.
pub open spec fn parsed_header(buf: Seq<u8>) -> Result<Header, PmtErrorView> {
    if buf.len() < HEADER_LEN || buf.subrange(0, 7) != magic() {
        Err(PmtErrorView::BadMagic)
    } else if buf[7] != 3 {
        Err(PmtErrorView::UnsupportedVersion(buf[7]))
    } else {
        Ok(header_at(buf))
    }
}

/// The 64-bit fields of a header, in the order in which they are stored.
pub open spec fn header_numbers(h: Header) -> Seq<u64> {
    seq![
        h.root_dir_offset,
        h.root_dir_len,
        h.metadata_offset,
        h.metadata_len,
        h.leaf_dirs_offset,
        h.leaf_dirs_len,
        h.tile_data_offset,
        h.tile_data_len,
        h.addressed_tiles,
        h.tile_entries,
        h.tile_contents,
    ]
}

/// The eight-byte encodings of several numbers, one behind the other.
pub open spec fn u64s_bytes(vs: Seq<u64>) -> Seq<u8>
    decreases vs.len(),
{
    if vs.len() == 0 {
        Seq::empty()
    } else {
        u64s_bytes(vs.drop_last()) + le_bytes(vs.last() as int, 8)
    }
}

/// The single-byte fields between the 64-bit numbers and the bounds.
pub open spec fn header_flags(h: Header) -> Seq<u8> {
    seq![
        if h.clustered {
            1
        } else {
            0
        },
        h.internal_compression.spec_code(),
        h.tile_compression.spec_code(),
        h.tile_type,
        h.min_zoom,
        h.max_zoom,
    ]
}

/// The four bytes of a signed number.
pub open spec fn i32_bytes(v: i32) -> Seq<u8> {
    le_bytes(unsigned32(v) as int, 4)
}

/// The bounds and the centre of the archive.
pub open spec fn header_bounds(h: Header) -> Seq<u8> {
    i32_bytes(h.min_lon_e7) + i32_bytes(h.min_lat_e7) + i32_bytes(h.max_lon_e7) + i32_bytes(
        h.max_lat_e7,
    ) + seq![h.center_zoom] + i32_bytes(h.center_lon_e7) + i32_bytes(h.center_lat_e7)
}

/// The stored form of a header.
pub open spec fn header_bytes(h: Header) -> Seq<u8> {
    magic() + seq![3u8] + u64s_bytes(header_numbers(h)) + header_flags(h) + header_bounds(h)
}

proof fn lemma_u64s_bytes(vs: Seq<u64>, i: int)
    requires
        0 <= i < vs.len(),
    ensures
        u64s_bytes(vs).len() == 8 * vs.len(),
        u64s_bytes(vs).subrange(8 * i, 8 * i + 8) == le_bytes(vs[i] as int, 8),
    decreases vs.len(),
{
    let head = vs.drop_last();
    lemma_u64s_len(head);
    lemma_le_bytes_len(vs.last() as int, 8);
    if i < vs.len() - 1 {
        lemma_u64s_bytes(head, i);
        assert(u64s_bytes(vs).subrange(8 * i, 8 * i + 8) =~= u64s_bytes(head).subrange(
            8 * i,
            8 * i + 8,
        ));
    } else {
        assert(u64s_bytes(vs).subrange(8 * i, 8 * i + 8) =~= le_bytes(vs[i] as int, 8));
    }
}

proof fn lemma_u64s_len(vs: Seq<u64>)
    ensures
        u64s_bytes(vs).len() == 8 * vs.len(),
    decreases vs.len(),
{
    if vs.len() > 0 {
        lemma_u64s_len(vs.drop_last());
        lemma_le_bytes_len(vs.last() as int, 8);
    }
}

proof fn lemma_bounds_len(h: Header)
    ensures
        header_bounds(h).len() == 25,
        i32_bytes(h.min_lon_e7).len() == 4,
        i32_bytes(h.min_lat_e7).len() == 4,
        i32_bytes(h.max_lon_e7).len() == 4,
        i32_bytes(h.max_lat_e7).len() == 4,
        i32_bytes(h.center_lon_e7).len() == 4,
        i32_bytes(h.center_lat_e7).len() == 4,
{
    lemma_le_bytes_len(unsigned32(h.min_lon_e7) as int, 4);
    lemma_le_bytes_len(unsigned32(h.min_lat_e7) as int, 4);
    lemma_le_bytes_len(unsigned32(h.max_lon_e7) as int, 4);
    lemma_le_bytes_len(unsigned32(h.max_lat_e7) as int, 4);
    lemma_le_bytes_len(unsigned32(h.center_lon_e7) as int, 4);
    lemma_le_bytes_len(unsigned32(h.center_lat_e7) as int, 4);
}

/// A stored header has the fixed length.
pub proof fn lemma_header_len(h: Header)
    ensures
        header_bytes(h).len() == HEADER_LEN,
{
    lemma_u64s_len(header_numbers(h));
    lemma_bounds_len(h);
}

/// A cut inside the middle part of three.
proof fn lemma_cut_middle(a: Seq<u8>, b: Seq<u8>, c: Seq<u8>, i: int, j: int)
    requires
        0 <= i <= j <= b.len(),
    ensures
        (a + b + c).subrange(a.len() + i, a.len() + j) == b.subrange(i, j),
{
    assert((a + b + c).subrange(a.len() + i, a.len() + j) =~= b.subrange(i, j));
}

/// A cut inside a prefix is a cut of the whole.
proof fn lemma_cut_prefix(s: Seq<u8>, n: int, i: int, j: int)
    requires
        0 <= i <= j <= n <= s.len(),
    ensures
        s.subrange(0, n).subrange(i, j) == s.subrange(i, j),
{
    assert(s.subrange(0, n).subrange(i, j) =~= s.subrange(i, j));
}

proof fn lemma_number_at(buf: Seq<u8>, h: Header, i: int)
    requires
        0 <= i < 11,
        buf.len() >= HEADER_LEN,
        buf.subrange(0, HEADER_LEN as int) == header_bytes(h),
    ensures
        u64_at(buf, 8 + 8 * i) == header_numbers(h)[i],
{
    let vs = header_numbers(h);
    let start = magic() + seq![3u8];
    let nums = u64s_bytes(vs);
    let rest = header_flags(h) + header_bounds(h);
    assert(vs.len() == 11);
    lemma_u64s_bytes(vs, i);
    assert(start.len() == 8);
    assert(header_bytes(h) =~= start + nums + rest);
    lemma_cut_middle(start, nums, rest, 8 * i, 8 * i + 8);
    lemma_cut_prefix(buf, HEADER_LEN as int, 8 + 8 * i, 16 + 8 * i);
    lemma_u64_at(buf, 8 + 8 * i, vs[i]);
}

proof fn lemma_signed_at(buf: Seq<u8>, off: int, v: i32)
    requires
        0 <= off,
        off + 4 <= buf.len(),
        buf.subrange(off, off + 4) == i32_bytes(v),
    ensures
        signed32(u32_at(buf, off)) == v,
{
    lemma_u32_at(buf, off, unsigned32(v));
}

/// The parts of a stored header around its numbers.
proof fn lemma_bounds_at(buf: Seq<u8>, h: Header)
    requires
        buf.len() >= HEADER_LEN,
        buf.subrange(0, HEADER_LEN as int) == header_bytes(h),
    ensures
        buf.subrange(102, 127) == header_bounds(h),
        buf.subrange(96, 102) == header_flags(h),
        buf.subrange(0, 7) == magic(),
        buf[7] == 3,
{
    let start = magic() + seq![3u8];
    let nums = u64s_bytes(header_numbers(h));
    let flags = header_flags(h);
    let bounds = header_bounds(h);
    lemma_u64s_len(header_numbers(h));
    lemma_bounds_len(h);
    assert(header_bytes(h) == start + nums + flags + bounds);
    lemma_cut_middle(start + nums, flags, bounds, 0, 6);
    lemma_cut_prefix(buf, HEADER_LEN as int, 96, 102);
    assert(flags.subrange(0, 6) =~= flags);
    lemma_cut_middle(start + nums + flags, bounds, Seq::empty(), 0, 25);
    assert(start + nums + flags + bounds + Seq::<u8>::empty() =~= start + nums + flags + bounds);
    lemma_cut_prefix(buf, HEADER_LEN as int, 102, 127);
    assert(bounds.subrange(0, 25) =~= bounds);
    assert(header_bytes(h) =~= start + (nums + flags + bounds));
    assert(header_bytes(h).subrange(0, 8) =~= start);
    lemma_cut_prefix(buf, HEADER_LEN as int, 0, 8);
    assert(buf.subrange(0, 7) =~= start.subrange(0, 7));
    assert(start.subrange(0, 7) =~= magic());
    assert(start[7] == buf.subrange(0, 8)[7]);
}

/// Parsing an archive that starts with a stored header gives the header back.
pub proof fn header_reads_back(buf: Seq<u8>, h: Header)
    requires
        buf.len() >= HEADER_LEN,
        buf.subrange(0, HEADER_LEN as int) == header_bytes(h),
    ensures
        parsed_header(buf) == Ok::<Header, PmtErrorView>(h),
{
    let vs = header_numbers(h);
    lemma_number_at(buf, h, 0);
    lemma_number_at(buf, h, 1);
    lemma_number_at(buf, h, 2);
    lemma_number_at(buf, h, 3);
    lemma_number_at(buf, h, 4);
    lemma_number_at(buf, h, 5);
    lemma_number_at(buf, h, 6);
    lemma_number_at(buf, h, 7);
    lemma_number_at(buf, h, 8);
    lemma_number_at(buf, h, 9);
    lemma_number_at(buf, h, 10);
    lemma_bounds_at(buf, h);
    lemma_bounds_len(h);
    let flags = buf.subrange(96, 102);
    assert(flags[0] == buf[96] && flags[1] == buf[97] && flags[2] == buf[98] && flags[3] == buf[99]
        && flags[4] == buf[100] && flags[5] == buf[101]);
    compression_reads_back(h.internal_compression);
    compression_reads_back(h.tile_compression);
    let b = buf.subrange(102, 127);
    assert forall|k: int| 102 <= k < 127 implies buf[k] == header_bounds(h)[k - 102] by {
        assert(b[k - 102] == buf[k]);
    }
    assert(buf.subrange(102, 106) =~= i32_bytes(h.min_lon_e7));
    assert(buf.subrange(106, 110) =~= i32_bytes(h.min_lat_e7));
    assert(buf.subrange(110, 114) =~= i32_bytes(h.max_lon_e7));
    assert(buf.subrange(114, 118) =~= i32_bytes(h.max_lat_e7));
    assert(buf[118] == header_bounds(h)[16]);
    assert(buf.subrange(119, 123) =~= i32_bytes(h.center_lon_e7));
    assert(buf.subrange(123, 127) =~= i32_bytes(h.center_lat_e7));
    lemma_signed_at(buf, 102, h.min_lon_e7);
    lemma_signed_at(buf, 106, h.min_lat_e7);
    lemma_signed_at(buf, 110, h.max_lon_e7);
    lemma_signed_at(buf, 114, h.max_lat_e7);
    lemma_signed_at(buf, 119, h.center_lon_e7);
    lemma_signed_at(buf, 123, h.center_lat_e7);
}

fn starts_with_magic(buf: &[u8]) -> (r: bool)
    requires
        buf.len() >= 7,
    ensures
        r == (buf@.subrange(0, 7) == magic()),
{
    let r: bool = buf[0] == 0x50 && buf[1] == 0x4d && buf[2] == 0x54 && buf[3] == 0x69 && buf[4]
        == 0x6c && buf[5] == 0x65 && buf[6] == 0x73;
    proof {
        let s = buf@.subrange(0, 7);
        assert(s[0] == buf@[0] && s[1] == buf@[1] && s[2] == buf@[2] && s[3] == buf@[3] && s[4]
            == buf@[4] && s[5] == buf@[5] && s[6] == buf@[6]);
        if r {
            assert(s =~= magic());
        }
    }
    r
}

impl Header {
    /// Read the header at the start of an archive.
    pub fn parse(buf: &[u8]) -> (r: Result<Header, PmtError>)
        ensures
            match parsed_header(buf@) {
                Ok(h) => r == Ok::<Header, PmtError>(h),
                Err(e) => r matches Err(x) && x@ == e,
            },
    {
        if buf.len() < HEADER_LEN {
            return Err(PmtError::BadMagic);
        }
        if !starts_with_magic(buf) {
            return Err(PmtError::BadMagic);
        }
        let version: u8 = read_u8(buf, 7);
        if version != 3 {
            return Err(PmtError::UnsupportedVersion(version));
        }
        Ok(
            Header {
                root_dir_offset: read_u64_le(buf, 8),
                root_dir_len: read_u64_le(buf, 16),
                metadata_offset: read_u64_le(buf, 24),
                metadata_len: read_u64_le(buf, 32),
                leaf_dirs_offset: read_u64_le(buf, 40),
                leaf_dirs_len: read_u64_le(buf, 48),
                tile_data_offset: read_u64_le(buf, 56),
                tile_data_len: read_u64_le(buf, 64),
                addressed_tiles: read_u64_le(buf, 72),
                tile_entries: read_u64_le(buf, 80),
                tile_contents: read_u64_le(buf, 88),
                clustered: read_u8(buf, 96) == 1,
                internal_compression: Compression::from_u8(read_u8(buf, 97)),
                tile_compression: Compression::from_u8(read_u8(buf, 98)),
                tile_type: read_u8(buf, 99),
                min_zoom: read_u8(buf, 100),
                max_zoom: read_u8(buf, 101),
                min_lon_e7: to_signed32(read_u32_le(buf, 102)),
                min_lat_e7: to_signed32(read_u32_le(buf, 106)),
                max_lon_e7: to_signed32(read_u32_le(buf, 110)),
                max_lat_e7: to_signed32(read_u32_le(buf, 114)),
                center_zoom: read_u8(buf, 118),
                center_lon_e7: to_signed32(read_u32_le(buf, 119)),
                center_lat_e7: to_signed32(read_u32_le(buf, 123)),
            },
        )
    }

    fn write_numbers(&self, buf: &mut Vec<u8>)
        ensures
            final(buf)@ == old(buf)@ + u64s_bytes(header_numbers(*self)),
    {
        let vs: Vec<u64> = vec![
            self.root_dir_offset,
            self.root_dir_len,
            self.metadata_offset,
            self.metadata_len,
            self.leaf_dirs_offset,
            self.leaf_dirs_len,
            self.tile_data_offset,
            self.tile_data_len,
            self.addressed_tiles,
            self.tile_entries,
            self.tile_contents,
        ];
        assert(vs@ =~= header_numbers(*self));
        write_u64s(buf, &vs);
    }

    fn write_flags(&self, buf: &mut Vec<u8>)
        ensures
            final(buf)@ == old(buf)@ + header_flags(*self),
    {
        buf.push(if self.clustered { 1u8 } else { 0u8 });
        buf.push(self.internal_compression.code());
        buf.push(self.tile_compression.code());
        buf.push(self.tile_type);
        buf.push(self.min_zoom);
        buf.push(self.max_zoom);
        assert(buf@ =~= old(buf)@ + header_flags(*self));
    }

    fn write_bounds(&self, buf: &mut Vec<u8>)
        ensures
            final(buf)@ == old(buf)@ + header_bounds(*self),
    {
        write_i32_le(buf, self.min_lon_e7);
        write_i32_le(buf, self.min_lat_e7);
        write_i32_le(buf, self.max_lon_e7);
        write_i32_le(buf, self.max_lat_e7);
        buf.push(self.center_zoom);
        write_i32_le(buf, self.center_lon_e7);
        write_i32_le(buf, self.center_lat_e7);
        assert(buf@ =~= old(buf)@ + header_bounds(*self));
    }

    /// The stored form of the header.
    pub fn encode(&self) -> (buf: Vec<u8>)
        ensures
            buf@ == header_bytes(*self),
    {
        let mut buf: Vec<u8> = vec![0x50, 0x4d, 0x54, 0x69, 0x6c, 0x65, 0x73, 3];
        assert(buf@ =~= magic() + seq![3u8]);
        self.write_numbers(&mut buf);
        self.write_flags(&mut buf);
        self.write_bounds(&mut buf);
        buf
    }
}

fn write_u64s(buf: &mut Vec<u8>, vs: &Vec<u64>)
    ensures
        final(buf)@ == old(buf)@ + u64s_bytes(vs@),
{
    let mut i: usize = 0;
    proof {
        assert(buf@ + u64s_bytes(vs@.take(0)) =~= buf@);
    }
    while i < vs.len()
        invariant
            i <= vs.len(),
            buf@ == old(buf)@ + u64s_bytes(vs@.take(i as int)),
        decreases vs.len() - i,
    {
        write_u64_le(buf, vs[i]);
        proof {
            assert(vs@.take(i + 1).drop_last() =~= vs@.take(i as int));
            assert(buf@ =~= old(buf)@ + u64s_bytes(vs@.take(i + 1)));
        }
        i = i + 1;
    }
    proof {
        assert(vs@.take(i as int) =~= vs@);
    }
}

} // verus!
