//! Archive directories: which tile lies where.
//!
//! A directory is stored column by column, every number as a varint: the
//! number of entries, the differences of the tile identifiers, the run
//! lengths, the lengths, the offsets. An offset is stored one higher; a stored
//! zero stands for "right behind the previous entry".

use vstd::prelude::*;

use crate::le::low32;
use crate::pmtiles::{PmtError, PmtErrorView};
use crate::varint::{
    lemma_varint_end, lemma_varints_end, read_varint, read_varints, varint_at, varint_bytes,
    varint_read_back, varints_at, varints_bytes, varints_read_back, write_varint,
};

verus! {

/// A single decoded directory entry.
#[derive(Debug, Clone, Copy, PartialEq, Eq, Structural)]
pub struct Entry {
    pub tile_id: u64,
    pub offset: u64,
    pub length: u32,
    /// Zero for a leaf directory, else the number of tiles in the run.
    pub run_length: u32,
}

/// A tile to be listed: where its bytes lie in the tile data section.
#[derive(Debug, Clone, Copy, PartialEq, Eq, Structural)]
pub struct DirEntry {
    pub tile_id: u64,
    pub offset: u64,
    pub len: u32,
}

/// The four columns of a stored directory.
pub struct Columns {
    pub deltas: Seq<u64>,
    pub runs: Seq<u64>,
    pub lengths: Seq<u64>,
    pub offsets: Seq<u64>,
}

/// The columns that can be read from `data`, if none of them breaks off.
pub open spec fn directory_columns(data: Seq<u8>) -> Option<Columns> {
    let count = varint_at(data, 0);
    match count.0 {
        None => None,
        Some(n) => {
            let deltas = varints_at(data, count.1, n as int);
            let runs = varints_at(data, deltas.1, n as int);
            let lengths = varints_at(data, runs.1, n as int);
            let offsets = varints_at(data, lengths.1, n as int);
            match (deltas.0, runs.0, lengths.0, offsets.0) {
                (Some(d), Some(r), Some(l), Some(o)) => Some(
                    Columns { deltas: d, runs: r, lengths: l, offsets: o },
                ),
                _ => None,
            }
        },
    }
}

/// The sum of the first `n` numbers.
pub open spec fn running_sum(vs: Seq<u64>, n: int) -> int
    decreases n,
{
    if n <= 0 {
        0
    } else {
        running_sum(vs, n - 1) + vs[n - 1]
    }
}

/// Where the bytes of entry `i` start. Nothing lies in front of the first entry, so a
/// stored zero there stands for the start.
pub open spec fn resolved_offset(c: Columns, i: int) -> int
    decreases i,
{
    if c.offsets[i] > 0 {
        c.offsets[i] - 1
    } else if i > 0 {
        resolved_offset(c, i - 1) + low32(c.lengths[i - 1] as int)
    } else {
        0
    }
}

/// Every tile identifier and every offset fits in 64 bits.
pub open spec fn columns_fit(c: Columns) -> bool {
    &&& running_sum(c.deltas, c.deltas.len() as int) <= u64::MAX
    &&& forall|i: int| 0 <= i < c.deltas.len() ==> #[trigger] resolved_offset(c, i) <= u64::MAX
}

/// Entry `i` of a directory.
pub open spec fn entry_at(c: Columns, i: int) -> Entry {
    Entry {
        tile_id: running_sum(c.deltas, i + 1) as u64,
        offset: resolved_offset(c, i) as u64,
        length: low32(c.lengths[i] as int),
        run_length: low32(c.runs[i] as int),
    }
}

/// What decoding `data` gives; nothing where a number outgrows 64 bits.
pub open spec fn decoded_directory(data: Seq<u8>) -> Option<Result<Seq<Entry>, PmtErrorView>> {
    match directory_columns(data) {
        None => Some(Err(PmtErrorView::CorruptDirectory)),
        Some(c) => if columns_fit(c) {
            Some(Ok(Seq::new(c.deltas.len(), |i: int| entry_at(c, i))))
        } else {
            None
        },
    }
}

/// The entries are in ascending order of their identifiers.
pub open spec fn sorted_entries(dir: Seq<Entry>) -> bool {
    forall|i: int, j: int| 0 <= i <= j < dir.len() ==> dir[i].tile_id <= dir[j].tile_id
}

/// The tiles are in ascending order of their identifiers.
pub open spec fn sorted_dir(es: Seq<DirEntry>) -> bool {
    forall|i: int, j: int| 0 <= i <= j < es.len() ==> es[i].tile_id <= es[j].tile_id
}

/// Tile `i` lies right behind the tile listed before it.
pub open spec fn contiguous(es: Seq<DirEntry>, i: int) -> bool {
    i > 0 && es[i].offset == es[i - 1].offset + es[i - 1].len
}

/// The stored form of an offset. The largest one cannot be stored one higher.
pub open spec fn stored_offset(offset: u64) -> u64 {
    if offset < u64::MAX {
        (offset + 1) as u64
    } else {
        offset
    }
}

/// Every offset can be stored.
pub open spec fn offsets_fit(es: Seq<DirEntry>) -> bool {
    forall|i: int|
        0 <= i < es.len() ==> (#[trigger] es[i]).offset < u64::MAX || contiguous(es, i)
}

/// The columns that list `es`.
pub open spec fn listed_columns(es: Seq<DirEntry>) -> Columns {
    Columns {
        deltas: Seq::new(
            es.len(),
            |i: int|
                if i == 0 {
                    es[0].tile_id
                } else {
                    (es[i].tile_id - es[i - 1].tile_id) as u64
                },
        ),
        runs: Seq::new(es.len(), |i: int| 1u64),
        lengths: Seq::new(es.len(), |i: int| es[i].len as u64),
        offsets: Seq::new(
            es.len(),
            |i: int|
                if contiguous(es, i) {
                    0u64
                } else {
                    stored_offset(es[i].offset)
                },
        ),
    }
}

/// The stored form of a directory that lists `es`, one tile per run.
pub open spec fn directory_bytes(es: Seq<DirEntry>) -> Seq<u8> {
    let c = listed_columns(es);
    varint_bytes(es.len() as int) + varints_bytes(c.deltas) + varints_bytes(c.runs) + varints_bytes(
        c.lengths,
    ) + varints_bytes(c.offsets)
}

/// The entries that decoding a listing of `es` gives.
pub open spec fn listed_entries(es: Seq<DirEntry>) -> Seq<Entry> {
    Seq::new(
        es.len(),
        |i: int|
            Entry {
                tile_id: es[i].tile_id,
                offset: es[i].offset,
                length: es[i].len,
                run_length: 1,
            },
    )
}

proof fn lemma_running_sum_monotone(vs: Seq<u64>, a: int, b: int)
    requires
        0 <= a <= b,
    ensures
        0 <= running_sum(vs, a) <= running_sum(vs, b),
    decreases b,
{
    if a < b {
        lemma_running_sum_monotone(vs, a, b - 1);
    } else if a > 0 {
        lemma_running_sum_monotone(vs, a - 1, a - 1);
    }
}

/// A decoded directory is in ascending order.
pub proof fn decoded_directory_is_sorted(data: Seq<u8>)
    ensures
        decoded_directory(data) matches Some(Ok(dir)) ==> sorted_entries(dir),
{
    if let Some(Ok(dir)) = decoded_directory(data) {
        let c = directory_columns(data)->0;
        assert forall|i: int, j: int| 0 <= i <= j < dir.len() implies dir[i].tile_id
            <= dir[j].tile_id by {
            lemma_running_sum_monotone(c.deltas, i + 1, j + 1);
            lemma_running_sum_monotone(c.deltas, j + 1, c.deltas.len() as int);
        }
    }
}

proof fn lemma_listed_sum(es: Seq<DirEntry>, n: int)
    requires
        sorted_dir(es),
        0 < n <= es.len(),
    ensures
        running_sum(listed_columns(es).deltas, n) == es[n - 1].tile_id,
    decreases n,
{
    if n > 1 {
        lemma_listed_sum(es, n - 1);
    } else {
        reveal_with_fuel(running_sum, 2);
    }
}

proof fn lemma_listed_offset(es: Seq<DirEntry>, i: int)
    requires
        offsets_fit(es),
        0 <= i < es.len(),
    ensures
        resolved_offset(listed_columns(es), i) == es[i].offset,
    decreases i,
{
    assert(es[i].offset < u64::MAX || contiguous(es, i));
    if contiguous(es, i) {
        lemma_listed_offset(es, i - 1);
        assert(low32(es[i - 1].len as int) == es[i - 1].len);
    }
}

proof fn lemma_listed_columns_read_back(data: Seq<u8>, es: Seq<DirEntry>)
    requires
        es.len() <= u64::MAX,
        data == directory_bytes(es),
    ensures
        directory_columns(data) == Some(listed_columns(es)),
{
    let c = listed_columns(es);
    let n = es.len() as u64;
    let p0 = varint_bytes(n as int);
    let p1 = varints_bytes(c.deltas);
    let p2 = varints_bytes(c.runs);
    let p3 = varints_bytes(c.lengths);
    let p4 = varints_bytes(c.offsets);
    assert(data == p0 + p1 + p2 + p3 + p4);
    let e0 = p0.len() as int;
    let e1 = e0 + p1.len();
    let e2 = e1 + p2.len();
    let e3 = e2 + p3.len();
    let e4 = e3 + p4.len();
    assert(data.subrange(0, e0) =~= p0);
    varint_read_back(data, 0, n);
    assert(data.subrange(e0, e1) =~= p1);
    varints_read_back(data, e0, c.deltas);
    assert(data.subrange(e1, e2) =~= p2);
    varints_read_back(data, e1, c.runs);
    assert(data.subrange(e2, e3) =~= p3);
    varints_read_back(data, e2, c.lengths);
    assert(data.subrange(e3, e4) =~= p4);
    varints_read_back(data, e3, c.offsets);
}

/// Decoding a stored listing gives back the tiles that were listed, wherever their
/// bytes lie; several of them may share their bytes.
pub proof fn directory_reads_back(es: Seq<DirEntry>)
    requires
        es.len() <= u64::MAX,
        sorted_dir(es),
        offsets_fit(es),
    ensures
        decoded_directory(directory_bytes(es)) == Some(
            Ok::<Seq<Entry>, PmtErrorView>(listed_entries(es)),
        ),
{
    let c = listed_columns(es);
    lemma_listed_columns_read_back(directory_bytes(es), es);
    assert(columns_fit(c)) by {
        if es.len() > 0 {
            lemma_listed_sum(es, es.len() as int);
        }
        assert forall|i: int| 0 <= i < c.deltas.len() implies #[trigger] resolved_offset(c, i)
            <= u64::MAX by {
            lemma_listed_offset(es, i);
        }
    }
    let got = Seq::new(c.deltas.len(), |i: int| entry_at(c, i));
    assert(got =~= listed_entries(es)) by {
        assert forall|i: int| 0 <= i < es.len() implies got[i] == listed_entries(es)[i] by {
            lemma_listed_sum(es, i + 1);
            lemma_listed_offset(es, i);
        }
    }
}

/// The running sums of the differences, or nothing when one outgrows 64 bits.
fn sum_deltas(deltas: &Vec<u64>) -> (r: Option<Vec<u64>>)
    ensures
        match r {
            Some(ids) => {
                &&& running_sum(deltas@, deltas.len() as int) <= u64::MAX
                &&& ids.len() == deltas.len()
                &&& forall|i: int| 0 <= i < ids.len() ==> ids[i] == running_sum(deltas@, i + 1)
            },
            None => running_sum(deltas@, deltas.len() as int) > u64::MAX,
        },
{
    let mut ids: Vec<u64> = Vec::new();
    let mut last: u64 = 0;
    let mut i: usize = 0;
    while i < deltas.len()
        invariant
            i <= deltas.len(),
            ids.len() == i,
            last == running_sum(deltas@, i as int),
            forall|k: int| 0 <= k < i ==> ids[k] == running_sum(deltas@, k + 1),
        decreases deltas.len() - i,
    {
        proof {
            lemma_running_sum_monotone(deltas@, i + 1, deltas.len() as int);
        }
        match last.checked_add(deltas[i]) {
            Some(next) => {
                last = next;
            },
            None => {
                return None;
            },
        }
        ids.push(last);
        i = i + 1;
    }
    Some(ids)
}

/// The resolved offsets, or nothing when one outgrows 64 bits.
fn resolve_offsets(raw: &Vec<u64>, lengths: &Vec<u64>, Ghost(c): Ghost<Columns>) -> (r: Option<
    Vec<u64>,
>)
    requires
        c.offsets == raw@,
        c.lengths == lengths@,
        raw.len() == lengths.len(),
        c.deltas.len() == raw.len(),
    ensures
        match r {
            Some(offs) => {
                &&& offs.len() == raw.len()
                &&& forall|i: int| 0 <= i < offs.len() ==> offs[i] == resolved_offset(c, i)
            },
            None => exists|i: int|
                0 <= i < raw.len() && #[trigger] resolved_offset(c, i) > u64::MAX,
        },
{
    let mut offs: Vec<u64> = Vec::new();
    let mut i: usize = 0;
    while i < raw.len()
        invariant
            i <= raw.len(),
            raw.len() == lengths.len(),
            c.offsets == raw@,
            c.lengths == lengths@,
            offs.len() == i,
            forall|k: int| 0 <= k < i ==> offs[k] == resolved_offset(c, k),
        decreases raw.len() - i,
    {
        if raw[i] > 0 {
            offs.push(raw[i] - 1);
        } else if i > 0 {
            let prev_len: u64 = lengths[i - 1] % 0x1_0000_0000;
            proof {
                assert(c.offsets[i as int] == 0);
                assert(c.lengths[i - 1] == lengths[i - 1]);
                assert(low32(c.lengths[i - 1] as int) == prev_len);
                assert(offs[i - 1] == resolved_offset(c, i - 1));
                assert(resolved_offset(c, i as int) == offs[i - 1] + prev_len);
            }
            match offs[i - 1].checked_add(prev_len) {
                Some(o) => {
                    offs.push(o);
                },
                None => {
                    return None;
                },
            }
        } else {
            offs.push(0);
        }
        i = i + 1;
    }
    Some(offs)
}

/// Decode a directory; `None` where a number outgrows 64 bits.
pub fn try_decode_directory(data: &[u8]) -> (r: Option<Result<Vec<Entry>, PmtError>>)
    ensures
        match decoded_directory(data@) {
            None => r is None,
            Some(Ok(dir)) => r matches Some(Ok(v)) && v@ == dir,
            Some(Err(e)) => r matches Some(Err(x)) && x@ == e,
        },
{
    let mut pos: usize = 0;
    let n: u64 = match read_varint(data, &mut pos) {
        Ok(n) => n,
        Err(e) => return Some(Err(e)),
    };
    let deltas: Vec<u64> = match read_varints(data, &mut pos, n) {
        Ok(v) => v,
        Err(e) => return Some(Err(e)),
    };
    let runs: Vec<u64> = match read_varints(data, &mut pos, n) {
        Ok(v) => v,
        Err(e) => return Some(Err(e)),
    };
    let lengths: Vec<u64> = match read_varints(data, &mut pos, n) {
        Ok(v) => v,
        Err(e) => return Some(Err(e)),
    };
    let raw: Vec<u64> = match read_varints(data, &mut pos, n) {
        Ok(v) => v,
        Err(e) => return Some(Err(e)),
    };
    let ghost c = Columns { deltas: deltas@, runs: runs@, lengths: lengths@, offsets: raw@ };
    proof {
        assert(directory_columns(data@) == Some(c));
        let count = varint_at(data@, 0);
        lemma_varint_end(data@, 0);
        lemma_varints_end(data@, count.1, n as int);
        let p1 = varints_at(data@, count.1, n as int).1;
        lemma_varints_end(data@, p1, n as int);
        let p2 = varints_at(data@, p1, n as int).1;
        lemma_varints_end(data@, p2, n as int);
        let p3 = varints_at(data@, p2, n as int).1;
        lemma_varints_end(data@, p3, n as int);
    }
    let ids: Vec<u64> = match sum_deltas(&deltas) {
        Some(ids) => ids,
        None => return None,
    };
    let offs: Vec<u64> = match resolve_offsets(&raw, &lengths, Ghost(c)) {
        Some(offs) => offs,
        None => return None,
    };
    let mut dir: Vec<Entry> = Vec::new();
    let mut i: usize = 0;
    while i < ids.len()
        invariant
            i <= ids.len(),
            ids.len() == offs.len(),
            ids.len() == lengths.len(),
            ids.len() == runs.len(),
            c == (Columns { deltas: deltas@, runs: runs@, lengths: lengths@, offsets: raw@ }),
            forall|k: int| 0 <= k < ids.len() ==> ids[k] == running_sum(deltas@, k + 1),
            forall|k: int| 0 <= k < offs.len() ==> offs[k] == resolved_offset(c, k),
            dir.len() == i,
            forall|k: int| 0 <= k < i ==> dir[k] == entry_at(c, k),
        decreases ids.len() - i,
    {
        dir.push(
            Entry {
                tile_id: ids[i],
                offset: offs[i],
                length: (lengths[i] % 0x1_0000_0000) as u32,
                run_length: (runs[i] % 0x1_0000_0000) as u32,
            },
        );
        i = i + 1;
    }
    proof {
        assert(dir@ =~= Seq::new(c.deltas.len(), |k: int| entry_at(c, k)));
    }
    Some(Ok(dir))
}

/// Decode a directory.
pub fn decode_directory(data: &[u8]) -> (r: Result<Vec<Entry>, PmtError>)
    requires
        decoded_directory(data@) is Some,
    ensures
        match decoded_directory(data@) {
            None => false,
            Some(Ok(dir)) => r matches Ok(v) && v@ == dir,
            Some(Err(e)) => r matches Err(x) && x@ == e,
        },
{
    try_decode_directory(data).unwrap()
}

fn write_varints(buf: &mut Vec<u8>, vs: &Vec<u64>)
    ensures
        final(buf)@ == old(buf)@ + varints_bytes(vs@),
{
    let mut i: usize = 0;
    proof {
        assert(buf@ + varints_bytes(vs@.take(0)) =~= buf@);
    }
    while i < vs.len()
        invariant
            i <= vs.len(),
            buf@ == old(buf)@ + varints_bytes(vs@.take(i as int)),
        decreases vs.len() - i,
    {
        write_varint(buf, vs[i]);
        proof {
            assert(vs@.take(i + 1).drop_last() =~= vs@.take(i as int));
            assert(buf@ =~= old(buf)@ + varints_bytes(vs@.take(i + 1)));
        }
        i = i + 1;
    }
    proof {
        assert(vs@.take(i as int) =~= vs@);
    }
}

/// Encode the directory that lists `entries`.
pub fn build_directory(entries: &[DirEntry]) -> (buf: Vec<u8>)
    requires
        sorted_dir(entries@),
    ensures
        buf@ == directory_bytes(entries@),
{
    let mut deltas: Vec<u64> = Vec::new();
    let mut runs: Vec<u64> = Vec::new();
    let mut lengths: Vec<u64> = Vec::new();
    let mut offsets: Vec<u64> = Vec::new();
    let ghost c = listed_columns(entries@);
    let mut i: usize = 0;
    while i < entries.len()
        invariant
            i <= entries.len(),
            sorted_dir(entries@),
            c == listed_columns(entries@),
            deltas@ == c.deltas.take(i as int),
            runs@ == c.runs.take(i as int),
            lengths@ == c.lengths.take(i as int),
            offsets@ == c.offsets.take(i as int),
        decreases entries.len() - i,
    {
        let e = entries[i];
        let stored: u64 = if e.offset < u64::MAX {
            e.offset + 1
        } else {
            e.offset
        };
        if i == 0 {
            deltas.push(e.tile_id);
            offsets.push(stored);
        } else {
            let prev = entries[i - 1];
            assert(entries@[i - 1].tile_id <= entries@[i as int].tile_id);
            deltas.push(e.tile_id - prev.tile_id);
            let behind: bool = match prev.offset.checked_add(prev.len as u64) {
                Some(end) => e.offset == end,
                None => false,
            };
            assert(behind == contiguous(entries@, i as int));
            if behind {
                offsets.push(0);
            } else {
                offsets.push(stored);
            }
        }
        runs.push(1);
        lengths.push(e.len as u64);
        i = i + 1;
        proof {
            assert(deltas@ =~= c.deltas.take(i as int));
            assert(runs@ =~= c.runs.take(i as int));
            assert(lengths@ =~= c.lengths.take(i as int));
            assert(offsets@ =~= c.offsets.take(i as int));
        }
    }
    proof {
        assert(c.deltas.take(i as int) =~= c.deltas);
        assert(c.runs.take(i as int) =~= c.runs);
        assert(c.lengths.take(i as int) =~= c.lengths);
        assert(c.offsets.take(i as int) =~= c.offsets);
    }
    let mut buf: Vec<u8> = Vec::new();
    write_varint(&mut buf, entries.len() as u64);
    write_varints(&mut buf, &deltas);
    write_varints(&mut buf, &runs);
    write_varints(&mut buf, &lengths);
    write_varints(&mut buf, &offsets);
    proof {
        assert(buf@ =~= directory_bytes(entries@));
    }
    buf
}

/// The columns of a directory stand one behind the other: how many entries there are,
/// then the differences of the identifiers, the runs, the lengths and the offsets.
pub proof fn columns_stand_one_behind_the_other(c: Columns)
    requires
        c.deltas.len() <= u64::MAX,
        c.runs.len() == c.deltas.len(),
        c.lengths.len() == c.deltas.len(),
        c.offsets.len() == c.deltas.len(),
    ensures
        directory_columns(
            varint_bytes(c.deltas.len() as int) + varints_bytes(c.deltas) + varints_bytes(c.runs)
                + varints_bytes(c.lengths) + varints_bytes(c.offsets),
        ) == Some(c),
{
    let n = c.deltas.len() as u64;
    let p0 = varint_bytes(n as int);
    let p1 = varints_bytes(c.deltas);
    let p2 = varints_bytes(c.runs);
    let p3 = varints_bytes(c.lengths);
    let p4 = varints_bytes(c.offsets);
    let data = p0 + p1 + p2 + p3 + p4;
    let e0 = p0.len() as int;
    let e1 = e0 + p1.len();
    let e2 = e1 + p2.len();
    let e3 = e2 + p3.len();
    let e4 = e3 + p4.len();
    assert(data.subrange(0, e0) =~= p0);
    varint_read_back(data, 0, n);
    assert(data.subrange(e0, e1) =~= p1);
    varints_read_back(data, e0, c.deltas);
    assert(data.subrange(e1, e2) =~= p2);
    varints_read_back(data, e1, c.runs);
    assert(data.subrange(e2, e3) =~= p3);
    varints_read_back(data, e2, c.lengths);
    assert(data.subrange(e3, e4) =~= p4);
    varints_read_back(data, e3, c.offsets);
}

/// Each entry of a directory starts from the one before: its identifier is greater by the
/// stored difference, and its bytes start where those of the one before end, unless an
/// offset is stored, which is one higher than it says. Runs and lengths are as stored.
pub proof fn entries_start_from_the_one_before(data: Seq<u8>, c: Columns, i: int)
    requires
        directory_columns(data) == Some(c),
        decoded_directory(data) is Some,
        0 <= i < c.deltas.len(),
        c.lengths[i] <= u32::MAX,
        c.runs[i] <= u32::MAX,
    ensures
        decoded_directory(data) matches Some(Ok(dir)) && {
            &&& dir.len() == c.deltas.len()
            &&& dir[i].length == c.lengths[i]
            &&& dir[i].run_length == c.runs[i]
            &&& i == 0 ==> dir[i].tile_id == c.deltas[0]
            &&& i > 0 ==> dir[i].tile_id == dir[i - 1].tile_id + c.deltas[i]
            &&& c.offsets[i] > 0 ==> dir[i].offset == c.offsets[i] - 1
            &&& c.offsets[i] == 0 && i > 0 ==> dir[i].offset == dir[i - 1].offset + dir[i - 1].length
            &&& c.offsets[i] == 0 && i == 0 ==> dir[i].offset == 0
        },
{
    lemma_running_sum_monotone(c.deltas, i + 1, c.deltas.len() as int);
    lemma_running_sum_monotone(c.deltas, i, c.deltas.len() as int);
    lemma_running_sum_monotone(c.deltas, 0, i);
    assert(running_sum(c.deltas, i + 1) == running_sum(c.deltas, i) + c.deltas[i]);
    assert(resolved_offset(c, i) <= u64::MAX);
    lemma_resolved_nonneg(c, i);
    if i > 0 {
        assert(resolved_offset(c, i - 1) <= u64::MAX);
        lemma_resolved_nonneg(c, i - 1);
    }
}

proof fn lemma_resolved_nonneg(c: Columns, i: int)
    requires
        0 <= i,
    ensures
        resolved_offset(c, i) >= 0,
    decreases i,
{
    if c.offsets[i] == 0 && i > 0 {
        lemma_resolved_nonneg(c, i - 1);
    }
}

/// A listing stores the difference of each identifier from the one before, runs of one
/// tile, the lengths, and each offset one higher than it is, or zero for a tile that
/// lies right behind the one before.
pub proof fn listings_store_differences(es: Seq<DirEntry>, i: int)
    requires
        sorted_dir(es),
        0 <= i < es.len(),
        es[i].offset < u64::MAX,
    ensures
        ({
            let c = listed_columns(es);
            &&& c.deltas.len() == es.len() && c.runs.len() == es.len()
            &&& c.lengths.len() == es.len() && c.offsets.len() == es.len()
            &&& i == 0 ==> c.deltas[i] == es[i].tile_id
            &&& i > 0 ==> c.deltas[i] == es[i].tile_id - es[i - 1].tile_id
            &&& c.runs[i] == 1
            &&& c.lengths[i] == es[i].len
            &&& i > 0 && es[i].offset == es[i - 1].offset + es[i - 1].len ==> c.offsets[i] == 0
            &&& i == 0 || es[i].offset != es[i - 1].offset + es[i - 1].len ==> c.offsets[i]
                == es[i].offset + 1
        }),
{
}

} // verus!
