//! The movie box: the descent from `moov` to each track's chunk-offset table, and the shifting of
//! the offsets that those tables hold.

use vstd::prelude::*;

use crate::codec::{be32, be64, read_u32, read_u64, u32_be, u64_be, write_u32, write_u64, FourCC};
use crate::codec::{lemma_be32_of_u32_be, lemma_be64_of_u64_be};
use crate::codec::{CO64, MDIA, MINF, STBL, STCO, TRAK};
use crate::error::ParseError;
use crate::header::{spec_parse_header, BoxHeader, BoxSize};

verus! {

/// The child box that starts at `pos` in a container whose body ends at `end`: its header, the
/// start of its body and its end.
pub open spec fn spec_child(s: Seq<u8>, pos: int, end: int) -> Result<
    (BoxHeader, int, int),
    ParseError,
> {
    match spec_parse_header(s.subrange(pos, end)) {
        Err(e) => Err(e),
        Ok(h) => match h.box_size {
            BoxSize::Size(v) => if pos + v > end {
                Err(ParseError::TruncatedBox)
            } else {
                Ok((h, pos + 8, pos + v))
            },
            BoxSize::Ext(v) => if pos + v > end {
                Err(ParseError::TruncatedBox)
            } else {
                Ok((h, pos + 16, pos + v))
            },
            BoxSize::UntilEof => Ok((h, pos + 8, end)),
        },
    }
}

/// Whether none of the children that fill `pos .. end` is of type `t1` or `t2`; a child of
/// either type is refused.
pub open spec fn spec_none_of(s: Seq<u8>, pos: int, end: int, t1: u32, t2: u32) -> Result<
    (),
    ParseError,
>
    decreases end - pos,
{
    if pos >= end {
        Ok(())
    } else {
        match spec_child(s, pos, end) {
            Err(e) => Err(e),
            Ok((h, a, b)) => if h.box_type.value == t1 || h.box_type.value == t2 {
                Err(ParseError::InvalidInput)
            } else if b <= pos {
                Err(ParseError::InvalidInput)
            } else {
                spec_none_of(s, b, end, t1, t2)
            },
        }
    }
}

/// The body of the one child of type `ty` among the children that fill `pos .. end`; a second
/// child of that type is refused.
pub open spec fn spec_find_child(s: Seq<u8>, pos: int, end: int, ty: u32) -> Result<
    (int, int),
    ParseError,
>
    decreases end - pos,
{
    if pos >= end {
        Err(ParseError::MissingRequiredBox(FourCC { value: ty }))
    } else {
        match spec_child(s, pos, end) {
            Err(e) => Err(e),
            Ok((h, a, b)) => if h.box_type.value == ty {
                match spec_none_of(s, b, end, ty, ty) {
                    Err(e) => Err(e),
                    Ok(_) => Ok((a, b)),
                }
            } else if b <= pos {
                Err(ParseError::InvalidInput)
            } else {
                spec_find_child(s, b, end, ty)
            },
        }
    }
}

/// The body of the one `stco` or `co64` child among the children that fill `pos .. end`, and
/// whether it is a `co64`; a second chunk-offset table is refused.
pub open spec fn spec_find_co(s: Seq<u8>, pos: int, end: int) -> Result<(bool, int, int), ParseError>
    decreases end - pos,
{
    if pos >= end {
        Err(ParseError::MissingRequiredBox(FourCC { value: STCO }))
    } else {
        match spec_child(s, pos, end) {
            Err(e) => Err(e),
            Ok((h, a, b)) => if h.box_type.value == STCO || h.box_type.value == CO64 {
                match spec_none_of(s, b, end, STCO, CO64) {
                    Err(e) => Err(e),
                    Ok(_) => Ok((h.box_type.value == CO64, a, b)),
                }
            } else if b <= pos {
                Err(ParseError::InvalidInput)
            } else {
                spec_find_co(s, b, end)
            },
        }
    }
}

/// Where the entries of a chunk-offset table lie.
pub struct TableLoc {
    /// Position of the first entry.
    pub start: int,
    /// Number of entries.
    pub count: int,
    /// Whether the entries are 64-bit (`co64`) rather than 32-bit (`stco`).
    pub wide: bool,
}

impl TableLoc {
    pub open spec fn width(self) -> int {
        if self.wide {
            8
        } else {
            4
        }
    }

    /// The largest value an entry can hold.
    pub open spec fn max(self) -> int {
        if self.wide {
            u64::MAX as int
        } else {
            u32::MAX as int
        }
    }

    /// Position just past the last entry.
    pub open spec fn end(self) -> int {
        self.start + self.count * self.width()
    }

    /// Position of entry `i`.
    pub open spec fn at(self, i: int) -> int {
        self.start + i * self.width()
    }

    /// The value of entry `i` in `s`.
    pub open spec fn entry(self, s: Seq<u8>, i: int) -> int {
        if self.wide {
            be64(s, self.at(i)) as int
        } else {
            be32(s, self.at(i)) as int
        }
    }
}

/// The entries of the chunk-offset table whose body is `a .. b`: a version and flags, an entry
/// count, then the entries.
pub open spec fn spec_table(s: Seq<u8>, a: int, b: int, wide: bool) -> Result<TableLoc, ParseError> {
    if b - a < 8 {
        Err(ParseError::TruncatedBox)
    } else {
        let count = be32(s, a + 4) as int;
        let w: int = if wide {
            8
        } else {
            4
        };
        if count * w > u32::MAX {
            Err(ParseError::InvalidInput)
        } else if count * w > b - a - 8 {
            Err(ParseError::TruncatedBox)
        } else {
            Ok(TableLoc { start: a + 8, count, wide })
        }
    }
}

/// The chunk-offset table of the track whose body is `a .. b`, found along
/// `mdia`, `minf`, `stbl`, then `stco` or `co64`.
#[verifier::opaque]
pub open spec fn spec_trak_table(s: Seq<u8>, a: int, b: int) -> Result<TableLoc, ParseError> {
    match spec_find_child(s, a, b, MDIA) {
        Err(e) => Err(e),
        Ok((a1, b1)) => match spec_find_child(s, a1, b1, MINF) {
            Err(e) => Err(e),
            Ok((a2, b2)) => match spec_find_child(s, a2, b2, STBL) {
                Err(e) => Err(e),
                Ok((a3, b3)) => match spec_find_co(s, a3, b3) {
                    Err(e) => Err(e),
                    Ok((wide, a4, b4)) => spec_table(s, a4, b4, wide),
                },
            },
        },
    }
}

/// The chunk-offset tables of the tracks among the children that fill `pos .. end`, in order.
pub open spec fn spec_moov_tables(s: Seq<u8>, pos: int, end: int) -> Result<
    Seq<TableLoc>,
    ParseError,
>
    decreases end - pos,
{
    if pos >= end {
        Ok(Seq::empty())
    } else {
        match spec_child(s, pos, end) {
            Err(e) => Err(e),
            Ok((h, a, b)) => if b <= pos {
                Err(ParseError::InvalidInput)
            } else if h.box_type.value == TRAK {
                match spec_trak_table(s, a, b) {
                    Err(e) => Err(e),
                    Ok(t) => match spec_moov_tables(s, b, end) {
                        Err(e) => Err(e),
                        Ok(ts) => Ok(seq![t] + ts),
                    },
                }
            } else {
                spec_moov_tables(s, b, end)
            },
        }
    }
}

/// What a movie box body must hold: the chunk-offset table of each track, with one track at least.
/// Every track is checked when the box is read, whether or not its offsets will move, so that a
/// movie box that is kept can always be rewritten. Each track must hold exactly one `mdia`, `minf`
/// and `stbl` along the way, and its sample table exactly one `stco` or `co64`: a second one is
/// refused with `InvalidInput`, as its offsets would otherwise be left behind.
pub open spec fn spec_parse_moov(s: Seq<u8>) -> Result<Seq<TableLoc>, ParseError> {
    match spec_moov_tables(s, 0, s.len() as int) {
        Err(e) => Err(e),
        Ok(ts) => if ts.len() == 0 {
            Err(ParseError::MissingRequiredBox(FourCC { value: TRAK }))
        } else {
            Ok(ts)
        },
    }
}

/// Where the entries of a chunk-offset table lie.
#[derive(Clone, Copy, Debug, PartialEq, Eq, Structural)]
pub struct ChunkTable {
    pub start: usize,
    pub count: usize,
    pub wide: bool,
}

impl View for ChunkTable {
    type V = TableLoc;

    open spec fn view(&self) -> TableLoc {
        TableLoc { start: self.start as int, count: self.count as int, wide: self.wide }
    }
}

/// Decodes the child box at `pos` of a container whose body ends at `end`.
fn parse_child(s: &[u8], pos: usize, end: usize) -> (r: Result<(BoxHeader, usize, usize), ParseError>)
    requires
        pos <= end <= s@.len(),
    ensures
        match r {
            Ok((h, a, b)) => spec_child(s@, pos as int, end as int) == Ok::<
                (BoxHeader, int, int),
                ParseError,
            >((h, a as int, b as int)),
            Err(e) => spec_child(s@, pos as int, end as int) == Err::<
                (BoxHeader, int, int),
                ParseError,
            >(e),
        },
{
    let h = match BoxHeader::parse_within(s, pos, end) {
        Ok(h) => h,
        Err(e) => return Err(e),
    };
    match h.box_size {
        BoxSize::Size(v) => if v as usize > end - pos {
            Err(ParseError::TruncatedBox)
        } else {
            Ok((h, pos + 8, pos + v as usize))
        },
        BoxSize::Ext(v) => if v > (end - pos) as u64 {
            Err(ParseError::TruncatedBox)
        } else {
            Ok((h, pos + 16, pos + v as usize))
        },
        BoxSize::UntilEof => Ok((h, pos + 8, end)),
    }
}

/// Checks that none of the children that fill `start .. end` is of type `t1` or `t2`.
fn none_of(s: &[u8], start: usize, end: usize, t1: u32, t2: u32) -> (r: Result<(), ParseError>)
    requires
        start <= end <= s@.len(),
    ensures
        r == spec_none_of(s@, start as int, end as int, t1, t2),
{
    let mut pos = start;
    while pos < end
        invariant
            start <= pos <= end <= s@.len(),
            spec_none_of(s@, start as int, end as int, t1, t2) == spec_none_of(
                s@,
                pos as int,
                end as int,
                t1,
                t2,
            ),
        decreases end - pos,
    {
        proof {
            lemma_child_within(s@, pos as int, end as int);
        }
        match parse_child(s, pos, end) {
            Err(e) => return Err(e),
            Ok((h, a, b)) => {
                if h.box_type.value == t1 || h.box_type.value == t2 {
                    return Err(ParseError::InvalidInput);
                }
                if b <= pos {
                    return Err(ParseError::InvalidInput);
                }
                pos = b;
            },
        }
    }
    Ok(())
}

/// Finds the body of the one child of type `ty` among the children that fill `start .. end`.
fn find_child(s: &[u8], start: usize, end: usize, ty: u32) -> (r: Result<(usize, usize), ParseError>)
    requires
        start <= end <= s@.len(),
    ensures
        match r {
            Ok((a, b)) => spec_find_child(s@, start as int, end as int, ty) == Ok::<
                (int, int),
                ParseError,
            >((a as int, b as int)),
            Err(e) => spec_find_child(s@, start as int, end as int, ty) == Err::<
                (int, int),
                ParseError,
            >(e),
        },
{
    let mut pos = start;
    while pos < end
        invariant
            start <= pos <= end <= s@.len(),
            spec_find_child(s@, start as int, end as int, ty) == spec_find_child(
                s@,
                pos as int,
                end as int,
                ty,
            ),
        decreases end - pos,
    {
        match parse_child(s, pos, end) {
            Err(e) => return Err(e),
            Ok((h, a, b)) => {
                if h.box_type.value == ty {
                    proof {
                        lemma_child_within(s@, pos as int, end as int);
                    }
                    return match none_of(s, b, end, ty, ty) {
                        Err(e) => Err(e),
                        Ok(_) => Ok((a, b)),
                    };
                }
                if b <= pos {
                    return Err(ParseError::InvalidInput);
                }
                pos = b;
            },
        }
    }
    Err(ParseError::MissingRequiredBox(FourCC { value: ty }))
}

/// Finds the body of the one `stco` or `co64` child among the children that fill `start .. end`.
fn find_co(s: &[u8], start: usize, end: usize) -> (r: Result<(bool, usize, usize), ParseError>)
    requires
        start <= end <= s@.len(),
    ensures
        match r {
            Ok((w, a, b)) => spec_find_co(s@, start as int, end as int) == Ok::<
                (bool, int, int),
                ParseError,
            >((w, a as int, b as int)),
            Err(e) => spec_find_co(s@, start as int, end as int) == Err::<
                (bool, int, int),
                ParseError,
            >(e),
        },
{
    let mut pos = start;
    while pos < end
        invariant
            start <= pos <= end <= s@.len(),
            spec_find_co(s@, start as int, end as int) == spec_find_co(s@, pos as int, end as int),
        decreases end - pos,
    {
        match parse_child(s, pos, end) {
            Err(e) => return Err(e),
            Ok((h, a, b)) => {
                if h.box_type.value == STCO || h.box_type.value == CO64 {
                    proof {
                        lemma_child_within(s@, pos as int, end as int);
                    }
                    return match none_of(s, b, end, STCO, CO64) {
                        Err(e) => Err(e),
                        Ok(_) => Ok((h.box_type.value == CO64, a, b)),
                    };
                }
                if b <= pos {
                    return Err(ParseError::InvalidInput);
                }
                pos = b;
            },
        }
    }
    Err(ParseError::MissingRequiredBox(FourCC { value: STCO }))
}

/// The entries of the chunk-offset table whose body is `a .. b`.
fn parse_table(s: &[u8], a: usize, b: usize, wide: bool) -> (r: Result<ChunkTable, ParseError>)
    requires
        a <= b <= s@.len(),
    ensures
        match r {
            Ok(t) => spec_table(s@, a as int, b as int, wide) == Ok::<TableLoc, ParseError>(t@),
            Err(e) => spec_table(s@, a as int, b as int, wide) == Err::<TableLoc, ParseError>(e),
        },
{
    if b - a < 8 {
        return Err(ParseError::TruncatedBox);
    }
    let count = read_u32(s, a + 4) as u64;
    let w: u64 = if wide {
        8
    } else {
        4
    };
    if count > u32::MAX as u64 / w {
        assert(count * w > u32::MAX) by (nonlinear_arith)
            requires
                count > u32::MAX as u64 / w,
                w > 0,
        ;
        return Err(ParseError::InvalidInput);
    }
    assert(count * w <= u32::MAX) by (nonlinear_arith)
        requires
            count <= u32::MAX as u64 / w,
            w > 0,
    ;
    if count * w > (b - a - 8) as u64 {
        return Err(ParseError::TruncatedBox);
    }
    Ok(ChunkTable { start: a + 8, count: count as usize, wide })
}

/// The chunk-offset table of the track whose body is `a .. b`.
fn trak_table(s: &[u8], a: usize, b: usize) -> (r: Result<ChunkTable, ParseError>)
    requires
        a <= b <= s@.len(),
    ensures
        match r {
            Ok(t) => spec_trak_table(s@, a as int, b as int) == Ok::<TableLoc, ParseError>(t@),
            Err(e) => spec_trak_table(s@, a as int, b as int) == Err::<TableLoc, ParseError>(e),
        },
{
    proof {
        reveal(spec_trak_table);
        lemma_find_child_within(s@, a as int, b as int, MDIA);
    }
    let (a1, b1) = match find_child(s, a, b, MDIA) {
        Ok(r) => r,
        Err(e) => return Err(e),
    };
    proof {
        lemma_find_child_within(s@, a1 as int, b1 as int, MINF);
    }
    let (a2, b2) = match find_child(s, a1, b1, MINF) {
        Ok(r) => r,
        Err(e) => return Err(e),
    };
    proof {
        lemma_find_child_within(s@, a2 as int, b2 as int, STBL);
    }
    let (a3, b3) = match find_child(s, a2, b2, STBL) {
        Ok(r) => r,
        Err(e) => return Err(e),
    };
    proof {
        lemma_find_co_within(s@, a3 as int, b3 as int);
    }
    let (wide, a4, b4) = match find_co(s, a3, b3) {
        Ok(r) => r,
        Err(e) => return Err(e),
    };
    parse_table(s, a4, b4, wide)
}

/// A child found in `pos .. end` lies within it, its body after its header.
pub proof fn lemma_child_within(s: Seq<u8>, pos: int, end: int)
    requires
        0 <= pos <= end <= s.len(),
    ensures
        spec_child(s, pos, end) is Ok ==> {
            let (h, a, b) = spec_child(s, pos, end)->Ok_0;
            pos + 8 <= a <= b <= end
        },
{
}

/// The body found by a search in `pos .. end` lies within it.
pub proof fn lemma_find_child_within(s: Seq<u8>, pos: int, end: int, ty: u32)
    requires
        0 <= pos <= end <= s.len(),
    ensures
        spec_find_child(s, pos, end, ty) is Ok ==> {
            let (a, b) = spec_find_child(s, pos, end, ty)->Ok_0;
            pos <= a <= b <= end
        },
    decreases end - pos,
{
    if pos < end {
        lemma_child_within(s, pos, end);
        if let Ok((h, a, b)) = spec_child(s, pos, end) {
            if h.box_type.value != ty && b > pos {
                lemma_find_child_within(s, b, end, ty);
            }
        }
    }
}

/// The body found by a search for `stco` or `co64` in `pos .. end` lies within it.
pub proof fn lemma_find_co_within(s: Seq<u8>, pos: int, end: int)
    requires
        0 <= pos <= end <= s.len(),
    ensures
        spec_find_co(s, pos, end) is Ok ==> {
            let (w, a, b) = spec_find_co(s, pos, end)->Ok_0;
            pos <= a <= b <= end
        },
    decreases end - pos,
{
    if pos < end {
        lemma_child_within(s, pos, end);
        if let Ok((h, a, b)) = spec_child(s, pos, end) {
            if h.box_type.value != STCO && h.box_type.value != CO64 && b > pos {
                lemma_find_co_within(s, b, end);
            }
        }
    }
}

/// `r` with the tables `p` put before those that it holds.
pub open spec fn prepend_tables(p: Seq<TableLoc>, r: Result<Seq<TableLoc>, ParseError>) -> Result<
    Seq<TableLoc>,
    ParseError,
> {
    match r {
        Ok(ts) => Ok(p + ts),
        Err(e) => Err(e),
    }
}

/// The views of `v`'s tables.
pub open spec fn tables_view(v: Seq<ChunkTable>) -> Seq<TableLoc> {
    v.map_values(|t: ChunkTable| t@)
}

/// The chunk-offset tables of the tracks in the movie box body `s`.
#[verifier::rlimit(40)]
fn moov_tables(s: &[u8]) -> (r: Result<Vec<ChunkTable>, ParseError>)
    ensures
        match r {
            Ok(ts) => spec_moov_tables(s@, 0, s@.len() as int) == Ok::<Seq<TableLoc>, ParseError>(
                tables_view(ts@),
            ),
            Err(e) => spec_moov_tables(s@, 0, s@.len() as int) == Err::<Seq<TableLoc>, ParseError>(
                e,
            ),
        },
{
    let end = s.len();
    let mut pos: usize = 0;
    let mut acc: Vec<ChunkTable> = Vec::new();
    while pos < end
        invariant
            pos <= end == s@.len(),
            spec_moov_tables(s@, 0, end as int) == prepend_tables(
                tables_view(acc@),
                spec_moov_tables(s@, pos as int, end as int),
            ),
        decreases end - pos,
    {
        proof {
            lemma_child_within(s@, pos as int, end as int);
        }
        match parse_child(s, pos, end) {
            Err(e) => return Err(e),
            Ok((h, a, b)) => {
                if b <= pos {
                    return Err(ParseError::InvalidInput);
                }
                if h.box_type.value == TRAK {
                    match trak_table(s, a, b) {
                        Err(e) => return Err(e),
                        Ok(t) => {
                            let ghost old_acc = acc@;
                            acc.push(t);
                            assert(tables_view(acc@) =~= tables_view(old_acc) + seq![t@]);
                            proof {
                                if let Ok(rest) = spec_moov_tables(s@, b as int, end as int) {
                                    assert(tables_view(old_acc) + (seq![t@] + rest) =~= tables_view(
                                        acc@,
                                    ) + rest);
                                }
                            }
                        },
                    }
                }
                pos = b;
            },
        }
    }
    assert(tables_view(acc@) + Seq::<TableLoc>::empty() =~= tables_view(acc@));
    Ok(acc)
}

/// `s` with entry `i` of table `t` set to `v`.
pub open spec fn spec_write_entry(s: Seq<u8>, t: TableLoc, i: int, v: int) -> Seq<u8> {
    if t.wide {
        s.subrange(0, t.at(i)) + u64_be(v as u64) + s.subrange(t.at(i) + 8, s.len() as int)
    } else {
        s.subrange(0, t.at(i)) + u32_be(v as u32) + s.subrange(t.at(i) + 4, s.len() as int)
    }
}

/// `s` with entries `i ..` of table `t` moved by `d`, one after the other; an error where an entry
/// would leave the range of its width.
pub open spec fn spec_shift_table(s: Seq<u8>, t: TableLoc, i: int, d: int) -> Result<
    Seq<u8>,
    ParseError,
>
    decreases t.count - i,
{
    if i >= t.count {
        Ok(s)
    } else {
        let v = t.entry(s, i) + d;
        if v < 0 || v > t.max() {
            Err(ParseError::InvalidInput)
        } else {
            spec_shift_table(spec_write_entry(s, t, i, v), t, i + 1, d)
        }
    }
}

/// `s` with the entries of tables `ts[k ..]` moved by `d`, one table after the other.
pub open spec fn spec_shift(s: Seq<u8>, ts: Seq<TableLoc>, k: int, d: int) -> Result<
    Seq<u8>,
    ParseError,
>
    decreases ts.len() - k,
{
    if k >= ts.len() {
        Ok(s)
    } else {
        match spec_shift_table(s, ts[k], 0, d) {
            Err(e) => Err(e),
            Ok(s2) => spec_shift(s2, ts, k + 1, d),
        }
    }
}

/// Moving the entries of a table that lies within `s` keeps its length.
pub proof fn lemma_shift_table_len(s: Seq<u8>, t: TableLoc, i: int, d: int)
    requires
        0 <= t.start,
        0 <= i,
        t.end() <= s.len(),
    ensures
        spec_shift_table(s, t, i, d) is Ok ==> spec_shift_table(s, t, i, d)->Ok_0.len() == s.len(),
    decreases t.count - i,
{
    if i < t.count {
        let v = t.entry(s, i) + d;
        if 0 <= v <= t.max() {
            assert(t.at(i) + t.width() <= t.end()) by (nonlinear_arith)
                requires
                    t.at(i) == t.start + i * t.width(),
                    t.end() == t.start + t.count * t.width(),
                    i < t.count,
                    t.width() > 0,
            ;
            assert(0 <= t.at(i)) by (nonlinear_arith)
                requires
                    t.at(i) == t.start + i * t.width(),
                    0 <= t.start,
                    0 <= i,
                    t.width() > 0,
            ;
            lemma_shift_table_len(spec_write_entry(s, t, i, v), t, i + 1, d);
        }
    }
}

/// Moving the entries of tables that lie within `s` keeps its length.
pub proof fn lemma_shift_len(s: Seq<u8>, ts: Seq<TableLoc>, k: int, d: int)
    requires
        0 <= k,
        forall|j: int| 0 <= j < ts.len() ==> 0 <= #[trigger] ts[j].start && ts[j].end() <= s.len(),
    ensures
        spec_shift(s, ts, k, d) is Ok ==> spec_shift(s, ts, k, d)->Ok_0.len() == s.len(),
    decreases ts.len() - k,
{
    if k < ts.len() {
        lemma_shift_table_len(s, ts[k], 0, d);
        if let Ok(s2) = spec_shift_table(s, ts[k], 0, d) {
            lemma_shift_len(s2, ts, k + 1, d);
        }
    }
}

/// Entry `j` of a table lies within the table.
pub proof fn lemma_at_within(t: TableLoc, j: int)
    requires
        0 <= j < t.count,
    ensures
        t.start <= t.at(j),
        t.at(j) + t.width() <= t.end(),
        t.at(j) + t.width() <= t.at(j + 1),
{
    assert(t.start <= t.at(j) && t.at(j) + t.width() <= t.end()) by (nonlinear_arith)
        requires
            0 <= j < t.count,
            t.at(j) == t.start + j * t.width(),
            t.end() == t.start + t.count * t.width(),
            t.width() > 0,
    ;
    assert(t.at(j) + t.width() <= t.at(j + 1)) by (nonlinear_arith)
        requires
            t.at(j) == t.start + j * t.width(),
            t.at(j + 1) == t.start + (j + 1) * t.width(),
    ;
}

/// Writing an entry keeps every entry whose bytes lie apart from it.
pub proof fn lemma_write_keeps(s: Seq<u8>, t: TableLoc, i: int, v: int, u: TableLoc, j: int)
    requires
        0 <= t.at(i),
        t.at(i) + t.width() <= s.len(),
        0 <= u.at(j),
        u.at(j) + u.width() <= s.len(),
        u.at(j) + u.width() <= t.at(i) || t.at(i) + t.width() <= u.at(j),
    ensures
        u.entry(spec_write_entry(s, t, i, v), j) == u.entry(s, j),
        spec_write_entry(s, t, i, v).len() == s.len(),
{
    let s2 = spec_write_entry(s, t, i, v);
    assert(s2.len() == s.len());
    assert forall|p: int| u.at(j) <= p < u.at(j) + u.width() implies s2[p] == s[p] by {}
    assert(s2[u.at(j)] == s[u.at(j)]);
    assert(s2[u.at(j) + 1] == s[u.at(j) + 1]);
    assert(s2[u.at(j) + 2] == s[u.at(j) + 2]);
    assert(s2[u.at(j) + 3] == s[u.at(j) + 3]);
    if u.wide {
        assert(s2[u.at(j) + 4] == s[u.at(j) + 4]);
        assert(s2[u.at(j) + 5] == s[u.at(j) + 5]);
        assert(s2[u.at(j) + 6] == s[u.at(j) + 6]);
        assert(s2[u.at(j) + 7] == s[u.at(j) + 7]);
    }
}

/// A written entry reads back as the value written.
pub proof fn lemma_write_reads(s: Seq<u8>, t: TableLoc, i: int, v: int)
    requires
        0 <= t.at(i),
        t.at(i) + t.width() <= s.len(),
        0 <= v <= t.max(),
    ensures
        t.entry(spec_write_entry(s, t, i, v), i) == v,
        spec_write_entry(s, t, i, v).len() == s.len(),
{
    let s2 = spec_write_entry(s, t, i, v);
    if t.wide {
        assert(s2.subrange(t.at(i), t.at(i) + 8) =~= u64_be(v as u64));
        lemma_be64_of_u64_be(v as u64, s2, t.at(i));
    } else {
        assert(s2.subrange(t.at(i), t.at(i) + 4) =~= u32_be(v as u32));
        lemma_be32_of_u32_be(v as u32, s2, t.at(i));
    }
}

/// Moving entries `i ..` of table `t` adds `d` to each of them and keeps every entry that lies
/// before them or after the table.
pub proof fn lemma_shift_table_entries(s: Seq<u8>, t: TableLoc, i: int, d: int)
    requires
        0 <= t.start,
        0 <= i <= t.count,
        t.end() <= s.len(),
        spec_shift_table(s, t, i, d) is Ok,
    ensures
        ({
            let s2 = spec_shift_table(s, t, i, d)->Ok_0;
            &&& s2.len() == s.len()
            &&& forall|j: int| i <= j < t.count ==> #[trigger] t.entry(s2, j) == t.entry(s, j) + d
            &&& forall|u: TableLoc, j: int|
                0 <= u.at(j) && u.at(j) + u.width() <= s.len() && (u.at(j) + u.width() <= t.at(i)
                    || t.end() <= u.at(j)) ==> #[trigger] u.entry(s2, j) == u.entry(s, j)
        }),
    decreases t.count - i,
{
    if i < t.count {
        lemma_at_within(t, i);
        let v = t.entry(s, i) + d;
        let s1 = spec_write_entry(s, t, i, v);
        lemma_write_reads(s, t, i, v);
        lemma_shift_table_entries(s1, t, i + 1, d);
        let s2 = spec_shift_table(s, t, i, d)->Ok_0;
        assert(s2 == spec_shift_table(s1, t, i + 1, d)->Ok_0);
        assert forall|j: int| i <= j < t.count implies #[trigger] t.entry(s2, j) == t.entry(s, j) + d by {
            if j == i {
                assert(t.entry(s2, i) == t.entry(s1, i));
            } else {
                lemma_at_within(t, j);
                lemma_at_within(t, i);
                assert(t.at(i + 1) <= t.at(j)) by (nonlinear_arith)
                    requires
                        i + 1 <= j,
                        t.at(i + 1) == t.start + (i + 1) * t.width(),
                        t.at(j) == t.start + j * t.width(),
                        t.width() > 0,
                ;
                lemma_write_keeps(s, t, i, v, t, j);
            }
        }
        assert forall|u: TableLoc, j: int|
            0 <= u.at(j) && u.at(j) + u.width() <= s.len() && (u.at(j) + u.width() <= t.at(i)
                || t.end() <= u.at(j)) implies #[trigger] u.entry(s2, j) == u.entry(s, j) by {
            lemma_write_keeps(s, t, i, v, u, j);
            assert(u.entry(s2, j) == u.entry(s1, j));
        }
    }
}

/// Moving the entries of ordered, disjoint tables `ts[k ..]` adds `d` to each of their entries and
/// keeps every entry that lies before them.
pub proof fn lemma_shift_entries(s: Seq<u8>, ts: Seq<TableLoc>, k: int, d: int)
    requires
        0 <= k <= ts.len(),
        forall|q: int|
            0 <= q < ts.len() ==> 0 <= #[trigger] ts[q].start && 0 <= ts[q].count && ts[q].end()
                <= s.len(),
        forall|a: int, b: int| 0 <= a < b < ts.len() ==> #[trigger] ts[a].end() <= #[trigger] ts[b].start,
        spec_shift(s, ts, k, d) is Ok,
    ensures
        ({
            let s2 = spec_shift(s, ts, k, d)->Ok_0;
            &&& s2.len() == s.len()
            &&& forall|q: int, j: int|
                k <= q < ts.len() && 0 <= j < ts[q].count ==> #[trigger] ts[q].entry(s2, j)
                    == ts[q].entry(s, j) + d
            &&& forall|u: TableLoc, j: int|
                0 <= u.at(j) && u.at(j) + u.width() <= s.len() && (k < ts.len() ==> u.at(j)
                    + u.width() <= ts[k].start) ==> #[trigger] u.entry(s2, j) == u.entry(s, j)
        }),
    decreases ts.len() - k,
{
    if k < ts.len() {
        let t = ts[k];
        lemma_shift_table_entries(s, t, 0, d);
        let s1 = spec_shift_table(s, t, 0, d)->Ok_0;
        lemma_shift_entries(s1, ts, k + 1, d);
        let s2 = spec_shift(s, ts, k, d)->Ok_0;
        assert(s2 == spec_shift(s1, ts, k + 1, d)->Ok_0);
        assert(t.at(0) == t.start);
        assert forall|q: int, j: int| k <= q < ts.len() && 0 <= j < ts[q].count implies #[trigger] ts[q].entry(s2, j)
            == ts[q].entry(s, j) + d by {
            lemma_at_within(ts[q], j);
            if q == k {
                if k + 1 < ts.len() {
                    assert(ts[k].end() <= ts[k + 1].start);
                }
                assert(ts[q].entry(s2, j) == ts[q].entry(s1, j));
            } else {
                assert(ts[k].end() <= ts[q].start);
                assert(ts[q].entry(s1, j) == ts[q].entry(s, j));
            }
        }
        assert forall|u: TableLoc, j: int|
            0 <= u.at(j) && u.at(j) + u.width() <= s.len() && (k < ts.len() ==> u.at(j)
                + u.width() <= ts[k].start) implies #[trigger] u.entry(s2, j) == u.entry(s, j) by {
            if k + 1 < ts.len() {
                assert(ts[k].end() <= ts[k + 1].start);
                assert(ts[k].start <= ts[k].end()) by (nonlinear_arith)
                    requires
                        ts[k].end() == ts[k].start + ts[k].count * ts[k].width(),
                        0 <= ts[k].count,
                        ts[k].width() > 0,
                ;
            }
            assert(u.entry(s1, j) == u.entry(s, j));
        }
    }
}

/// `s` and `s2` hold the same bytes at `lo .. hi`.
pub open spec fn same_in(s: Seq<u8>, s2: Seq<u8>, lo: int, hi: int) -> bool {
    forall|p: int| lo <= p < hi ==> #[trigger] s[p] == s2[p]
}

/// Position `p` lies among the entries of none of the tables `ts`.
pub open spec fn outside_tables(ts: Seq<TableLoc>, p: int) -> bool {
    forall|k: int| 0 <= k < ts.len() ==> !(#[trigger] ts[k].start <= p && p < ts[k].end())
}

/// A child box decodes the same from bytes that agree on its header.
pub proof fn lemma_child_same(s: Seq<u8>, s2: Seq<u8>, pos: int, end: int)
    requires
        0 <= pos <= end <= s.len(),
        s.len() == s2.len(),
        spec_child(s, pos, end) is Ok,
        same_in(s, s2, pos, spec_child(s, pos, end)->Ok_0.1),
    ensures
        spec_child(s2, pos, end) == spec_child(s, pos, end),
{
    lemma_child_within(s, pos, end);
    let a = spec_child(s, pos, end)->Ok_0.1;
    let sub = s.subrange(pos, end);
    let sub2 = s2.subrange(pos, end);
    assert forall|i: int| 0 <= i < 8 implies sub[i] == sub2[i] by {
        assert(s[pos + i] == s2[pos + i]);
    }
    assert(be32(sub, 0) == be32(sub2, 0));
    assert(be32(sub, 4) == be32(sub2, 4));
    if be32(sub, 0) == 1 {
        assert forall|i: int| 8 <= i < 16 implies sub[i] == sub2[i] by {
            assert(s[pos + i] == s2[pos + i]);
        }
        assert(be32(sub, 8) == be32(sub2, 8));
        assert(be32(sub, 12) == be32(sub2, 12));
    }
    assert(spec_parse_header(sub) == spec_parse_header(sub2));
}

/// `s` and `s2` hold the same bytes at `pos .. end`, but maybe at `lo .. hi`.
pub open spec fn same_but(s: Seq<u8>, s2: Seq<u8>, pos: int, end: int, lo: int, hi: int) -> bool {
    forall|p: int| pos <= p < end && !(lo <= p && p < hi) ==> #[trigger] s[p] == s2[p]
}

/// The check that no child has a given type comes out the same in bytes that agree.
pub proof fn lemma_none_of_same(s: Seq<u8>, s2: Seq<u8>, pos: int, end: int, t1: u32, t2: u32)
    requires
        0 <= pos <= end <= s.len(),
        s.len() == s2.len(),
        spec_none_of(s, pos, end, t1, t2) is Ok,
        same_in(s, s2, pos, end),
    ensures
        spec_none_of(s2, pos, end, t1, t2) == spec_none_of(s, pos, end, t1, t2),
    decreases end - pos,
{
    if pos < end {
        lemma_child_within(s, pos, end);
        let (h, ca, cb) = spec_child(s, pos, end)->Ok_0;
        lemma_child_same(s, s2, pos, end);
        lemma_none_of_same(s, s2, cb, end, t1, t2);
    }
}

/// A search for a child finds the same body in bytes that differ only within that body.
pub proof fn lemma_find_child_same(
    s: Seq<u8>,
    s2: Seq<u8>,
    pos: int,
    end: int,
    ty: u32,
    lo: int,
    hi: int,
)
    requires
        0 <= pos <= end <= s.len(),
        s.len() == s2.len(),
        spec_find_child(s, pos, end, ty) is Ok,
        spec_find_child(s, pos, end, ty)->Ok_0.0 <= lo <= hi <= spec_find_child(s, pos, end, ty)->Ok_0.1,
        same_but(s, s2, pos, end, lo, hi),
    ensures
        spec_find_child(s2, pos, end, ty) == spec_find_child(s, pos, end, ty),
    decreases end - pos,
{
    lemma_child_within(s, pos, end);
    let (h, ca, cb) = spec_child(s, pos, end)->Ok_0;
    if h.box_type.value != ty {
        lemma_find_child_within(s, cb, end, ty);
    }
    assert forall|p: int| pos <= p < ca implies #[trigger] s[p] == s2[p] by {}
    lemma_child_same(s, s2, pos, end);
    if h.box_type.value != ty {
        lemma_find_child_same(s, s2, cb, end, ty, lo, hi);
    } else {
        assert forall|p: int| cb <= p < end implies #[trigger] s[p] == s2[p] by {}
        lemma_none_of_same(s, s2, cb, end, ty, ty);
    }
}

/// A search for `stco` or `co64` finds the same body in bytes that differ only within that body.
pub proof fn lemma_find_co_same(s: Seq<u8>, s2: Seq<u8>, pos: int, end: int, lo: int, hi: int)
    requires
        0 <= pos <= end <= s.len(),
        s.len() == s2.len(),
        spec_find_co(s, pos, end) is Ok,
        spec_find_co(s, pos, end)->Ok_0.1 <= lo <= hi <= spec_find_co(s, pos, end)->Ok_0.2,
        same_but(s, s2, pos, end, lo, hi),
    ensures
        spec_find_co(s2, pos, end) == spec_find_co(s, pos, end),
    decreases end - pos,
{
    lemma_child_within(s, pos, end);
    let (h, ca, cb) = spec_child(s, pos, end)->Ok_0;
    let found = h.box_type.value == STCO || h.box_type.value == CO64;
    if !found {
        lemma_find_co_within(s, cb, end);
    }
    assert forall|p: int| pos <= p < ca implies #[trigger] s[p] == s2[p] by {}
    lemma_child_same(s, s2, pos, end);
    if !found {
        lemma_find_co_same(s, s2, cb, end, lo, hi);
    } else {
        assert forall|p: int| cb <= p < end implies #[trigger] s[p] == s2[p] by {}
        lemma_none_of_same(s, s2, cb, end, STCO, CO64);
    }
}

/// A track's table is found the same in bytes that differ only among the table's entries.
pub proof fn lemma_trak_table_same(s: Seq<u8>, s2: Seq<u8>, a: int, b: int)
    requires
        0 <= a <= b <= s.len(),
        s.len() == s2.len(),
        spec_trak_table(s, a, b) is Ok,
        same_but(
            s,
            s2,
            a,
            b,
            spec_trak_table(s, a, b)->Ok_0.start,
            spec_trak_table(s, a, b)->Ok_0.end(),
        ),
    ensures
        spec_trak_table(s2, a, b) == spec_trak_table(s, a, b),
{
    reveal(spec_trak_table);
    let t = spec_trak_table(s, a, b)->Ok_0;
    lemma_find_child_within(s, a, b, MDIA);
    let (a1, b1) = spec_find_child(s, a, b, MDIA)->Ok_0;
    lemma_find_child_within(s, a1, b1, MINF);
    let (a2, b2) = spec_find_child(s, a1, b1, MINF)->Ok_0;
    lemma_find_child_within(s, a2, b2, STBL);
    let (a3, b3) = spec_find_child(s, a2, b2, STBL)->Ok_0;
    lemma_find_co_within(s, a3, b3);
    let (wide, a4, b4) = spec_find_co(s, a3, b3)->Ok_0;
    assert(t.start == a4 + 8);
    assert(t.start <= t.end() && t.end() <= b4) by (nonlinear_arith)
        requires
            t.end() == t.start + t.count * t.width(),
            0 <= t.count,
            t.width() > 0,
            t.count * t.width() <= b4 - a4 - 8,
            t.start == a4 + 8,
    ;
    lemma_find_child_same(s, s2, a, b, MDIA, t.start, t.end());
    lemma_find_child_same(s, s2, a1, b1, MINF, t.start, t.end());
    lemma_find_child_same(s, s2, a2, b2, STBL, t.start, t.end());
    lemma_find_co_same(s, s2, a3, b3, t.start, t.end());
    assert(s[a4 + 4] == s2[a4 + 4]);
    assert(s[a4 + 5] == s2[a4 + 5]);
    assert(s[a4 + 6] == s2[a4 + 6]);
    assert(s[a4 + 7] == s2[a4 + 7]);
    assert(be32(s, a4 + 4) == be32(s2, a4 + 4));
}

/// The tables of the tracks in `pos .. end` are found the same in bytes that differ only among
/// the entries of those tables.
pub proof fn lemma_moov_tables_same(s: Seq<u8>, s2: Seq<u8>, pos: int, end: int)
    requires
        0 <= pos <= end <= s.len(),
        s.len() == s2.len(),
        spec_moov_tables(s, pos, end) is Ok,
        forall|p: int|
            pos <= p < end && outside_tables(spec_moov_tables(s, pos, end)->Ok_0, p) ==> #[trigger] s[p]
                == s2[p],
    ensures
        spec_moov_tables(s2, pos, end) == spec_moov_tables(s, pos, end),
    decreases end - pos,
{
    if pos < end {
        let ts = spec_moov_tables(s, pos, end)->Ok_0;
        lemma_moov_tables_within(s, pos, end);
        lemma_child_within(s, pos, end);
        let (h, ca, cb) = spec_child(s, pos, end)->Ok_0;
        lemma_moov_tables_within(s, cb, end);
        let rest = spec_moov_tables(s, cb, end)->Ok_0;
        let is_trak = h.box_type.value == TRAK;
        if is_trak {
            lemma_trak_table_within(s, ca, cb);
            let t = spec_trak_table(s, ca, cb)->Ok_0;
            assert(ts == seq![t] + rest);
            assert forall|k: int| 0 < k < ts.len() implies ts[k] == rest[k - 1] by {}
        } else {
            assert(ts == rest);
        }
        assert forall|p: int| pos <= p < ca implies #[trigger] s[p] == s2[p] by {
            assert forall|k: int| 0 <= k < ts.len() implies !(#[trigger] ts[k].start <= p && p
                < ts[k].end()) by {
                if is_trak && k > 0 {
                    assert(ts[k] == rest[k - 1]);
                }
            }
        }
        lemma_child_same(s, s2, pos, end);
        if is_trak {
            let t = spec_trak_table(s, ca, cb)->Ok_0;
            assert forall|p: int| ca <= p < cb && !(t.start <= p && p < t.end()) implies #[trigger] s[p] == s2[p] by {
                assert forall|k: int| 0 <= k < ts.len() implies !(#[trigger] ts[k].start <= p && p
                    < ts[k].end()) by {
                    if k > 0 {
                        assert(ts[k] == rest[k - 1]);
                    }
                }
            }
            lemma_trak_table_same(s, s2, ca, cb);
        }
        assert forall|p: int|
            cb <= p < end && outside_tables(rest, p) implies #[trigger] s[p] == s2[p] by {
            assert forall|k: int| 0 <= k < ts.len() implies !(#[trigger] ts[k].start <= p && p
                < ts[k].end()) by {
                if is_trak {
                    if k > 0 {
                        assert(ts[k] == rest[k - 1]);
                        assert(!(rest[k - 1].start <= p && p < rest[k - 1].end()));
                    }
                } else {
                    assert(!(rest[k].start <= p && p < rest[k].end()));
                }
            }
        }
        lemma_moov_tables_same(s, s2, cb, end);
    }
}

/// Moving entries `i ..` of table `t` changes no byte outside them.
pub proof fn lemma_shift_table_frame(s: Seq<u8>, t: TableLoc, i: int, d: int)
    requires
        0 <= t.start,
        0 <= i <= t.count,
        t.end() <= s.len(),
        spec_shift_table(s, t, i, d) is Ok,
    ensures
        ({
            let s2 = spec_shift_table(s, t, i, d)->Ok_0;
            &&& s2.len() == s.len()
            &&& forall|p: int|
                0 <= p < s.len() && !(t.at(i) <= p && p < t.end()) ==> #[trigger] s2[p] == s[p]
        }),
    decreases t.count - i,
{
    if i < t.count {
        lemma_at_within(t, i);
        let v = t.entry(s, i) + d;
        let s1 = spec_write_entry(s, t, i, v);
        lemma_write_reads(s, t, i, v);
        lemma_shift_table_frame(s1, t, i + 1, d);
        let s2 = spec_shift_table(s, t, i, d)->Ok_0;
        assert(s2 == spec_shift_table(s1, t, i + 1, d)->Ok_0);
        assert forall|p: int| 0 <= p < s.len() && !(t.at(i) <= p && p < t.end()) implies #[trigger] s2[p]
            == s[p] by {
            assert(s1[p] == s[p]);
        }
    } else {
        assert(t.at(i) == t.end());
    }
}

/// Moving the entries of tables `ts[k ..]` changes no byte outside them.
pub proof fn lemma_shift_frame(s: Seq<u8>, ts: Seq<TableLoc>, k: int, d: int)
    requires
        0 <= k <= ts.len(),
        forall|q: int|
            0 <= q < ts.len() ==> 0 <= #[trigger] ts[q].start && 0 <= ts[q].count && ts[q].end()
                <= s.len(),
        spec_shift(s, ts, k, d) is Ok,
    ensures
        ({
            let s2 = spec_shift(s, ts, k, d)->Ok_0;
            &&& s2.len() == s.len()
            &&& forall|p: int|
                0 <= p < s.len() && outside_tables(ts, p) ==> #[trigger] s2[p] == s[p]
        }),
    decreases ts.len() - k,
{
    if k < ts.len() {
        let t = ts[k];
        lemma_shift_table_frame(s, t, 0, d);
        let s1 = spec_shift_table(s, t, 0, d)->Ok_0;
        lemma_shift_frame(s1, ts, k + 1, d);
        let s2 = spec_shift(s, ts, k, d)->Ok_0;
        assert(s2 == spec_shift(s1, ts, k + 1, d)->Ok_0);
        assert(t.at(0) == t.start);
        assert forall|p: int| 0 <= p < s.len() && outside_tables(ts, p) implies #[trigger] s2[p]
            == s[p] by {
            assert(!(ts[k].start <= p && p < ts[k].end()));
            assert(s1[p] == s[p]);
        }
    }
}

/// Moving the chunk offsets keeps the structure of a movie body: it holds the same tables.
pub proof fn lemma_shift_keeps_tables(m: Seq<u8>, d: int)
    requires
        spec_parse_moov(m) is Ok,
        spec_shift(m, spec_parse_moov(m)->Ok_0, 0, d) is Ok,
    ensures
        spec_parse_moov(spec_shift(m, spec_parse_moov(m)->Ok_0, 0, d)->Ok_0) == spec_parse_moov(m),
{
    let ts = spec_parse_moov(m)->Ok_0;
    let m2 = spec_shift(m, ts, 0, d)->Ok_0;
    lemma_moov_tables_within(m, 0, m.len() as int);
    lemma_shift_frame(m, ts, 0, d);
    assert forall|p: int| 0 <= p < m.len() && outside_tables(ts, p) implies #[trigger] m[p] == m2[p] by {
        assert(m2[p] == m[p]);
    }
    lemma_moov_tables_same(m, m2, 0, m.len() as int);
}

/// Moves each entry of table `t` in `buf` by `d`.
fn shift_table(buf: &mut Vec<u8>, t: ChunkTable, d: i32) -> (r: Result<(), ParseError>)
    requires
        t@.end() <= old(buf)@.len(),
    ensures
        final(buf)@.len() == old(buf)@.len(),
        match r {
            Ok(_) => spec_shift_table(old(buf)@, t@, 0, d as int) == Ok::<Seq<u8>, ParseError>(
                final(buf)@,
            ),
            Err(e) => spec_shift_table(old(buf)@, t@, 0, d as int) == Err::<Seq<u8>, ParseError>(
                e,
            ),
        },
{
    let ghost s0 = buf@;
    let w: usize = if t.wide {
        8
    } else {
        4
    };
    let mut i: usize = 0;
    let mut at: usize = t.start;
    while i < t.count
        invariant
            s0 == old(buf)@,
            buf@.len() == s0.len(),
            t@.end() <= s0.len(),
            w == t@.width(),
            0 <= i <= t.count,
            at == t@.at(i as int),
            spec_shift_table(s0, t@, 0, d as int) == spec_shift_table(buf@, t@, i as int, d as int),
        decreases t.count - i,
    {
        assert(at + w <= t@.end()) by (nonlinear_arith)
            requires
                at == t.start + i * w,
                i < t.count,
                t@.end() == t.start + t.count * w,
        ;
        let ghost cur = buf@;
        let n = buf.len();
        assert(at + w <= n);
        if t.wide {
            let v = read_u64(buf.as_slice(), at);
            let nv = if d >= 0 {
                v.checked_add(d as u64)
            } else {
                v.checked_sub((0i64 - d as i64) as u64)
            };
            match nv {
                None => return Err(ParseError::InvalidInput),
                Some(nv) => {
                    write_u64(buf, at, nv);
                },
            }
        } else {
            let v = read_u32(buf.as_slice(), at);
            let nv = if d >= 0 {
                v.checked_add(d as u32)
            } else {
                v.checked_sub((0i64 - d as i64) as u32)
            };
            match nv {
                None => return Err(ParseError::InvalidInput),
                Some(nv) => {
                    write_u32(buf, at, nv);
                },
            }
        }
        assert(buf@ == spec_write_entry(cur, t@, i as int, t@.entry(cur, i as int) + d));
        assert(t@.at(i + 1) == at + w) by (nonlinear_arith)
            requires
                at == t.start + i * w,
                t@.at(i + 1) == t.start + (i + 1) * w,
        ;
        i = i + 1;
        at = at + w;
    }
    Ok(())
}

/// The table found in a track lies within the track's body.
pub proof fn lemma_trak_table_within(s: Seq<u8>, a: int, b: int)
    requires
        0 <= a <= b <= s.len(),
    ensures
        spec_trak_table(s, a, b) is Ok ==> {
            let t = spec_trak_table(s, a, b)->Ok_0;
            a <= t.start && 0 <= t.count && t.end() <= b
        },
{
    reveal(spec_trak_table);
    lemma_find_child_within(s, a, b, MDIA);
    if let Ok((a1, b1)) = spec_find_child(s, a, b, MDIA) {
        lemma_find_child_within(s, a1, b1, MINF);
        if let Ok((a2, b2)) = spec_find_child(s, a1, b1, MINF) {
            lemma_find_child_within(s, a2, b2, STBL);
            if let Ok((a3, b3)) = spec_find_child(s, a2, b2, STBL) {
                lemma_find_co_within(s, a3, b3);
            }
        }
    }
}

/// The tables of the tracks in `pos .. end` lie within it, in order and apart.
pub proof fn lemma_moov_tables_within(s: Seq<u8>, pos: int, end: int)
    requires
        0 <= pos <= end <= s.len(),
    ensures
        spec_moov_tables(s, pos, end) is Ok ==> {
            let ts = spec_moov_tables(s, pos, end)->Ok_0;
            &&& forall|k: int|
                0 <= k < ts.len() ==> pos <= #[trigger] ts[k].start && 0 <= ts[k].count
                    && ts[k].end() <= end
            &&& forall|j: int, k: int| 0 <= j < k < ts.len() ==> #[trigger] ts[j].end() <= #[trigger] ts[k].start
        },
    decreases end - pos,
{
    if pos < end {
        lemma_child_within(s, pos, end);
        if let Ok((h, a, b)) = spec_child(s, pos, end) {
            if b > pos {
                lemma_moov_tables_within(s, b, end);
                if h.box_type.value == TRAK {
                    lemma_trak_table_within(s, a, b);
                    if let Ok(t) = spec_trak_table(s, a, b) {
                        if let Ok(rest) = spec_moov_tables(s, b, end) {
                            let ts = seq![t] + rest;
                            assert(spec_moov_tables(s, pos, end) == Ok::<Seq<TableLoc>, ParseError>(ts));
                            assert forall|k: int| 0 < k < ts.len() implies ts[k] == rest[k - 1] by {}
                            assert(ts[0] == t);
                            assert forall|k: int| 0 <= k < ts.len() implies pos <= #[trigger] ts[k].start && 0 <= ts[k].count
                                && ts[k].end() <= end by {
                                if k > 0 {
                                    assert(ts[k] == rest[k - 1]);
                                }
                            }
                            assert forall|j: int, k: int| 0 <= j < k < ts.len() implies #[trigger] ts[j].end() <= #[trigger] ts[k].start by {
                                assert(ts[k] == rest[k - 1]);
                                if j > 0 {
                                    assert(ts[j] == rest[j - 1]);
                                }
                            }
                        }
                    }
                }
            }
        }
    }
}

/// A movie box body, with the chunk-offset table of each of its tracks.
pub struct MoovBox {
    data: Vec<u8>,
    tables: Vec<ChunkTable>,
}

impl MoovBox {
    /// The bytes of the body.
    pub closed spec fn body(&self) -> Seq<u8> {
        self.data@
    }

    /// The chunk-offset tables found in the body.
    pub closed spec fn tables(&self) -> Seq<TableLoc> {
        tables_view(self.tables@)
    }

    /// The tables are those that the body holds.
    pub open spec fn wf(&self) -> bool {
        spec_parse_moov(self.body()) == Ok::<Seq<TableLoc>, ParseError>(self.tables())
    }

    /// Reads a movie box body, finding the chunk-offset table of each track.
    pub fn parse(data: Vec<u8>) -> (r: Result<MoovBox, ParseError>)
        ensures
            match r {
                Ok(m) => m.body() == data@ && m.wf(),
                Err(e) => spec_parse_moov(data@) == Err::<Seq<TableLoc>, ParseError>(e),
            },
    {
        let tables = match moov_tables(data.as_slice()) {
            Ok(t) => t,
            Err(e) => return Err(e),
        };
        if tables.len() == 0 {
            return Err(ParseError::MissingRequiredBox(FourCC { value: TRAK }));
        }
        Ok(MoovBox { data, tables })
    }

    /// The bytes of the body, taken out.
    pub fn into_data(self) -> (r: Vec<u8>)
        ensures
            r@ == self.body(),
    {
        self.data
    }

    /// The bytes of the body.
    pub fn data(&self) -> (r: &Vec<u8>)
        ensures
            r@ == self.body(),
    {
        &self.data
    }

    /// The number of tracks.
    pub fn track_count(&self) -> (r: usize)
        ensures
            r == self.tables().len(),
    {
        self.tables.len()
    }

    /// The body with every chunk offset moved by `d`.
    pub fn into_shifted(self, d: i32) -> (r: Result<Vec<u8>, ParseError>)
        requires
            self.wf(),
        ensures
            match r {
                Ok(v) => v@.len() == self.body().len() && spec_shift(self.body(), self.tables(), 0, d as int) == Ok::<
                    Seq<u8>,
                    ParseError,
                >(v@),
                Err(e) => spec_shift(self.body(), self.tables(), 0, d as int) == Err::<
                    Seq<u8>,
                    ParseError,
                >(e),
            },
    {
        let ghost s0 = self.data@;
        let ghost ts = tables_view(self.tables@);
        proof {
            lemma_moov_tables_within(s0, 0, s0.len() as int);
        }
        let MoovBox { data, tables } = self;
        let mut buf = data;
        let mut k: usize = 0;
        while k < tables.len()
            invariant
                s0 == self.body(),
                ts == self.tables(),
                ts == tables_view(tables@),
                buf@.len() == s0.len(),
                0 <= k <= tables@.len(),
                forall|j: int| 0 <= j < ts.len() ==> #[trigger] ts[j].end() <= s0.len(),
                spec_shift(s0, ts, 0, d as int) == spec_shift(buf@, ts, k as int, d as int),
            decreases tables@.len() - k,
        {
            let t = tables[k];
            assert(ts[k as int] == t@);
            match shift_table(&mut buf, t, d) {
                Err(e) => return Err(e),
                Ok(_) => {},
            }
            k = k + 1;
        }
        Ok(buf)
    }
}

} // verus!
