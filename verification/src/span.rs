//! Byte offset source spans and line/column conversion.

use vstd::prelude::*;
use vstd::string::StringSliceAdditionalSpecFns;

verus! {

/// A half open byte range `[start, end)` into a source file.
#[derive(Clone, Copy, PartialEq, Eq, PartialOrd, Ord, Debug, Hash, Structural)]
pub struct Span {
    pub start: u32,
    pub end: u32,
}

impl Span {
    pub fn new(start: u32, end: u32) -> (s: Span)
        ensures
            s.start == start,
            s.end == end,
    {
        Span { start, end }
    }

    /// Length of the span. The span must not be reversed.
    pub fn len(&self) -> (n: u32)
        requires
            self.start <= self.end,
        ensures
            n == self.end - self.start,
    {
        self.end - self.start
    }

    pub fn is_empty(&self) -> (b: bool)
        ensures
            b == (self.start == self.end),
    {
        self.start == self.end
    }

    pub open spec fn spec_contains(&self, offset: u32) -> bool {
        self.start <= offset && offset < self.end
    }

    pub open spec fn spec_touches(&self, offset: u32) -> bool {
        self.start <= offset && offset <= self.end
    }

    pub fn contains(&self, offset: u32) -> (b: bool)
        ensures
            b == self.spec_contains(offset),
    {
        offset >= self.start && offset < self.end
    }

    /// True when `offset` is inside the span or exactly at its edges. Queries use
    /// this so a click at the end of an identifier still selects it.
    pub fn touches(&self, offset: u32) -> (b: bool)
        ensures
            b == self.spec_touches(offset),
    {
        offset >= self.start && offset <= self.end
    }

    pub open spec fn spec_shifted(self, delta: i64) -> Span {
        Span { start: (self.start + delta) as u32, end: (self.end + delta) as u32 }
    }

    /// Shift both ends by a signed delta (wrapping into `u32` as a cast does).
    pub fn shifted(self, delta: i64) -> (s: Span)
        ensures
            s == self.spec_shifted(delta),
    {
        let a: i128 = self.start as i128 + delta as i128;
        let b: i128 = self.end as i128 + delta as i128;
        Span { start: a as u32, end: b as u32 }
    }
}

/// One based line and column, the shape editors present to a user.
#[derive(Clone, Copy, Debug, PartialEq, Eq, Structural)]
pub struct LineCol {
    pub line: u32,
    pub col: u32,
}

/// Number of newline bytes in `bytes[0..k]`.
pub open spec fn newlines_before(bytes: Seq<u8>, k: int) -> nat
    decreases k,
{
    if k <= 0 {
        0
    } else {
        newlines_before(bytes, k - 1) + if bytes[k - 1] == 10u8 { 1nat } else { 0nat }
    }
}

/// Number of bytes since the last newline in `bytes[0..k]` (the whole prefix when
/// there is none).
pub open spec fn bytes_since_newline(bytes: Seq<u8>, k: int) -> nat
    decreases k,
{
    if k <= 0 {
        0
    } else if bytes[k - 1] == 10u8 {
        0
    } else {
        bytes_since_newline(bytes, k - 1) + 1
    }
}

proof fn lemma_counts_bounded(bytes: Seq<u8>, k: int)
    requires
        0 <= k,
    ensures
        newlines_before(bytes, k) <= k,
        bytes_since_newline(bytes, k) <= k,
    decreases k,
{
    if k > 0 {
        lemma_counts_bounded(bytes, k - 1);
    }
}

/// Line and column of byte `offset` (clamped to the text) of `bytes`.
pub open spec fn spec_linecol(bytes: Seq<u8>, offset: u32) -> LineCol {
    let k = if offset < bytes.len() { offset as int } else { bytes.len() as int };
    LineCol {
        line: (newlines_before(bytes, k) + 1) as u32,
        col: (bytes_since_newline(bytes, k) + 1) as u32,
    }
}

/// Convert a byte offset into a one based line and column.
pub fn offset_to_linecol(text: &str, offset: u32) -> (lc: LineCol)
    requires
        text.spec_bytes().len() < u32::MAX,
    ensures
        lc == spec_linecol(text.spec_bytes(), offset),
{
    let bytes = text.as_bytes();
    let n: usize = if (offset as usize) < bytes.len() { offset as usize } else { bytes.len() };
    let mut line: u32 = 1;
    let mut col: u32 = 1;
    let mut i: usize = 0;
    while i < n
        invariant
            n <= bytes@.len() < u32::MAX,
            i <= n,
            line == newlines_before(bytes@, i as int) + 1,
            col == bytes_since_newline(bytes@, i as int) + 1,
        decreases n - i,
    {
        proof {
            lemma_counts_bounded(bytes@, i as int);
        }
        if bytes[i] == 10u8 {
            line = line + 1;
            col = 1;
        } else {
            col = col + 1;
        }
        i = i + 1;
    }
    LineCol { line, col }
}

/// Index just past the first `line - 1` newlines at or after the start, scanning
/// from `idx` (the start of line `cur`), stopping at the end of the text.
pub open spec fn line_start_from(bytes: Seq<u8>, idx: int, cur: int, line: int) -> int
    decreases bytes.len() - idx,
{
    if cur < line && 0 <= idx < bytes.len() {
        line_start_from(bytes, idx + 1, if bytes[idx] == 10u8 { cur + 1 } else { cur }, line)
    } else {
        idx
    }
}

/// Advance from `idx` by up to `col - cur` bytes, stopping at a newline or the end.
pub open spec fn col_from(bytes: Seq<u8>, idx: int, cur: int, col: int) -> int
    decreases bytes.len() - idx,
{
    if cur < col && 0 <= idx < bytes.len() && bytes[idx] != 10u8 {
        col_from(bytes, idx + 1, cur + 1, col)
    } else {
        idx
    }
}

pub open spec fn spec_linecol_to_offset(bytes: Seq<u8>, line: u32, col: u32) -> int {
    col_from(bytes, line_start_from(bytes, 0, 1, line as int), 1, col as int)
}

/// Convert a one based line and column into a byte offset, clamped to the text.
pub fn linecol_to_offset(text: &str, line: u32, col: u32) -> (off: u32)
    requires
        text.spec_bytes().len() <= u32::MAX,
    ensures
        off == spec_linecol_to_offset(text.spec_bytes(), line, col),
{
    let bytes = text.as_bytes();
    let mut cur_line: u32 = 1;
    let mut idx: usize = 0;
    while cur_line < line && idx < bytes.len()
        invariant
            idx <= bytes@.len() <= u32::MAX,
            1 <= cur_line <= line || cur_line == 1,
            cur_line <= idx + 1,
            line_start_from(bytes@, idx as int, cur_line as int, line as int)
                == line_start_from(bytes@, 0, 1, line as int),
        decreases bytes@.len() - idx,
    {
        if bytes[idx] == 10u8 {
            cur_line = cur_line + 1;
        }
        idx = idx + 1;
    }
    let ghost start = idx as int;
    let mut cur_col: u32 = 1;
    while cur_col < col && idx < bytes.len() && bytes[idx] != 10u8
        invariant
            start <= idx <= bytes@.len() <= u32::MAX,
            cur_col as int == 1 + idx - start,
            col_from(bytes@, idx as int, cur_col as int, col as int)
                == col_from(bytes@, start, 1, col as int),
        decreases bytes@.len() - idx,
    {
        idx = idx + 1;
        cur_col = cur_col + 1;
    }
    idx as u32
}

/// Counting newlines never goes down as the prefix grows.
proof fn lemma_newlines_mono(bytes: Seq<u8>, i: int, j: int)
    requires
        0 <= i <= j,
    ensures
        newlines_before(bytes, i) <= newlines_before(bytes, j),
    decreases j - i,
{
    if i < j {
        lemma_newlines_mono(bytes, i, j - 1);
    }
}

/// The line holding byte offset `k` starts `bytes_since_newline` bytes before
/// it: at the start of the text or just after a newline, with no newline in
/// between, and as many newlines before it as before `k`.
pub proof fn law_line_start(bytes: Seq<u8>, k: int)
    requires
        0 <= k <= bytes.len(),
    ensures
        ({
            let ls = k - bytes_since_newline(bytes, k);
            &&& 0 <= ls <= k
            &&& ls == 0 || bytes[ls - 1] == 10u8
            &&& forall|j: int| ls <= j < k ==> bytes[j] != 10u8
            &&& newlines_before(bytes, ls) == newlines_before(bytes, k)
        }),
    decreases k,
{
    if k > 0 {
        law_line_start(bytes, k - 1);
    }
}

proof fn lemma_line_start_from(bytes: Seq<u8>, idx: int, ls: int, line: int)
    requires
        0 <= idx <= ls <= bytes.len(),
        ls == 0 || bytes[ls - 1] == 10u8,
        line == newlines_before(bytes, ls) + 1,
    ensures
        line_start_from(bytes, idx, newlines_before(bytes, idx) + 1int, line) == ls,
    decreases ls - idx,
{
    if idx < ls {
        lemma_newlines_mono(bytes, idx, ls - 1);
        lemma_line_start_from(bytes, idx + 1, ls, line);
    }
}

proof fn lemma_col_from(bytes: Seq<u8>, idx: int, ls: int, k: int)
    requires
        0 <= ls <= idx <= k <= bytes.len(),
        forall|j: int| ls <= j < k ==> bytes[j] != 10u8,
    ensures
        col_from(bytes, idx, idx - ls + 1, k - ls + 1) == k,
    decreases k - idx,
{
    if idx < k {
        lemma_col_from(bytes, idx + 1, ls, k);
    }
}

/// Turning an offset within the text into a line and column and back gives
/// the offset again.
pub proof fn law_linecol_roundtrip(bytes: Seq<u8>, offset: u32)
    requires
        offset <= bytes.len() < u32::MAX,
    ensures
        spec_linecol_to_offset(bytes, spec_linecol(bytes, offset).line, spec_linecol(bytes, offset).col)
            == offset,
{
    let k = offset as int;
    lemma_counts_bounded(bytes, k);
    law_line_start(bytes, k);
    let ls = k - bytes_since_newline(bytes, k);
    let lc = spec_linecol(bytes, offset);
    assert(lc.line == newlines_before(bytes, k) + 1);
    assert(lc.col == bytes_since_newline(bytes, k) + 1);
    lemma_line_start_from(bytes, 0, ls, lc.line as int);
    assert(newlines_before(bytes, 0) == 0);
    lemma_col_from(bytes, ls, ls, k);
}

proof fn lemma_line_start_from_bound(bytes: Seq<u8>, idx: int, cur: int, line: int)
    requires
        0 <= idx <= bytes.len(),
    ensures
        idx <= line_start_from(bytes, idx, cur, line) <= bytes.len(),
    decreases bytes.len() - idx,
{
    if cur < line && idx < bytes.len() {
        lemma_line_start_from_bound(bytes, idx + 1, if bytes[idx] == 10u8 { cur + 1 } else { cur }, line);
    }
}

proof fn lemma_col_from_bound(bytes: Seq<u8>, idx: int, cur: int, col: int)
    requires
        0 <= idx <= bytes.len(),
    ensures
        idx <= col_from(bytes, idx, cur, col) <= bytes.len(),
    decreases bytes.len() - idx,
{
    if cur < col && idx < bytes.len() && bytes[idx] != 10u8 {
        lemma_col_from_bound(bytes, idx + 1, cur + 1, col);
    }
}

/// A line and column always turn into an offset within the text: past the
/// last line or the end of a line it stops at the end of the text or line.
pub proof fn law_linecol_to_offset_within(bytes: Seq<u8>, line: u32, col: u32)
    ensures
        0 <= spec_linecol_to_offset(bytes, line, col) <= bytes.len(),
{
    lemma_line_start_from_bound(bytes, 0, 1, line as int);
    lemma_col_from_bound(bytes, line_start_from(bytes, 0, 1, line as int), 1, col as int);
}

} // verus!
