//! Splitting UTF-8 text into lines and locating positions in it.

use vstd::prelude::*;
use vstd::utf8::*;
use crate::bytes::{NL, CR, LBRACKET, RBRACKET, cut_ok, lemma_cut_after_ascii, trim, trim_window};

verus! {

/// End (exclusive) of the `'\n'`-terminated segment that starts at `i`: just
/// past the next `'\n'`, or the end of the text.
pub open spec fn segment_end(t: Seq<u8>, i: int) -> int
    decreases t.len() - i,
{
    if i >= t.len() {
        t.len() as int
    } else if t[i] == NL {
        i + 1
    } else {
        segment_end(t, i + 1)
    }
}

/// End of the window `(lo, hi)` once every trailing `'\r'` and `'\n'` is removed.
pub open spec fn strip_breaks_end(t: Seq<u8>, lo: int, hi: int) -> int
    decreases hi - lo,
{
    if lo < hi && 0 < hi <= t.len() && (t[hi - 1] == NL || t[hi - 1] == CR) {
        strip_breaks_end(t, lo, hi - 1)
    } else {
        hi
    }
}

/// A segment that starts inside the text ends after its start, within the text.
pub proof fn lemma_segment_end_bounds(t: Seq<u8>, i: int)
    requires
        0 <= i < t.len(),
    ensures
        i < segment_end(t, i) <= t.len(),
    decreases t.len() - i,
{
    if t[i] != NL {
        if i + 1 < t.len() {
            lemma_segment_end_bounds(t, i + 1);
        } else {
            assert(segment_end(t, i + 1) == t.len());
        }
    }
}

/// The line ranges of `t` from byte `start` on: one `(start, end)` per
/// `'\n'`-terminated segment, `end` excluding the trailing line breaks.
pub open spec fn line_ranges_from(t: Seq<u8>, start: int) -> Seq<(int, int)>
    decreases t.len() - start,
{
    if start < 0 || start >= t.len() {
        seq![]
    } else {
        let e = segment_end(t, start);
        proof {
            lemma_segment_end_bounds(t, start);
        }
        seq![(start, strip_breaks_end(t, start, e))] + line_ranges_from(t, e)
    }
}

/// The line ranges of `t`; an empty text has the single empty line `(0, 0)`.
pub open spec fn spec_line_ranges(t: Seq<u8>) -> Seq<(int, int)> {
    if t.len() == 0 {
        seq![(0int, 0int)]
    } else {
        line_ranges_from(t, 0)
    }
}

/// The ranges of a vector of `(usize, usize)` pairs, as integers.
pub open spec fn ranges_view(v: Seq<(usize, usize)>) -> Seq<(int, int)> {
    v.map_values(|p: (usize, usize)| (p.0 as int, p.1 as int))
}

/// Every range lies within `t`, and each bound is a cut position of the UTF-8
/// text `t`.
pub open spec fn ranges_wf(t: Seq<u8>, r: Seq<(int, int)>) -> bool {
    &&& forall|i: int| 0 <= i < r.len() ==> 0 <= #[trigger] r[i].0 <= r[i].1 <= t.len()
    &&& forall|i: int| 0 <= i < r.len() && valid_utf8(t) ==> cut_ok(t, #[trigger] r[i].0) && cut_ok(t, r[i].1)
}

/// Each range ends no later than every later range starts.
pub open spec fn ranges_ordered(r: Seq<(int, int)>) -> bool {
    forall|i: int, j: int| 0 <= i < j < r.len() ==> #[trigger] r[i].1 <= #[trigger] r[j].0
}

proof fn lemma_ranges_wf_intro(t: Seq<u8>, r: Seq<(int, int)>)
    requires
        forall|i: int| 0 <= i < r.len() ==> 0 <= #[trigger] r[i].0 <= r[i].1 <= t.len(),
        forall|i: int| 0 <= i < r.len() && valid_utf8(t) ==> cut_ok(t, #[trigger] r[i].0) && cut_ok(t, r[i].1),
    ensures
        ranges_wf(t, r),
{
}

proof fn lemma_strip_breaks_end(t: Seq<u8>, lo: int, hi: int)
    requires
        0 <= lo <= hi <= t.len(),
        valid_utf8(t) ==> cut_ok(t, hi),
    ensures
        lo <= strip_breaks_end(t, lo, hi) <= hi,
        valid_utf8(t) ==> cut_ok(t, strip_breaks_end(t, lo, hi)),
    decreases hi - lo,
{
    if lo < hi && 0 < hi <= t.len() && (t[hi - 1] == NL || t[hi - 1] == CR) {
        lemma_strip_breaks_end(t, lo, hi - 1);
    }
}

proof fn lemma_segment_end_cut(t: Seq<u8>, i: int)
    requires
        0 <= i < t.len(),
        valid_utf8(t),
    ensures
        cut_ok(t, segment_end(t, i)),
    decreases t.len() - i,
{
    if t[i] == NL {
        lemma_cut_after_ascii(t, i);
    } else if i + 1 < t.len() {
        lemma_segment_end_cut(t, i + 1);
    }
}

proof fn lemma_line_ranges_from_wf(t: Seq<u8>, start: int)
    requires
        0 <= start <= t.len(),
        valid_utf8(t) ==> cut_ok(t, start),
    ensures
        ranges_wf(t, line_ranges_from(t, start)),
        ranges_ordered(line_ranges_from(t, start)),
        forall|i: int| 0 <= i < line_ranges_from(t, start).len() ==> start <= #[trigger] line_ranges_from(t, start)[i].0,
    decreases t.len() - start,
{
    if start < t.len() {
        let e = segment_end(t, start);
        lemma_segment_end_bounds(t, start);
        if valid_utf8(t) {
            lemma_segment_end_cut(t, start);
        }
        lemma_strip_breaks_end(t, start, e);
        lemma_line_ranges_from_wf(t, e);
        let rest = line_ranges_from(t, e);
        let all = line_ranges_from(t, start);
        assert(all =~= seq![(start, strip_breaks_end(t, start, e))] + rest);
        assert(all[0] == (start, strip_breaks_end(t, start, e)));
        assert forall|i: int| 0 <= i < all.len() implies 0 <= #[trigger] all[i].0 <= all[i].1 <= t.len() && start <= all[i].0 by {
            if i > 0 {
                assert(all[i] == rest[i - 1]);
            }
        }
        assert forall|i: int| 0 <= i < all.len() && valid_utf8(t) implies cut_ok(t, #[trigger] all[i].0) && cut_ok(t, all[i].1) by {
            if i > 0 {
                assert(all[i] == rest[i - 1]);
            }
        }
        lemma_ranges_wf_intro(t, all);
        assert forall|i: int, j: int| 0 <= i < j < all.len() implies #[trigger] all[i].1 <= #[trigger] all[j].0 by {
            assert(all[j] == rest[j - 1]);
            if i > 0 {
                assert(all[i] == rest[i - 1]);
            }
        }
    } else {
        assert(line_ranges_from(t, start) =~= Seq::<(int, int)>::empty());
    }
}

/// The line ranges of any text lie within it, in order, at cut positions.
pub proof fn lemma_line_ranges_wf(t: Seq<u8>)
    ensures
        ranges_wf(t, spec_line_ranges(t)),
        ranges_ordered(spec_line_ranges(t)),
        spec_line_ranges(t).len() >= 1,
{
    if t.len() > 0 {
        lemma_line_ranges_from_wf(t, 0);
        lemma_segment_end_bounds(t, 0);
    }
}

/// The `(start, end)` byte range of every line of `text`; `end` excludes the
/// line's trailing `'\r'` and `'\n'` bytes. An empty text has one empty line.
pub fn line_ranges(text: &[u8]) -> (ranges: Vec<(usize, usize)>)
    ensures
        ranges_view(ranges@) == spec_line_ranges(text@),
{
    let n = text.len();
    let mut ranges: Vec<(usize, usize)> = Vec::new();
    let mut start: usize = 0;
    while start < n
        invariant
            n == text@.len(),
            start <= n,
            ranges_view(ranges@) + line_ranges_from(text@, start as int) == line_ranges_from(text@, 0),
        decreases n - start,
    {
        let mut e = start;
        while e < n && text[e] != NL
            invariant
                start <= e <= n == text@.len(),
                segment_end(text@, e as int) == segment_end(text@, start as int),
            decreases n - e,
        {
            e = e + 1;
        }
        if e < n {
            e = e + 1;
        }
        let mut end = e;
        while end > start && (text[end - 1] == NL || text[end - 1] == CR)
            invariant
                start <= end <= e <= n == text@.len(),
                strip_breaks_end(text@, start as int, end as int) == strip_breaks_end(text@, start as int, e as int),
            decreases end - start,
        {
            end = end - 1;
        }
        proof {
            lemma_segment_end_bounds(text@, start as int);
            let old_ranges = ranges@;
            assert(line_ranges_from(text@, start as int) =~= seq![(start as int, end as int)] + line_ranges_from(text@, e as int));
            assert(ranges_view(old_ranges.push((start, end))) =~= ranges_view(old_ranges) + seq![(start as int, end as int)]);
        }
        ranges.push((start, end));
        start = e;
    }
    if n == 0 {
        ranges.push((0, 0));
        proof {
            assert(ranges_view(ranges@) =~= seq![(0int, 0int)]);
        }
    } else {
        proof {
            assert(line_ranges_from(text@, start as int) =~= Seq::<(int, int)>::empty());
            assert(ranges_view(ranges@) =~= ranges_view(ranges@) + line_ranges_from(text@, start as int));
        }
    }
    ranges
}


/// Index of the first range in `r`, from index `i` on, that contains `offset`
/// (bounds included).
pub open spec fn first_range_at(r: Seq<(int, int)>, offset: int, i: int) -> Option<int>
    decreases r.len() - i,
{
    if i < 0 || i >= r.len() {
        None
    } else if r[i].0 <= offset <= r[i].1 {
        Some(i)
    } else {
        first_range_at(r, offset, i + 1)
    }
}

/// Index of the first line whose range contains `offset`.
pub fn line_index_for_offset(lines: &[(usize, usize)], offset: usize) -> (r: Option<usize>)
    ensures
        r matches Some(i) ==> first_range_at(ranges_view(lines@), offset as int, 0) == Some(i as int),
        r is None ==> first_range_at(ranges_view(lines@), offset as int, 0) is None,
        r matches Some(i) ==> i < lines@.len() && lines@[i as int].0 <= offset <= lines@[i as int].1,
        r matches Some(i) ==> forall|j: int| 0 <= j < i ==> !(#[trigger] lines@[j].0 <= offset <= lines@[j].1),
        r is None ==> forall|j: int| 0 <= j < lines@.len() ==> !(#[trigger] lines@[j].0 <= offset <= lines@[j].1),
{
    let n = lines.len();
    let ghost rv = ranges_view(lines@);
    let mut i: usize = 0;
    while i < n
        invariant
            n == lines@.len(),
            rv == ranges_view(lines@),
            i <= n,
            first_range_at(rv, offset as int, i as int) == first_range_at(rv, offset as int, 0),
            forall|j: int| 0 <= j < i ==> !(#[trigger] lines@[j].0 <= offset <= lines@[j].1),
        decreases n - i,
    {
        let (start, end) = lines[i];
        if start <= offset && offset <= end {
            return Some(i);
        }
        i = i + 1;
    }
    None
}

/// The bytes of `text` in `range`.
pub fn line_text(text: &[u8], range: (usize, usize)) -> (r: &[u8])
    requires
        range.0 <= range.1 <= text@.len(),
    ensures
        r@ == text@.subrange(range.0 as int, range.1 as int),
{
    &text[range.0..range.1]
}

/// `s`, once trimmed of whitespace, is a bracketed attribute list `[...]`.
pub open spec fn is_attribute_text(s: Seq<u8>) -> bool {
    let (a, b) = trim_window(s, 0, s.len() as int);
    a < b && s[a] == LBRACKET && s[b - 1] == RBRACKET
}

/// Whether the line, trimmed, starts with `'['` and ends with `']'`.
pub fn is_attribute_line(line: &[u8]) -> (r: bool)
    ensures
        r == is_attribute_text(line@),
{
    let (a, b) = trim(line, 0, line.len());
    a < b && line[a] == LBRACKET && line[b - 1] == RBRACKET
}

/// Index of the next `'\n'` at or after `i`, or the end of the text.
pub open spec fn piece_end(t: Seq<u8>, i: int) -> int
    decreases t.len() - i,
{
    if i >= t.len() {
        t.len() as int
    } else if t[i] == NL {
        i
    } else {
        piece_end(t, i + 1)
    }
}

/// The end of a piece lies between its start and the end of the text, at a `'\n'`
/// unless at the end.
pub proof fn lemma_piece_end_bounds(t: Seq<u8>, i: int)
    requires
        0 <= i <= t.len(),
    ensures
        i <= piece_end(t, i) <= t.len(),
        piece_end(t, i) < t.len() ==> t[piece_end(t, i)] == NL,
    decreases t.len() - i,
{
    if i < t.len() && t[i] != NL {
        lemma_piece_end_bounds(t, i + 1);
    }
}

/// Byte offset of column `col` on line `line`, counting lines of `t` split at
/// `'\n'` from the piece that starts at `start`; the column is clamped to the
/// line's length. `None` when the text has fewer lines.
pub open spec fn offset_from(t: Seq<u8>, line: int, col: int, start: int) -> Option<int>
    decreases t.len() - start,
{
    if start < 0 || start > t.len() {
        None
    } else {
        let e = piece_end(t, start);
        proof {
            lemma_piece_end_bounds(t, start);
        }
        if line <= 0 {
            Some(start + if col < e - start { col } else { e - start })
        } else if e >= t.len() {
            None
        } else {
            offset_from(t, line - 1, col, e + 1)
        }
    }
}

/// Byte offset of a (line, column) position in `t`; lines are the pieces of
/// `t` between `'\n'` bytes and the column, in bytes, is clamped to the line.
pub open spec fn spec_offset_from_position(t: Seq<u8>, line: int, col: int) -> Option<int> {
    offset_from(t, line, col, 0)
}

/// Byte offset of the position at `line` and `character` (a byte column,
/// clamped to the line's length); `None` when `text` has no such line.
pub fn offset_from_line_col(text: &[u8], line: u32, character: u32) -> (r: Option<usize>)
    ensures
        r matches Some(o) ==> spec_offset_from_position(text@, line as int, character as int) == Some(o as int),
        r is None ==> spec_offset_from_position(text@, line as int, character as int) is None,
{
    let n = text.len();
    let target_line = line as usize;
    let target_col = character as usize;
    let mut current: usize = 0;
    let mut start: usize = 0;
    loop
        invariant
            n == text@.len(),
            target_line == line as usize,
            target_col == character as usize,
            start <= n,
            current <= target_line,
            offset_from(text@, (target_line - current) as int, target_col as int, start as int)
                == spec_offset_from_position(text@, target_line as int, target_col as int),
        decreases n - start,
    {
        let mut e = start;
        while e < n && text[e] != NL
            invariant
                start <= e <= n == text@.len(),
                piece_end(text@, e as int) == piece_end(text@, start as int),
            decreases n - e,
        {
            e = e + 1;
        }
        proof {
            lemma_piece_end_bounds(text@, start as int);
        }
        if current == target_line {
            let len = e - start;
            let col = if target_col < len { target_col } else { len };
            return Some(start + col);
        }
        if e >= n {
            return None;
        }
        start = e + 1;
        current = current + 1;
    }
}


proof fn lemma_offset_from_bounds(t: Seq<u8>, line: int, col: int, start: int)
    requires
        0 <= start <= t.len(),
        col >= 0,
    ensures
        offset_from(t, line, col, start) matches Some(o) ==> start <= o <= t.len(),
    decreases t.len() - start,
{
    lemma_piece_end_bounds(t, start);
    let e = piece_end(t, start);
    if line > 0 && e < t.len() {
        lemma_offset_from_bounds(t, line - 1, col, e + 1);
    }
}

/// The offset of a position lies within the text; on the first line it is the
/// column, clamped to the line's length.
pub proof fn law_offset_within_text(t: Seq<u8>, line: int, col: int)
    requires
        col >= 0,
    ensures
        spec_offset_from_position(t, line, col) matches Some(o) ==> 0 <= o <= t.len(),
        spec_offset_from_position(t, 0, col) == Some(if col < piece_end(t, 0) { col } else { piece_end(t, 0) }),
{
    lemma_offset_from_bounds(t, line, col, 0);
    lemma_piece_end_bounds(t, 0);
}

} // verus!
