//! Extraction of the documentation comment that precedes a declaration.

use vstd::prelude::*;
use vstd::utf8::*;
use crate::bytes::{
    NL, CR, SLASH, STAR, trim, trim_window, trim_start_from, trim_start_window, starts_with_pair,
    starts_with_pair_exec, strip_pairs_from, strip_pairs_window, strip_bytes_from,
    strip_bytes_window, find_pair, find_pair_exec, rfind_pair, rfind_pair_exec, cut_ok,
    lemma_window_valid, lemma_cut_after_ascii, lemma_trim_cut, lemma_trim_start_cut,
    lemma_strip_pairs_cut, lemma_strip_bytes_cut, lemma_find_pair_bounds, lemma_rfind_pair_bounds,
    ends_with_pair, ends_with_pair_exec, string_from_utf8, pair_at, lemma_find_pair_some,
    lemma_rfind_pair_at_least, lemma_trim_window_marks,
};
use crate::lines::{
    ranges_view, ranges_wf, spec_line_ranges, first_range_at, is_attribute_text, line_ranges,
    line_index_for_offset, line_text, is_attribute_line, lemma_line_ranges_wf,
};

verus! {

/// The byte strings of a vector of byte vectors.
pub open spec fn lines_view(v: Seq<Vec<u8>>) -> Seq<Seq<u8>> {
    v.map_values(|x: Vec<u8>| x@)
}

/// Optional bytes as a sequence.
pub open spec fn opt_bytes(o: Option<Vec<u8>>) -> Option<Seq<u8>> {
    match o {
        Some(v) => Some(v@),
        None => None,
    }
}

/// The byte strings joined with the byte `sep` between consecutive ones.
pub open spec fn join_with(ls: Seq<Seq<u8>>, sep: u8) -> Seq<u8>
    decreases ls.len(),
{
    if ls.len() == 0 {
        seq![]
    } else if ls.len() == 1 {
        ls[0]
    } else {
        join_with(ls.drop_last(), sep) + seq![sep] + ls.last()
    }
}

/// The byte strings joined with `'\n'` between consecutive ones.
pub open spec fn join_lines(ls: Seq<Seq<u8>>) -> Seq<u8> {
    join_with(ls, NL)
}

/// `s` holds nothing but whitespace.
pub open spec fn is_blank(s: Seq<u8>) -> bool {
    trim_window(s, 0, s.len() as int).0 == trim_window(s, 0, s.len() as int).1
}

/// `ls` without its leading blank lines.
pub open spec fn drop_blank_front(ls: Seq<Seq<u8>>) -> Seq<Seq<u8>>
    decreases ls.len(),
{
    if ls.len() > 0 && is_blank(ls[0]) {
        drop_blank_front(ls.drop_first())
    } else {
        ls
    }
}

/// `ls` without its trailing blank lines.
pub open spec fn drop_blank_back(ls: Seq<Seq<u8>>) -> Seq<Seq<u8>>
    decreases ls.len(),
{
    if ls.len() > 0 && is_blank(ls.last()) {
        drop_blank_back(ls.drop_last())
    } else {
        ls
    }
}

/// The documentation made of `ls`: leading and trailing blank lines dropped,
/// the rest joined with `'\n'`; nothing when no line is left.
pub open spec fn spec_normalize_doc_lines(ls: Seq<Seq<u8>>) -> Option<Seq<u8>> {
    let core = drop_blank_back(drop_blank_front(ls));
    if core.len() == 0 {
        None
    } else {
        Some(join_lines(core))
    }
}

/// A copy of the window `(lo, hi)` of `s`.
pub fn copy_window(s: &[u8], lo: usize, hi: usize) -> (r: Vec<u8>)
    requires
        lo <= hi <= s@.len(),
    ensures
        r@ == s@.subrange(lo as int, hi as int),
{
    let mut r: Vec<u8> = Vec::new();
    push_window(&mut r, s, lo, hi);
    r
}

/// Appends the window `(lo, hi)` of `s` to `out`.
pub fn push_window(out: &mut Vec<u8>, s: &[u8], lo: usize, hi: usize)
    requires
        lo <= hi <= s@.len(),
    ensures
        final(out)@ == old(out)@ + s@.subrange(lo as int, hi as int),
{
    let ghost start = out@;
    let mut i = lo;
    while i < hi
        invariant
            lo <= i <= hi <= s@.len(),
            out@ == start + s@.subrange(lo as int, i as int),
        decreases hi - i,
    {
        out.push(s[i]);
        i = i + 1;
        proof {
            assert(s@.subrange(lo as int, i as int) =~= s@.subrange(lo as int, i - 1) + seq![s@[i - 1]]);
        }
    }
}

/// Whether `s` holds nothing but whitespace.
pub fn is_blank_line(s: &[u8]) -> (r: bool)
    ensures
        r == is_blank(s@),
{
    let (a, b) = trim(s, 0, s.len());
    a == b
}

proof fn lemma_lines_view_push(v: Seq<Vec<u8>>, x: Vec<u8>)
    ensures
        lines_view(v.push(x)) == lines_view(v).push(x@),
{
    assert(lines_view(v.push(x)) =~= lines_view(v).push(x@));
}

/// The byte strings joined with the byte `sep` between consecutive ones.
pub fn join_bytes(lines: &Vec<Vec<u8>>, sep: u8) -> (r: Vec<u8>)
    ensures
        r@ == join_with(lines_view(lines@), sep),
{
    let ghost v = lines_view(lines@);
    let n = lines.len();
    let mut out: Vec<u8> = Vec::new();
    let mut i: usize = 0;
    while i < n
        invariant
            n == lines@.len(),
            v == lines_view(lines@),
            i <= n,
            out@ == join_with(v.take(i as int), sep),
        decreases n - i,
    {
        if i > 0 {
            out.push(sep);
        }
        let piece = lines[i].as_slice();
        push_window(&mut out, piece, 0, piece.len());
        proof {
            let t = v.take(i + 1);
            assert(t.drop_last() =~= v.take(i as int));
            assert(t.last() == v[i as int]);
            assert(piece@.subrange(0, piece@.len() as int) =~= v[i as int]);
            if i == 0 {
                assert(join_with(v.take(0), sep) =~= Seq::<u8>::empty());
                assert(out@ =~= v[0]);
            }
        }
        i = i + 1;
    }
    proof {
        assert(v.take(n as int) =~= v);
    }
    out
}

/// Drops the leading and trailing blank lines and joins the rest with
/// `'\n'`; `None` when no line is left.
pub fn normalize_doc_lines(lines: Vec<Vec<u8>>) -> (r: Option<Vec<u8>>)
    ensures
        opt_bytes(r) == spec_normalize_doc_lines(lines_view(lines@)),
{
    let ghost orig = lines_view(lines@);
    let mut lines = lines;
    while lines.len() > 0 && is_blank_line(lines[0].as_slice())
        invariant
            drop_blank_front(lines_view(lines@)) == drop_blank_front(orig),
        decreases lines@.len(),
    {
        let ghost before = lines@;
        lines.remove(0);
        proof {
            assert(lines_view(lines@) =~= lines_view(before).drop_first());
        }
    }
    proof {
        assert(drop_blank_front(lines_view(lines@)) == lines_view(lines@));
    }
    while lines.len() > 0 && is_blank_line(lines[lines.len() - 1].as_slice())
        invariant
            drop_blank_back(lines_view(lines@)) == drop_blank_back(drop_blank_front(orig)),
        decreases lines@.len(),
    {
        let ghost before = lines@;
        lines.pop();
        proof {
            assert(lines_view(lines@) =~= lines_view(before).drop_last());
        }
    }
    proof {
        assert(drop_blank_back(lines_view(lines@)) == lines_view(lines@));
    }
    if lines.len() == 0 {
        None
    } else {
        Some(join_bytes(&lines, NL))
    }
}


/// Every range of `r` lies within the text `t`.
pub open spec fn ranges_in(t: Seq<u8>, r: Seq<(int, int)>) -> bool {
    forall|i: int| 0 <= i < r.len() ==> 0 <= #[trigger] r[i].0 <= r[i].1 <= t.len()
}

/// The text of line `line` once comment markers are removed: trimmed, every
/// leading `"//"` stripped, then trimmed at the start again.
pub open spec fn line_comment_text(t: Seq<u8>, r: Seq<(int, int)>, line: int) -> Seq<u8> {
    let (a, b) = trim_window(t, r[line].0, r[line].1);
    t.subrange(trim_start_from(t, strip_pairs_from(t, a, b, SLASH, SLASH), b), b)
}

/// Line `line`, trimmed, starts with `"//"`.
pub open spec fn is_line_comment(t: Seq<u8>, r: Seq<(int, int)>, line: int) -> bool {
    let (a, b) = trim_window(t, r[line].0, r[line].1);
    starts_with_pair(t, a, b, SLASH, SLASH)
}

/// The texts of the run of `//` comment lines that ends at line `line`, in
/// document order.
pub open spec fn line_comment_lines(t: Seq<u8>, r: Seq<(int, int)>, line: int) -> Seq<Seq<u8>>
    decreases line,
{
    if line < 0 || line >= r.len() || !is_line_comment(t, r, line) {
        seq![]
    } else if line == 0 {
        seq![line_comment_text(t, r, line)]
    } else {
        line_comment_lines(t, r, line - 1).push(line_comment_text(t, r, line))
    }
}

/// The documentation held by the run of `//` comment lines that ends at `line`.
pub open spec fn spec_collect_line_comments(t: Seq<u8>, r: Seq<(int, int)>, line: int) -> Option<Seq<u8>> {
    spec_normalize_doc_lines(line_comment_lines(t, r, line))
}

/// The documentation of the `//` comment lines that end at line `line`:
/// walking up from `line` while lines start with `"//"`, each line loses its
/// comment markers; blank lines at either end are dropped.
pub fn collect_line_comments(text: &[u8], lines: &[(usize, usize)], line: usize) -> (r: Option<Vec<u8>>)
    requires
        line < lines@.len(),
        ranges_in(text@, ranges_view(lines@)),
    ensures
        opt_bytes(r) == spec_collect_line_comments(text@, ranges_view(lines@), line as int),
{
    let ghost t = text@;
    let ghost rv = ranges_view(lines@);
    let mut docs: Vec<Vec<u8>> = Vec::new();
    let mut cur = line;
    loop
        invariant_except_break
            line_comment_lines(t, rv, line as int) == line_comment_lines(t, rv, cur as int) + lines_view(docs@),
        invariant
            t == text@,
            rv == ranges_view(lines@),
            ranges_in(t, rv),
            cur <= line < lines@.len(),
        ensures
            line_comment_lines(t, rv, line as int) == lines_view(docs@),
        decreases cur,
    {
        let (lo, hi) = lines[cur];
        assert(rv[cur as int] == (lo as int, hi as int));
        let (a, b) = trim(text, lo, hi);
        if !starts_with_pair_exec(text, a, b, SLASH, SLASH) {
            proof {
                assert(line_comment_lines(t, rv, cur as int) =~= Seq::<Seq<u8>>::empty());
                assert(line_comment_lines(t, rv, line as int) =~= lines_view(docs@));
            }
            break;
        }
        let s1 = strip_pairs_window(text, a, b, SLASH, SLASH);
        let s2 = trim_start_window(text, s1, b);
        let piece = copy_window(text, s2, b);
        let ghost before = docs@;
        docs.insert(0, piece);
        proof {
            assert(piece@ == line_comment_text(t, rv, cur as int));
            assert(lines_view(docs@) =~= seq![piece@] + lines_view(before));
        }
        if cur == 0 {
            proof {
                assert(line_comment_lines(t, rv, 0) =~= seq![piece@]);
                assert(line_comment_lines(t, rv, line as int) =~= lines_view(docs@));
            }
            break;
        }
        proof {
            assert(line_comment_lines(t, rv, cur as int) == line_comment_lines(t, rv, cur - 1).push(piece@));
            assert(line_comment_lines(t, rv, cur - 1).push(piece@) + lines_view(before) =~= line_comment_lines(t, rv, cur - 1) + lines_view(docs@));
        }
        cur = cur - 1;
    }
    normalize_doc_lines(docs)
}


/// Line `line` holds `"/*"`.
pub open spec fn opens_block(t: Seq<u8>, r: Seq<(int, int)>, line: int) -> bool {
    find_pair(t, r[line].0, r[line].1, SLASH, STAR) is Some
}

/// The lines of the block comment that ends at line `line`, in document
/// order: from the nearest line at or above it that holds `"/*"` (or the first
/// line of the text) down to `line`.
pub open spec fn block_lines(t: Seq<u8>, r: Seq<(int, int)>, line: int) -> Seq<Seq<u8>>
    decreases line,
{
    if line < 0 || line >= r.len() {
        seq![]
    } else if opens_block(t, r, line) || line == 0 {
        seq![t.subrange(r[line].0, r[line].1)]
    } else {
        block_lines(t, r, line - 1).push(t.subrange(r[line].0, r[line].1))
    }
}

/// Start of a block comment's body: just past its first `"/*"`, or 0.
pub open spec fn block_body_start(j: Seq<u8>) -> int {
    match find_pair(j, 0, j.len() as int, SLASH, STAR) {
        Some(i) => i + 2,
        None => 0,
    }
}

/// End of a block comment's body: at its last `"*/"`, or its end.
pub open spec fn block_body_end(j: Seq<u8>) -> int {
    match rfind_pair(j, 0, j.len() as int, STAR, SLASH) {
        Some(i) => i,
        None => j.len() as int,
    }
}

/// Index of the first `'\n'` in the window `(lo, hi)`, or `hi`.
pub open spec fn nl_in(j: Seq<u8>, lo: int, hi: int) -> int
    decreases hi - lo,
{
    if lo >= hi {
        hi
    } else if j[lo] == NL {
        lo
    } else {
        nl_in(j, lo + 1, hi)
    }
}

/// The first `'\n'` of a window lies within it.
pub proof fn lemma_nl_in_bounds(j: Seq<u8>, lo: int, hi: int)
    requires
        lo <= hi,
    ensures
        lo <= nl_in(j, lo, hi) <= hi,
    decreases hi - lo,
{
    if lo < hi && j[lo] != NL {
        lemma_nl_in_bounds(j, lo + 1, hi);
    }
}

/// A line of a block comment's body with its decoration removed: trimmed,
/// every leading `'*'` stripped, then trimmed at the start again.
pub open spec fn block_line_text(j: Seq<u8>, x: int, y: int) -> Seq<u8> {
    let (c, d) = trim_window(j, x, y);
    j.subrange(trim_start_from(j, strip_bytes_from(j, c, d, STAR), d), d)
}

/// The lines of the window `(lo, hi)`, split at `'\n'` (a `'\r'` before the
/// `'\n'` removed, no line after a final `'\n'`), each with its decoration
/// removed.
pub open spec fn block_body_lines(j: Seq<u8>, lo: int, hi: int) -> Seq<Seq<u8>>
    decreases hi - lo,
{
    if lo >= hi {
        seq![]
    } else {
        let p = nl_in(j, lo, hi);
        proof {
            lemma_nl_in_bounds(j, lo, hi);
        }
        if p < hi {
            let e = if p > lo && j[p - 1] == CR { p - 1 } else { p };
            seq![block_line_text(j, lo, e)] + block_body_lines(j, p + 1, hi)
        } else {
            seq![block_line_text(j, lo, hi)]
        }
    }
}

/// The joined lines of the block comment that ends at line `line`.
pub open spec fn block_text(t: Seq<u8>, r: Seq<(int, int)>, line: int) -> Seq<u8> {
    join_lines(block_lines(t, r, line))
}

/// The block comment that ends at line `line` has its first `"/*"` end no
/// later than its last `"*/"` starts.
pub open spec fn block_comment_defined(t: Seq<u8>, r: Seq<(int, int)>, line: int) -> bool {
    block_body_start(block_text(t, r, line)) <= block_body_end(block_text(t, r, line))
}

/// The documentation held by the block comment that ends at line `line`.
pub open spec fn spec_collect_block_comment(t: Seq<u8>, r: Seq<(int, int)>, line: int) -> Option<Seq<u8>> {
    let j = block_text(t, r, line);
    spec_normalize_doc_lines(block_body_lines(j, block_body_start(j), block_body_end(j)))
}

/// A line of a block comment's body with its decoration removed.
fn clean_block_line(j: &[u8], x: usize, y: usize) -> (r: Vec<u8>)
    requires
        x <= y <= j@.len(),
    ensures
        r@ == block_line_text(j@, x as int, y as int),
{
    let (c, d) = trim(j, x, y);
    let s = strip_bytes_window(j, c, d, STAR);
    let s2 = trim_start_window(j, s, d);
    copy_window(j, s2, d)
}

/// The lines of the block comment that ends at line `line`, from the nearest
/// line at or above it that holds `"/*"` (or the first line), joined with `'\n'`.
fn block_comment_text(text: &[u8], lines: &[(usize, usize)], line: usize) -> (r: Vec<u8>)
    requires
        line < lines@.len(),
        ranges_in(text@, ranges_view(lines@)),
    ensures
        r@ == block_text(text@, ranges_view(lines@), line as int),
{
    let ghost t = text@;
    let ghost rv = ranges_view(lines@);
    let mut docs: Vec<Vec<u8>> = Vec::new();
    let mut cur = line;
    loop
        invariant_except_break
            block_lines(t, rv, line as int) == block_lines(t, rv, cur as int) + lines_view(docs@),
        invariant
            t == text@,
            rv == ranges_view(lines@),
            ranges_in(t, rv),
            cur <= line < lines@.len(),
        ensures
            block_lines(t, rv, line as int) == lines_view(docs@),
        decreases cur,
    {
        let (lo, hi) = lines[cur];
        assert(rv[cur as int] == (lo as int, hi as int));
        let piece = copy_window(text, lo, hi);
        let ghost before = docs@;
        docs.insert(0, piece);
        proof {
            assert(lines_view(docs@) =~= seq![piece@] + lines_view(before));
        }
        if find_pair_exec(text, lo, hi, SLASH, STAR).is_some() || cur == 0 {
            proof {
                assert(block_lines(t, rv, cur as int) =~= seq![piece@]);
                assert(block_lines(t, rv, line as int) =~= lines_view(docs@));
            }
            break;
        }
        proof {
            assert(block_lines(t, rv, cur as int) == block_lines(t, rv, cur - 1).push(piece@));
            assert(block_lines(t, rv, cur - 1).push(piece@) + lines_view(before) =~= block_lines(t, rv, cur - 1) + lines_view(docs@));
        }
        cur = cur - 1;
    }
    join_bytes(&docs, NL)
}

/// The start and end of the body of the joined block comment `j`.
fn block_body_bounds(j: &[u8]) -> (r: (usize, usize))
    ensures
        r.0 as int == block_body_start(j@),
        r.1 as int == block_body_end(j@),
        r.1 <= j@.len(),
{
    let n = j.len();
    let start = match find_pair_exec(j, 0, n, SLASH, STAR) {
        Some(i) => i + 2,
        None => 0,
    };
    let end = match rfind_pair_exec(j, 0, n, STAR, SLASH) {
        Some(i) => i,
        None => n,
    };
    (start, end)
}

/// The documentation of the block comment that ends at line `line`: the lines
/// from the nearest one holding `"/*"` down to `line` are joined, the body
/// between the first `"/*"` and the last `"*/"` is split into lines, each
/// loses its decoration, and blank lines at either end are dropped.
pub fn collect_block_comment(text: &[u8], lines: &[(usize, usize)], line: usize) -> (r: Option<Vec<u8>>)
    requires
        line < lines@.len(),
        ranges_in(text@, ranges_view(lines@)),
        block_comment_defined(text@, ranges_view(lines@), line as int),
    ensures
        opt_bytes(r) == spec_collect_block_comment(text@, ranges_view(lines@), line as int),
{
    let joined = block_comment_text(text, lines, line);
    let j = joined.as_slice();
    let n = j.len();
    let (start, end) = block_body_bounds(j);
    let mut out: Vec<Vec<u8>> = Vec::new();
    let mut lo = start;
    while lo < end
        invariant
            start <= end <= n == j@.len(),
            start <= lo,
            block_body_lines(j@, start as int, end as int) == lines_view(out@) + block_body_lines(j@, lo as int, end as int),
        decreases end - lo,
    {
        let mut p = lo;
        while p < end && j[p] != NL
            invariant
                lo <= p <= end <= j@.len(),
                nl_in(j@, p as int, end as int) == nl_in(j@, lo as int, end as int),
            decreases end - p,
        {
            p = p + 1;
        }
        proof {
            lemma_nl_in_bounds(j@, lo as int, end as int);
        }
        let ghost before = out@;
        if p < end {
            let e = if p > lo && j[p - 1] == CR { p - 1 } else { p };
            let piece = clean_block_line(j, lo, e);
            out.push(piece);
            proof {
                lemma_lines_view_push(before, piece);
                assert(block_body_lines(j@, lo as int, end as int) == seq![piece@] + block_body_lines(j@, p + 1, end as int));
                assert(lines_view(before) + block_body_lines(j@, lo as int, end as int) =~= lines_view(out@) + block_body_lines(j@, p + 1, end as int));
            }
            lo = p + 1;
        } else {
            let piece = clean_block_line(j, lo, end);
            out.push(piece);
            proof {
                lemma_lines_view_push(before, piece);
                assert(block_body_lines(j@, lo as int, end as int) == seq![piece@]);
                assert(block_body_lines(j@, end as int, end as int) =~= Seq::<Seq<u8>>::empty());
                assert(lines_view(before) + block_body_lines(j@, lo as int, end as int) =~= lines_view(out@) + block_body_lines(j@, end as int, end as int));
            }
            lo = end;
        }
    }
    proof {
        assert(block_body_lines(j@, lo as int, end as int) =~= Seq::<Seq<u8>>::empty());
        assert(lines_view(out@) + block_body_lines(j@, lo as int, end as int) =~= lines_view(out@));
    }
    normalize_doc_lines(out)
}


/// Every line of `ls` is UTF-8 text.
pub open spec fn all_valid(ls: Seq<Seq<u8>>) -> bool {
    forall|i: int| 0 <= i < ls.len() ==> valid_utf8(#[trigger] ls[i])
}

proof fn lemma_newline_valid()
    ensures
        valid_utf8(seq![NL]),
{
    reveal_with_fuel(valid_utf8, 2);
    let s = seq![NL];
    assert(pop_first_scalar(s) =~= Seq::<u8>::empty());
}

/// Lines of UTF-8 text joined with `'\n'` are UTF-8 text.
pub proof fn lemma_join_valid(ls: Seq<Seq<u8>>)
    requires
        all_valid(ls),
    ensures
        valid_utf8(join_lines(ls)),
    decreases ls.len(),
{
    if ls.len() == 0 {
        assert(valid_utf8(Seq::<u8>::empty()));
    } else if ls.len() == 1 {
        assert(valid_utf8(ls[0]));
    } else {
        let init = ls.drop_last();
        assert(all_valid(init)) by {
            assert forall|i: int| 0 <= i < init.len() implies valid_utf8(#[trigger] init[i]) by {
                assert(init[i] == ls[i]);
            }
        }
        lemma_join_valid(init);
        lemma_newline_valid();
        valid_utf8_concat(join_lines(init), seq![NL]);
        assert(valid_utf8(ls[ls.len() - 1]));
        valid_utf8_concat(join_lines(init) + seq![NL], ls.last());
    }
}

proof fn lemma_drop_blank_front_valid(ls: Seq<Seq<u8>>)
    requires
        all_valid(ls),
    ensures
        all_valid(drop_blank_front(ls)),
    decreases ls.len(),
{
    if ls.len() > 0 && is_blank(ls[0]) {
        let rest = ls.drop_first();
        assert(all_valid(rest)) by {
            assert forall|i: int| 0 <= i < rest.len() implies valid_utf8(#[trigger] rest[i]) by {
                assert(rest[i] == ls[i + 1]);
            }
        }
        lemma_drop_blank_front_valid(rest);
    }
}

proof fn lemma_drop_blank_back_valid(ls: Seq<Seq<u8>>)
    requires
        all_valid(ls),
    ensures
        all_valid(drop_blank_back(ls)),
    decreases ls.len(),
{
    if ls.len() > 0 && is_blank(ls.last()) {
        let rest = ls.drop_last();
        assert(all_valid(rest)) by {
            assert forall|i: int| 0 <= i < rest.len() implies valid_utf8(#[trigger] rest[i]) by {
                assert(rest[i] == ls[i]);
            }
        }
        lemma_drop_blank_back_valid(rest);
    }
}

/// Documentation made of lines of UTF-8 text is UTF-8 text.
pub proof fn lemma_normalize_valid(ls: Seq<Seq<u8>>)
    requires
        all_valid(ls),
    ensures
        spec_normalize_doc_lines(ls) matches Some(d) ==> valid_utf8(d),
{
    lemma_drop_blank_front_valid(ls);
    lemma_drop_blank_back_valid(drop_blank_front(ls));
    lemma_join_valid(drop_blank_back(drop_blank_front(ls)));
}

proof fn lemma_line_comment_text_valid(t: Seq<u8>, r: Seq<(int, int)>, line: int)
    requires
        valid_utf8(t),
        ranges_wf(t, r),
        0 <= line < r.len(),
    ensures
        valid_utf8(line_comment_text(t, r, line)),
{
    let (lo, hi) = r[line];
    lemma_trim_cut(t, lo, hi);
    let (a, b) = trim_window(t, lo, hi);
    lemma_strip_pairs_cut(t, a, b, SLASH, SLASH);
    let s1 = strip_pairs_from(t, a, b, SLASH, SLASH);
    lemma_trim_start_cut(t, s1, b);
    lemma_window_valid(t, trim_start_from(t, s1, b), b);
}

proof fn lemma_line_comment_lines_valid(t: Seq<u8>, r: Seq<(int, int)>, line: int)
    requires
        valid_utf8(t),
        ranges_wf(t, r),
    ensures
        all_valid(line_comment_lines(t, r, line)),
    decreases line,
{
    let ls = line_comment_lines(t, r, line);
    if line < 0 || line >= r.len() || !is_line_comment(t, r, line) {
        assert(ls =~= Seq::<Seq<u8>>::empty());
    } else {
        lemma_line_comment_text_valid(t, r, line);
        if line == 0 {
            assert(ls[0] == line_comment_text(t, r, line));
        } else {
            lemma_line_comment_lines_valid(t, r, line - 1);
            let prev = line_comment_lines(t, r, line - 1);
            assert forall|i: int| 0 <= i < ls.len() implies valid_utf8(#[trigger] ls[i]) by {
                if i < prev.len() {
                    assert(ls[i] == prev[i]);
                }
            }
        }
    }
}

proof fn lemma_block_lines_valid(t: Seq<u8>, r: Seq<(int, int)>, line: int)
    requires
        valid_utf8(t),
        ranges_wf(t, r),
    ensures
        all_valid(block_lines(t, r, line)),
    decreases line,
{
    let ls = block_lines(t, r, line);
    if line < 0 || line >= r.len() {
        assert(ls =~= Seq::<Seq<u8>>::empty());
    } else {
        lemma_window_valid(t, r[line].0, r[line].1);
        if opens_block(t, r, line) || line == 0 {
            assert(ls[0] == t.subrange(r[line].0, r[line].1));
        } else {
            lemma_block_lines_valid(t, r, line - 1);
            let prev = block_lines(t, r, line - 1);
            assert forall|i: int| 0 <= i < ls.len() implies valid_utf8(#[trigger] ls[i]) by {
                if i < prev.len() {
                    assert(ls[i] == prev[i]);
                }
            }
        }
    }
}

proof fn lemma_block_line_text_valid(j: Seq<u8>, x: int, y: int)
    requires
        valid_utf8(j),
        0 <= x <= y <= j.len(),
        cut_ok(j, x),
        cut_ok(j, y),
    ensures
        valid_utf8(block_line_text(j, x, y)),
{
    lemma_trim_cut(j, x, y);
    let (c, d) = trim_window(j, x, y);
    lemma_strip_bytes_cut(j, c, d, STAR);
    let s1 = strip_bytes_from(j, c, d, STAR);
    lemma_trim_start_cut(j, s1, d);
    lemma_window_valid(j, trim_start_from(j, s1, d), d);
}

proof fn lemma_nl_in_found(j: Seq<u8>, lo: int, hi: int)
    requires
        0 <= lo <= hi <= j.len(),
    ensures
        nl_in(j, lo, hi) < hi ==> j[nl_in(j, lo, hi)] == NL,
    decreases hi - lo,
{
    if lo < hi && j[lo] != NL {
        lemma_nl_in_found(j, lo + 1, hi);
    }
}

proof fn lemma_block_body_lines_valid(j: Seq<u8>, lo: int, hi: int)
    requires
        valid_utf8(j),
        0 <= lo <= hi <= j.len(),
        cut_ok(j, lo),
        cut_ok(j, hi),
    ensures
        all_valid(block_body_lines(j, lo, hi)),
    decreases hi - lo,
{
    let ls = block_body_lines(j, lo, hi);
    if lo >= hi {
        assert(ls =~= Seq::<Seq<u8>>::empty());
    } else {
        let p = nl_in(j, lo, hi);
        lemma_nl_in_bounds(j, lo, hi);
        lemma_nl_in_found(j, lo, hi);
        if p < hi {
            let e = if p > lo && j[p - 1] == CR { p - 1 } else { p };
            lemma_block_line_text_valid(j, lo, e);
            lemma_cut_after_ascii(j, p);
            lemma_block_body_lines_valid(j, p + 1, hi);
            let rest = block_body_lines(j, p + 1, hi);
            assert forall|i: int| 0 <= i < ls.len() implies valid_utf8(#[trigger] ls[i]) by {
                if i > 0 {
                    assert(ls[i] == rest[i - 1]);
                }
            }
        } else {
            lemma_block_line_text_valid(j, lo, hi);
            assert(ls[0] == block_line_text(j, lo, hi));
        }
    }
}

/// The documentation of a `//` comment run of a UTF-8 text is UTF-8 text.
pub proof fn lemma_line_comment_doc_valid(t: Seq<u8>, r: Seq<(int, int)>, line: int)
    requires
        valid_utf8(t),
        ranges_wf(t, r),
    ensures
        spec_collect_line_comments(t, r, line) matches Some(d) ==> valid_utf8(d),
{
    lemma_line_comment_lines_valid(t, r, line);
    lemma_normalize_valid(line_comment_lines(t, r, line));
}

/// The documentation of a block comment of a UTF-8 text is UTF-8 text.
pub proof fn lemma_block_comment_doc_valid(t: Seq<u8>, r: Seq<(int, int)>, line: int)
    requires
        valid_utf8(t),
        ranges_wf(t, r),
        block_comment_defined(t, r, line),
    ensures
        spec_collect_block_comment(t, r, line) matches Some(d) ==> valid_utf8(d),
{
    let j = block_text(t, r, line);
    lemma_block_lines_valid(t, r, line);
    lemma_join_valid(block_lines(t, r, line));
    lemma_find_pair_bounds(j, 0, j.len() as int, SLASH, STAR);
    lemma_rfind_pair_bounds(j, 0, j.len() as int, STAR, SLASH);
    let start = block_body_start(j);
    let end = block_body_end(j);
    if start > 0 {
        lemma_cut_after_ascii(j, start - 1);
    }
    lemma_block_body_lines_valid(j, start, end);
    lemma_normalize_valid(block_body_lines(j, start, end));
}


/// Line `line`, trimmed, ends with `"*/"`.
pub open spec fn closes_block(t: Seq<u8>, r: Seq<(int, int)>, line: int) -> bool {
    let (a, b) = trim_window(t, r[line].0, r[line].1);
    ends_with_pair(t, a, b, STAR, SLASH)
}

/// The nearest line at or above line `i` that is not an attribute line, when
/// one is.
pub open spec fn doc_line(t: Seq<u8>, r: Seq<(int, int)>, i: int) -> Option<int>
    decreases i,
{
    if i < 0 || i >= r.len() {
        None
    } else if is_attribute_text(t.subrange(r[i].0, r[i].1)) {
        if i == 0 {
            None
        } else {
            doc_line(t, r, i - 1)
        }
    } else {
        Some(i)
    }
}

/// The line that may hold the documentation of the declaration at `offset`:
/// the nearest line above the declaration's line that is not an attribute line.
pub open spec fn documented_line(t: Seq<u8>, offset: int) -> Option<int> {
    let r = spec_line_ranges(t);
    match first_range_at(r, offset, 0) {
        Some(i) => if i > 0 {
            doc_line(t, r, i - 1)
        } else {
            None
        },
        None => None,
    }
}

/// The documentation of the declaration at `offset` in `t`: the `//` comment
/// run or the block comment that ends on its documented line.
pub open spec fn spec_leading_documentation(t: Seq<u8>, offset: int) -> Option<Seq<u8>> {
    let r = spec_line_ranges(t);
    match documented_line(t, offset) {
        Some(l) => if is_line_comment(t, r, l) {
            spec_collect_line_comments(t, r, l)
        } else if closes_block(t, r, l) {
            spec_collect_block_comment(t, r, l)
        } else {
            None
        },
        None => None,
    }
}

/// A block comment that documents the declaration at `offset` has its first
/// `"/*"` end no later than its last `"*/"` starts.
pub open spec fn documentation_defined(t: Seq<u8>, offset: int) -> bool {
    let r = spec_line_ranges(t);
    match documented_line(t, offset) {
        Some(l) => !is_line_comment(t, r, l) && closes_block(t, r, l) ==> block_comment_defined(t, r, l),
        None => true,
    }
}

/// The line that may document the declaration at `offset`: the nearest line
/// above the declaration's line that is not an attribute line.
fn find_documented_line(text: &[u8], lines: &Vec<(usize, usize)>, offset: usize) -> (r: Option<usize>)
    requires
        ranges_view(lines@) == spec_line_ranges(text@),
    ensures
        r matches Some(l) ==> documented_line(text@, offset as int) == Some(l as int) && l < lines@.len(),
        r is None ==> documented_line(text@, offset as int) is None,
{
    let ghost t = text@;
    let ghost rv = ranges_view(lines@);
    proof {
        lemma_line_ranges_wf(t);
    }
    let idx = match line_index_for_offset(lines.as_slice(), offset) {
        Some(i) => i,
        None => return None,
    };
    if idx == 0 {
        return None;
    }
    let mut line = idx - 1;
    loop
        invariant
            t == text@,
            rv == ranges_view(lines@),
            rv == spec_line_ranges(t),
            ranges_in(t, rv),
            line < lines@.len(),
            0 < idx,
            first_range_at(rv, offset as int, 0) == Some(idx as int),
            doc_line(t, rv, line as int) == doc_line(t, rv, idx - 1),
        ensures
            doc_line(t, rv, idx - 1) == Some(line as int),
        decreases line,
    {
        let range = lines[line];
        assert(rv[line as int] == (range.0 as int, range.1 as int));
        if !is_attribute_line(line_text(text, range)) {
            break;
        }
        if line == 0 {
            assert(documented_line(t, offset as int) is None);
            return None;
        }
        line = line - 1;
    }
    Some(line)
}

/// The documentation bytes of the declaration at byte `offset` of `text`.
pub fn leading_documentation_bytes(text: &[u8], offset: usize) -> (r: Option<Vec<u8>>)
    requires
        documentation_defined(text@, offset as int),
    ensures
        opt_bytes(r) == spec_leading_documentation(text@, offset as int),
{
    let lines = line_ranges(text);
    proof {
        lemma_line_ranges_wf(text@);
    }
    let line = match find_documented_line(text, &lines, offset) {
        Some(l) => l,
        None => return None,
    };
    let (lo, hi) = lines[line];
    assert(ranges_view(lines@)[line as int] == (lo as int, hi as int));
    let (a, b) = trim(text, lo, hi);
    if starts_with_pair_exec(text, a, b, SLASH, SLASH) {
        return collect_line_comments(text, lines.as_slice(), line);
    }
    if ends_with_pair_exec(text, a, b, STAR, SLASH) {
        return collect_block_comment(text, lines.as_slice(), line);
    }
    None
}

/// Whether the documentation of the declaration at byte `offset` of `text`
/// can be extracted: a block comment documenting it has its first `"/*"` end
/// no later than its last `"*/"` starts.
pub fn documentation_is_defined(text: &[u8], offset: usize) -> (r: bool)
    ensures
        r == documentation_defined(text@, offset as int),
{
    let lines = line_ranges(text);
    proof {
        lemma_line_ranges_wf(text@);
    }
    let line = match find_documented_line(text, &lines, offset) {
        Some(l) => l,
        None => return true,
    };
    let (lo, hi) = lines[line];
    assert(ranges_view(lines@)[line as int] == (lo as int, hi as int));
    let (a, b) = trim(text, lo, hi);
    if starts_with_pair_exec(text, a, b, SLASH, SLASH) || !ends_with_pair_exec(text, a, b, STAR, SLASH) {
        return true;
    }
    let joined = block_comment_text(text, lines.as_slice(), line);
    let (start, end) = block_body_bounds(joined.as_slice());
    start <= end
}

/// The documentation of the declaration that starts at byte
/// `declaration_offset` of `text`: the `//` comment lines or the block comment
/// right above the declaration's line, attribute lines skipped, with comment
/// markers and surrounding blank lines removed.
pub fn extract_leading_documentation(text: &str, declaration_offset: usize) -> (r: Option<String>)
    requires
        documentation_defined(encode_utf8(text@), declaration_offset as int),
    ensures
        r is Some <==> spec_leading_documentation(encode_utf8(text@), declaration_offset as int) is Some,
        r matches Some(s) ==> Some(encode_utf8(s@)) == spec_leading_documentation(
            encode_utf8(text@),
            declaration_offset as int,
        ),
{
    let bytes = text.as_bytes();
    let doc = leading_documentation_bytes(bytes, declaration_offset);
    match doc {
        Some(d) => {
            proof {
                let t = bytes@;
                let r = spec_line_ranges(t);
                encode_utf8_valid_utf8(text@);
                lemma_line_ranges_wf(t);
                let l = documented_line(t, declaration_offset as int).unwrap();
                if is_line_comment(t, r, l) {
                    lemma_line_comment_doc_valid(t, r, l);
                } else {
                    lemma_block_comment_doc_valid(t, r, l);
                }
            }
            string_from_utf8(d)
        },
        None => None,
    }
}


proof fn lemma_drop_blank_front_props(ls: Seq<Seq<u8>>)
    ensures
        drop_blank_front(ls).len() > 0 ==> !is_blank(drop_blank_front(ls)[0]),
        drop_blank_front(ls).len() == 0 <==> forall|i: int| 0 <= i < ls.len() ==> is_blank(#[trigger] ls[i]),
    decreases ls.len(),
{
    if ls.len() > 0 && is_blank(ls[0]) {
        let rest = ls.drop_first();
        lemma_drop_blank_front_props(rest);
        if drop_blank_front(rest).len() == 0 {
            assert forall|i: int| 0 <= i < ls.len() implies is_blank(#[trigger] ls[i]) by {
                if i > 0 {
                    assert(ls[i] == rest[i - 1]);
                }
            }
        } else {
            let i = choose|i: int| 0 <= i < rest.len() && !is_blank(#[trigger] rest[i]);
            assert(ls[i + 1] == rest[i]);
        }
    }
}

proof fn lemma_drop_blank_back_props(ls: Seq<Seq<u8>>)
    ensures
        drop_blank_back(ls).len() > 0 ==> !is_blank(drop_blank_back(ls).last()),
        drop_blank_back(ls).len() > 0 ==> drop_blank_back(ls)[0] == ls[0],
        drop_blank_back(ls).len() == 0 <==> forall|i: int| 0 <= i < ls.len() ==> is_blank(#[trigger] ls[i]),
    decreases ls.len(),
{
    if ls.len() > 0 && is_blank(ls.last()) {
        let rest = ls.drop_last();
        lemma_drop_blank_back_props(rest);
        if drop_blank_back(rest).len() == 0 {
            assert forall|i: int| 0 <= i < ls.len() implies is_blank(#[trigger] ls[i]) by {
                if i < ls.len() - 1 {
                    assert(ls[i] == rest[i]);
                }
            }
        } else {
            let i = choose|i: int| 0 <= i < rest.len() && !is_blank(#[trigger] rest[i]);
            assert(ls[i] == rest[i]);
        }
    }
}

/// Documentation made of lines never starts or ends with a blank line, and
/// there is none exactly when every line is blank.
pub proof fn law_documentation_trimmed(ls: Seq<Seq<u8>>)
    ensures
        spec_normalize_doc_lines(ls) is None <==> forall|i: int| 0 <= i < ls.len() ==> is_blank(#[trigger] ls[i]),
        spec_normalize_doc_lines(ls) is Some ==> {
            let core = drop_blank_back(drop_blank_front(ls));
            &&& core.len() > 0
            &&& !is_blank(core[0])
            &&& !is_blank(core.last())
            &&& spec_normalize_doc_lines(ls) == Some(join_lines(core))
        },
{
    let front = drop_blank_front(ls);
    lemma_drop_blank_front_props(ls);
    lemma_drop_blank_back_props(front);
    if front.len() > 0 {
        assert(!is_blank(front[0]));
        assert(drop_blank_back(front).len() > 0) by {
            if drop_blank_back(front).len() == 0 {
                assert(is_blank(front[0]));
            }
        }
    }
}

/// A declaration on the first line of the text has no documentation.
pub proof fn law_first_line_undocumented(t: Seq<u8>, offset: int)
    requires
        first_range_at(spec_line_ranges(t), offset, 0) == Some(0int),
    ensures
        spec_leading_documentation(t, offset) is None,
{
}


/// `t` holds the bytes `"/*/"` somewhere.
pub open spec fn has_slash_star_slash(t: Seq<u8>) -> bool {
    exists|i: int| 0 <= i && i + 3 <= t.len() && #[trigger] t[i] == SLASH && t[i + 1] == STAR && t[i + 2] == SLASH
}

proof fn lemma_doc_line_bounds(t: Seq<u8>, r: Seq<(int, int)>, i: int)
    ensures
        doc_line(t, r, i) matches Some(l) ==> 0 <= l < r.len(),
    decreases i,
{
    if 0 <= i < r.len() && is_attribute_text(t.subrange(r[i].0, r[i].1)) && i > 0 {
        lemma_doc_line_bounds(t, r, i - 1);
    }
}

/// In a text without `"/*/"`, the block comment that closes on a line (the
/// trimmed line ends with `"*/"`) has its first `"/*"` end no later than its
/// last `"*/"` starts.
pub proof fn law_closed_block_comment_defined(t: Seq<u8>, r: Seq<(int, int)>, line: int)
    requires
        ranges_in(t, r),
        0 <= line < r.len(),
        closes_block(t, r, line),
        !has_slash_star_slash(t),
    ensures
        block_comment_defined(t, r, line),
{
    let lo = r[line].0;
    let hi = r[line].1;
    let a = trim_window(t, lo, hi).0;
    let b = trim_window(t, lo, hi).1;
    lemma_trim_window_marks(t, lo, hi);
    let ls = block_lines(t, r, line);
    let last = t.subrange(lo, hi);
    let j = block_text(t, r, line);
    lemma_find_pair_bounds(j, 0, j.len() as int, SLASH, STAR);
    if opens_block(t, r, line) || line == 0 {
        assert(ls == seq![last]);
        assert(j == last);
        let q = b - 2 - lo;
        assert(pair_at(j, q, STAR, SLASH));
        lemma_rfind_pair_at_least(j, 0, j.len() as int, STAR, SLASH, q);
        if let Some(i) = find_pair(j, 0, j.len() as int, SLASH, STAR) {
            assert(j[i] == t[lo + i] && j[i + 1] == t[lo + i + 1]);
            if i == q - 1 {
                assert(j[i + 2] == t[lo + i + 2]);
                assert(t[lo + i] == SLASH && t[lo + i + 1] == STAR && t[lo + i + 2] == SLASH);
                assert(has_slash_star_slash(t));
            } else if i >= q {
                assert(i != q);
                assert(t[lo + i + 1] != STAR || t[lo + i] != SLASH);
            }
        }
    } else {
        let prev = block_lines(t, r, line - 1);
        assert(prev.len() >= 1);
        assert(ls == prev.push(last));
        assert(ls.drop_last() =~= prev);
        let j0 = join_with(prev, NL);
        assert(j == j0 + seq![NL] + last);
        let n0 = j0.len() as int;
        let q = n0 + 1 + (b - 2 - lo);
        assert(j[q] == t[b - 2] && j[q + 1] == t[b - 1]);
        assert(pair_at(j, q, STAR, SLASH));
        lemma_rfind_pair_at_least(j, 0, j.len() as int, STAR, SLASH, q);
        if let Some(i) = find_pair(j, 0, j.len() as int, SLASH, STAR) {
            if i == n0 {
                assert(j[i] == NL);
            } else if i > n0 {
                let p = lo + i - n0 - 1;
                assert(j[i] == t[p] && j[i + 1] == t[p + 1]);
                assert(pair_at(t, p, SLASH, STAR));
                lemma_find_pair_some(t, lo, hi, SLASH, STAR, p);
            }
        }
    }
}

/// In a text without `"/*/"`, the documentation of the declaration at every
/// offset can be extracted.
pub proof fn law_documentation_defined_without_slash_star_slash(t: Seq<u8>, offset: int)
    requires
        !has_slash_star_slash(t),
    ensures
        documentation_defined(t, offset),
{
    let r = spec_line_ranges(t);
    lemma_line_ranges_wf(t);
    if let Some(i) = first_range_at(r, offset, 0) {
        lemma_doc_line_bounds(t, r, i - 1);
    }
    if let Some(l) = documented_line(t, offset) {
        if !is_line_comment(t, r, l) && closes_block(t, r, l) {
            law_closed_block_comment_defined(t, r, l);
        }
    }
}

/// `s` holds no `'\n'`.
pub open spec fn no_nl(s: Seq<u8>) -> bool {
    forall|k: int| 0 <= k < s.len() ==> s[k] != NL
}

/// No line of `ls` holds `'\n'`.
pub open spec fn all_no_nl(ls: Seq<Seq<u8>>) -> bool {
    forall|i: int| 0 <= i < ls.len() ==> no_nl(#[trigger] ls[i])
}

/// Index of the last `'\n'` of `s` before `hi`, or -1 when there is none.
pub open spec fn last_nl(s: Seq<u8>, hi: int) -> int
    decreases hi,
{
    if hi <= 0 {
        -1
    } else if s[hi - 1] == NL {
        hi - 1
    } else {
        last_nl(s, hi - 1)
    }
}

/// The last `'\n'` before `hi` lies before `hi`.
pub proof fn lemma_last_nl_bounds(s: Seq<u8>, hi: int)
    requires
        0 <= hi,
    ensures
        -1 <= last_nl(s, hi) < hi,
    decreases hi,
{
    if hi > 0 && s[hi - 1] != NL {
        lemma_last_nl_bounds(s, hi - 1);
    }
}

/// The pieces of `s` between its `'\n'` bytes, in order (`"a\nb"` gives `"a"`
/// and `"b"`, a text without `'\n'` gives itself).
pub open spec fn split_nl(s: Seq<u8>) -> Seq<Seq<u8>>
    decreases s.len(),
{
    let p = last_nl(s, s.len() as int);
    proof {
        lemma_last_nl_bounds(s, s.len() as int);
    }
    if p < 0 {
        seq![s]
    } else {
        split_nl(s.subrange(0, p)).push(s.subrange(p + 1, s.len() as int))
    }
}

proof fn lemma_last_nl_none(s: Seq<u8>, hi: int)
    requires
        0 <= hi <= s.len(),
        forall|k: int| 0 <= k < hi ==> s[k] != NL,
    ensures
        last_nl(s, hi) == -1,
    decreases hi,
{
    if hi > 0 {
        lemma_last_nl_none(s, hi - 1);
    }
}

proof fn lemma_last_nl_at(s: Seq<u8>, k: int, hi: int)
    requires
        0 <= k < hi <= s.len(),
        s[k] == NL,
        forall|m: int| k < m < hi ==> s[m] != NL,
    ensures
        last_nl(s, hi) == k,
    decreases hi,
{
    if hi - 1 > k {
        lemma_last_nl_at(s, k, hi - 1);
    }
}

/// Splitting at `'\n'` undoes joining lines that hold no `'\n'`.
proof fn lemma_split_join(ls: Seq<Seq<u8>>)
    requires
        ls.len() >= 1,
        all_no_nl(ls),
    ensures
        split_nl(join_lines(ls)) == ls,
    decreases ls.len(),
{
    let j = join_lines(ls);
    if ls.len() == 1 {
        assert(no_nl(ls[0]));
        lemma_last_nl_none(j, j.len() as int);
        assert(split_nl(j) =~= ls);
    } else {
        let init = ls.drop_last();
        let l = ls.last();
        assert(all_no_nl(init)) by {
            assert forall|i: int| 0 <= i < init.len() implies no_nl(#[trigger] init[i]) by {
                assert(init[i] == ls[i]);
            }
        }
        assert(no_nl(ls[ls.len() - 1]));
        let j0 = join_lines(init);
        let n0 = j0.len() as int;
        assert(j == j0 + seq![NL] + l);
        assert forall|m: int| n0 < m < j.len() implies j[m] != NL by {
            assert(j[m] == l[m - n0 - 1]);
        }
        lemma_last_nl_at(j, n0, j.len() as int);
        assert(j.subrange(0, n0) =~= j0);
        assert(j.subrange(n0 + 1, j.len() as int) =~= l);
        lemma_split_join(init);
        assert(split_nl(j) =~= ls);
    }
}

proof fn lemma_drop_blank_front_no_nl(ls: Seq<Seq<u8>>)
    requires
        all_no_nl(ls),
    ensures
        all_no_nl(drop_blank_front(ls)),
    decreases ls.len(),
{
    if ls.len() > 0 && is_blank(ls[0]) {
        let rest = ls.drop_first();
        assert(all_no_nl(rest)) by {
            assert forall|i: int| 0 <= i < rest.len() implies no_nl(#[trigger] rest[i]) by {
                assert(rest[i] == ls[i + 1]);
            }
        }
        lemma_drop_blank_front_no_nl(rest);
    }
}

proof fn lemma_drop_blank_back_no_nl(ls: Seq<Seq<u8>>)
    requires
        all_no_nl(ls),
    ensures
        all_no_nl(drop_blank_back(ls)),
    decreases ls.len(),
{
    if ls.len() > 0 && is_blank(ls.last()) {
        let rest = ls.drop_last();
        assert(all_no_nl(rest)) by {
            assert forall|i: int| 0 <= i < rest.len() implies no_nl(#[trigger] rest[i]) by {
                assert(rest[i] == ls[i]);
            }
        }
        lemma_drop_blank_back_no_nl(rest);
    }
}

/// Normalising documentation is idempotent: when no line holds `'\n'`,
/// splitting the documentation at `'\n'` and normalising those lines again
/// gives the same documentation back.
pub proof fn law_normalize_idempotent(ls: Seq<Seq<u8>>)
    requires
        all_no_nl(ls),
    ensures
        spec_normalize_doc_lines(ls) matches Some(d) ==> spec_normalize_doc_lines(split_nl(d)) == Some(d),
{
    law_documentation_trimmed(ls);
    let core = drop_blank_back(drop_blank_front(ls));
    if core.len() > 0 {
        lemma_drop_blank_front_no_nl(ls);
        lemma_drop_blank_back_no_nl(drop_blank_front(ls));
        lemma_split_join(core);
        assert(drop_blank_front(core) == core);
        assert(drop_blank_back(core) == core);
    }
}

/// The window `(lo, hi)` of `t`, trimmed, starts with two `'/'` bytes.
pub open spec fn trimmed_starts_with_slashes(t: Seq<u8>, lo: int, hi: int) -> bool {
    let a = trim_window(t, lo, hi).0;
    let b = trim_window(t, lo, hi).1;
    a + 2 <= b && t[a] == SLASH && t[a + 1] == SLASH
}

/// The `//` comment run that ends at `line` is made of the longest block of
/// consecutive lines ending at `line` whose trimmed text starts with `"//"`:
/// the line above the run (a blank line too) does not, and neither it nor
/// any line above it contributes; each line of the run gives its text without
/// the comment markers, in order.
pub proof fn law_line_comment_run(t: Seq<u8>, r: Seq<(int, int)>, line: int) -> (s: int)
    requires
        ranges_in(t, r),
        0 <= line < r.len(),
    ensures
        0 <= s <= line + 1,
        line_comment_lines(t, r, line).len() == line + 1 - s,
        forall|k: int| s <= k <= line ==> trimmed_starts_with_slashes(t, #[trigger] r[k].0, r[k].1),
        s > 0 ==> !trimmed_starts_with_slashes(t, r[s - 1].0, r[s - 1].1),
        forall|i: int| 0 <= i < line_comment_lines(t, r, line).len()
            ==> #[trigger] line_comment_lines(t, r, line)[i] == line_comment_text(t, r, s + i),
        spec_collect_line_comments(t, r, line) == spec_normalize_doc_lines(line_comment_lines(t, r, line)),
    decreases line,
{
    let ls = line_comment_lines(t, r, line);
    lemma_trim_window_marks(t, r[line].0, r[line].1);
    assert(is_line_comment(t, r, line) == trimmed_starts_with_slashes(t, r[line].0, r[line].1));
    if !is_line_comment(t, r, line) {
        line + 1
    } else if line == 0 {
        assert(ls[0] == line_comment_text(t, r, 0int + 0int));
        0
    } else {
        let s = law_line_comment_run(t, r, line - 1);
        let prev = line_comment_lines(t, r, line - 1);
        assert(ls == prev.push(line_comment_text(t, r, line)));
        assert forall|i: int| 0 <= i < ls.len() implies #[trigger] ls[i] == line_comment_text(t, r, s + i) by {
            if i < prev.len() {
                assert(ls[i] == prev[i]);
            }
        }
        s
    }
}

/// Number of `'\n'` bytes in the window `(lo, hi)`.
pub open spec fn count_nl(j: Seq<u8>, lo: int, hi: int) -> int
    decreases hi - lo,
{
    if lo >= hi {
        0
    } else {
        (if j[lo] == NL { 1int } else { 0int }) + count_nl(j, lo + 1, hi)
    }
}

proof fn lemma_nl_in_char(j: Seq<u8>, lo: int, hi: int)
    requires
        0 <= lo <= hi <= j.len(),
    ensures
        lo <= nl_in(j, lo, hi) <= hi,
        nl_in(j, lo, hi) < hi ==> j[nl_in(j, lo, hi)] == NL,
        forall|m: int| lo <= m < nl_in(j, lo, hi) ==> j[m] != NL,
    decreases hi - lo,
{
    if lo < hi && j[lo] != NL {
        lemma_nl_in_char(j, lo + 1, hi);
    }
}

proof fn lemma_nl_in_is(j: Seq<u8>, lo: int, hi: int, p: int)
    requires
        0 <= lo <= p <= hi <= j.len(),
        p < hi ==> j[p] == NL,
        forall|m: int| lo <= m < p ==> j[m] != NL,
    ensures
        nl_in(j, lo, hi) == p,
    decreases p - lo,
{
    if lo < p {
        lemma_nl_in_is(j, lo + 1, hi, p);
    }
}

proof fn lemma_count_nl_skip(j: Seq<u8>, lo: int, p: int, hi: int)
    requires
        0 <= lo <= p <= hi <= j.len(),
        forall|m: int| lo <= m < p ==> j[m] != NL,
    ensures
        count_nl(j, lo, hi) == count_nl(j, p, hi),
    decreases p - lo,
{
    if lo < p {
        lemma_count_nl_skip(j, lo + 1, p, hi);
    }
}

/// A block comment body of a single line (at most a `'\n'` at its end) gives
/// exactly one line, blank or not: its text up to the line break (a `'\r'`
/// before the `'\n'` excluded) with the decoration removed.
pub proof fn law_block_body_single_line(j: Seq<u8>, lo: int, hi: int)
    requires
        0 <= lo < hi <= j.len(),
        forall|m: int| lo <= m < hi - 1 ==> j[m] != NL,
    ensures
        block_body_lines(j, lo, hi) == seq![block_line_text(
            j,
            lo,
            if j[hi - 1] == NL {
                if hi - 1 > lo && j[hi - 2] == CR { hi - 2 } else { hi - 1 }
            } else {
                hi
            },
        )],
{
    if j[hi - 1] == NL {
        lemma_nl_in_is(j, lo, hi, hi - 1);
        assert(block_body_lines(j, hi, hi) =~= Seq::<Seq<u8>>::empty());
        let e = if hi - 1 > lo && j[hi - 2] == CR { hi - 2 } else { hi - 1 };
        assert(block_body_lines(j, lo, hi) =~= seq![block_line_text(j, lo, e)]);
    } else {
        lemma_nl_in_is(j, lo, hi, hi);
    }
}

/// Splitting a block comment body after any of its `'\n'` splits its lines:
/// the lines of the whole are those of the part up to and including that
/// `'\n'`, then those of the rest; no line is dropped or merged.
pub proof fn law_block_body_split(j: Seq<u8>, lo: int, p: int, hi: int)
    requires
        0 <= lo <= p < hi <= j.len(),
        j[p] == NL,
    ensures
        block_body_lines(j, lo, hi) == block_body_lines(j, lo, p + 1) + block_body_lines(j, p + 1, hi),
    decreases p - lo,
{
    lemma_nl_in_char(j, lo, hi);
    let p0 = nl_in(j, lo, hi);
    assert(p0 <= p);
    lemma_nl_in_is(j, lo, p + 1, p0);
    let e = if p0 > lo && j[p0 - 1] == CR { p0 - 1 } else { p0 };
    assert(block_body_lines(j, lo, hi) == seq![block_line_text(j, lo, e)] + block_body_lines(j, p0 + 1, hi));
    assert(block_body_lines(j, lo, p + 1) == seq![block_line_text(j, lo, e)] + block_body_lines(j, p0 + 1, p + 1));
    if p0 == p {
        assert(block_body_lines(j, p + 1, p + 1) =~= Seq::<Seq<u8>>::empty());
        assert(block_body_lines(j, lo, p + 1) =~= seq![block_line_text(j, lo, e)]);
    } else {
        law_block_body_split(j, p0 + 1, p, hi);
        assert(block_body_lines(j, lo, hi) =~= block_body_lines(j, lo, p + 1) + block_body_lines(j, p + 1, hi));
    }
}

/// A block comment body gives one line per `'\n'` it holds, and one more
/// when it does not end with a `'\n'`; blank lines count like any other.
pub proof fn law_block_body_line_count(j: Seq<u8>, lo: int, hi: int)
    requires
        0 <= lo <= hi <= j.len(),
    ensures
        block_body_lines(j, lo, hi).len() == count_nl(j, lo, hi) + (if lo < hi && j[hi - 1] != NL { 1int } else { 0int }),
    decreases hi - lo,
{
    if lo < hi {
        lemma_nl_in_char(j, lo, hi);
        let p = nl_in(j, lo, hi);
        lemma_count_nl_skip(j, lo, p, hi);
        if p < hi {
            law_block_body_line_count(j, p + 1, hi);
            assert(count_nl(j, p, hi) == 1 + count_nl(j, p + 1, hi));
        } else {
            assert(count_nl(j, hi, hi) == 0);
        }
    }
}

} // verus!
