//! Byte-level text utilities over UTF-8 encoded text.
//!
//! Text is handled as its UTF-8 bytes and positions are byte offsets, as the
//! language server measures them. A window `(lo, hi)` denotes the bytes
//! `s[lo..hi]` of a buffer `s`.

use vstd::prelude::*;
use vstd::utf8::*;

verus! {

pub const NL: u8 = 0x0a;
pub const CR: u8 = 0x0d;
pub const SLASH: u8 = 0x2f;
pub const STAR: u8 = 0x2a;
pub const LBRACKET: u8 = 0x5b;
pub const RBRACKET: u8 = 0x5d;
pub const DOT: u8 = 0x2e;

/// ASCII bytes that encode a Unicode `White_Space` character.
pub open spec fn is_ascii_ws(b: u8) -> bool {
    b == 0x09 || b == 0x0a || b == 0x0b || b == 0x0c || b == 0x0d || b == 0x20
}

/// Three-byte UTF-8 encodings of Unicode `White_Space` characters
/// (U+1680, U+2000..U+200A, U+2028, U+2029, U+202F, U+205F, U+3000).
pub open spec fn is_ws3(a: u8, b: u8, c: u8) -> bool {
    ||| (a == 0xe1 && b == 0x9a && c == 0x80)
    ||| (a == 0xe2 && b == 0x80 && ((0x80 <= c && c <= 0x8a) || c == 0xa8 || c == 0xa9 || c == 0xaf))
    ||| (a == 0xe2 && b == 0x81 && c == 0x9f)
    ||| (a == 0xe3 && b == 0x80 && c == 0x80)
}

/// Two-byte UTF-8 encodings of Unicode `White_Space` characters (U+0085, U+00A0).
pub open spec fn is_ws2(a: u8, b: u8) -> bool {
    a == 0xc2 && (b == 0x85 || b == 0xa0)
}

/// Length of the whitespace character encoded at `s[i..]`, or 0 when none is.
pub open spec fn ws_len_at(s: Seq<u8>, i: int) -> int {
    if 0 <= i < s.len() && is_ascii_ws(s[i]) {
        1
    } else if 0 <= i && i + 2 <= s.len() && is_ws2(s[i], s[i + 1]) {
        2
    } else if 0 <= i && i + 3 <= s.len() && is_ws3(s[i], s[i + 1], s[i + 2]) {
        3
    } else {
        0
    }
}

/// Length of the whitespace character encoded just before `s[j]`, or 0 when none is.
pub open spec fn ws_len_before(s: Seq<u8>, j: int) -> int {
    if 1 <= j <= s.len() && is_ascii_ws(s[j - 1]) {
        1
    } else if 2 <= j <= s.len() && is_ws2(s[j - 2], s[j - 1]) {
        2
    } else if 3 <= j <= s.len() && is_ws3(s[j - 3], s[j - 2], s[j - 1]) {
        3
    } else {
        0
    }
}

/// Start of the window `(lo, hi)` once leading whitespace is removed.
pub open spec fn trim_start_from(s: Seq<u8>, lo: int, hi: int) -> int
    decreases hi - lo,
{
    if lo < hi && 0 < ws_len_at(s, lo) && lo + ws_len_at(s, lo) <= hi {
        trim_start_from(s, lo + ws_len_at(s, lo), hi)
    } else {
        lo
    }
}

/// End of the window `(lo, hi)` once trailing whitespace is removed.
pub open spec fn trim_end_from(s: Seq<u8>, lo: int, hi: int) -> int
    decreases hi - lo,
{
    if lo < hi && 0 < ws_len_before(s, hi) && lo <= hi - ws_len_before(s, hi) {
        trim_end_from(s, lo, hi - ws_len_before(s, hi))
    } else {
        hi
    }
}

/// The window `(lo, hi)` with whitespace removed at both ends.
pub open spec fn trim_window(s: Seq<u8>, lo: int, hi: int) -> (int, int) {
    let a = trim_start_from(s, lo, hi);
    (a, trim_end_from(s, a, hi))
}

/// `s[i..i + 2]` is the two bytes `a b`.
pub open spec fn pair_at(s: Seq<u8>, i: int, a: u8, b: u8) -> bool {
    0 <= i && i + 2 <= s.len() && s[i] == a && s[i + 1] == b
}

/// The window `(lo, hi)` starts with the bytes `a b`.
pub open spec fn starts_with_pair(s: Seq<u8>, lo: int, hi: int, a: u8, b: u8) -> bool {
    lo + 2 <= hi && pair_at(s, lo, a, b)
}

/// The window `(lo, hi)` ends with the bytes `a b`.
pub open spec fn ends_with_pair(s: Seq<u8>, lo: int, hi: int, a: u8, b: u8) -> bool {
    lo + 2 <= hi && pair_at(s, hi - 2, a, b)
}

/// First position in the window `(lo, hi)` where the bytes `a b` occur.
pub open spec fn find_pair(s: Seq<u8>, lo: int, hi: int, a: u8, b: u8) -> Option<int>
    decreases hi - lo,
{
    if lo + 2 > hi {
        None
    } else if pair_at(s, lo, a, b) {
        Some(lo)
    } else {
        find_pair(s, lo + 1, hi, a, b)
    }
}

/// Last position in the window `(lo, hi)` where the bytes `a b` occur.
pub open spec fn rfind_pair(s: Seq<u8>, lo: int, hi: int, a: u8, b: u8) -> Option<int>
    decreases hi - lo,
{
    if lo + 2 > hi {
        None
    } else if pair_at(s, hi - 2, a, b) {
        Some(hi - 2)
    } else {
        rfind_pair(s, lo, hi - 1, a, b)
    }
}

/// Start of the window `(lo, hi)` once every leading repetition of `a b` is removed.
pub open spec fn strip_pairs_from(s: Seq<u8>, lo: int, hi: int, a: u8, b: u8) -> int
    decreases hi - lo,
{
    if starts_with_pair(s, lo, hi, a, b) {
        strip_pairs_from(s, lo + 2, hi, a, b)
    } else {
        lo
    }
}

/// Start of the window `(lo, hi)` once every leading byte `a` is removed.
pub open spec fn strip_bytes_from(s: Seq<u8>, lo: int, hi: int, a: u8) -> int
    decreases hi - lo,
{
    if 0 <= lo < hi && hi <= s.len() && s[lo] == a {
        strip_bytes_from(s, lo + 1, hi, a)
    } else {
        lo
    }
}

/// Length of the whitespace character encoded at `s[i..]`, or 0 when none is.
pub fn ws_len_at_exec(s: &[u8], i: usize) -> (k: usize)
    requires
        i <= s@.len(),
    ensures
        k as int == ws_len_at(s@, i as int),
{
    let n = s.len();
    if i < n && (s[i] == 0x09 || s[i] == 0x0a || s[i] == 0x0b || s[i] == 0x0c || s[i] == 0x0d
        || s[i] == 0x20) {
        1
    } else if 2 <= n - i && s[i] == 0xc2 && (s[i + 1] == 0x85 || s[i + 1] == 0xa0) {
        2
    } else if 3 <= n - i && is_ws3_exec(s[i], s[i + 1], s[i + 2]) {
        3
    } else {
        0
    }
}

fn is_ws3_exec(a: u8, b: u8, c: u8) -> (r: bool)
    ensures
        r == is_ws3(a, b, c),
{
    (a == 0xe1 && b == 0x9a && c == 0x80) || (a == 0xe2 && b == 0x80 && ((0x80 <= c && c <= 0x8a)
        || c == 0xa8 || c == 0xa9 || c == 0xaf)) || (a == 0xe2 && b == 0x81 && c == 0x9f) || (a
        == 0xe3 && b == 0x80 && c == 0x80)
}

/// Length of the whitespace character encoded just before `s[j]`, or 0 when none is.
pub fn ws_len_before_exec(s: &[u8], j: usize) -> (k: usize)
    requires
        j <= s@.len(),
    ensures
        k as int == ws_len_before(s@, j as int),
{
    if 1 <= j && (s[j - 1] == 0x09 || s[j - 1] == 0x0a || s[j - 1] == 0x0b || s[j - 1] == 0x0c
        || s[j - 1] == 0x0d || s[j - 1] == 0x20) {
        1
    } else if 2 <= j && s[j - 2] == 0xc2 && (s[j - 1] == 0x85 || s[j - 1] == 0xa0) {
        2
    } else if 3 <= j && is_ws3_exec(s[j - 3], s[j - 2], s[j - 1]) {
        3
    } else {
        0
    }
}

/// Start of the window `(lo, hi)` once leading whitespace is removed.
pub fn trim_start_window(s: &[u8], lo: usize, hi: usize) -> (r: usize)
    requires
        lo <= hi <= s@.len(),
    ensures
        r as int == trim_start_from(s@, lo as int, hi as int),
        lo <= r <= hi,
{
    let mut cur = lo;
    loop
        invariant
            lo <= cur <= hi <= s@.len(),
            trim_start_from(s@, cur as int, hi as int) == trim_start_from(s@, lo as int, hi as int),
        decreases hi - cur,
    {
        let k = ws_len_at_exec(s, cur);
        if cur < hi && 0 < k && k <= hi - cur {
            cur = cur + k;
        } else {
            return cur;
        }
    }
}

/// End of the window `(lo, hi)` once trailing whitespace is removed.
pub fn trim_end_window(s: &[u8], lo: usize, hi: usize) -> (r: usize)
    requires
        lo <= hi <= s@.len(),
    ensures
        r as int == trim_end_from(s@, lo as int, hi as int),
        lo <= r <= hi,
{
    let mut cur = hi;
    loop
        invariant
            lo <= cur <= hi <= s@.len(),
            trim_end_from(s@, lo as int, cur as int) == trim_end_from(s@, lo as int, hi as int),
        decreases cur - lo,
    {
        let k = ws_len_before_exec(s, cur);
        if lo < cur && 0 < k && k <= cur - lo {
            cur = cur - k;
        } else {
            return cur;
        }
    }
}

/// The window `(lo, hi)` with whitespace removed at both ends.
pub fn trim(s: &[u8], lo: usize, hi: usize) -> (r: (usize, usize))
    requires
        lo <= hi <= s@.len(),
    ensures
        (r.0 as int, r.1 as int) == trim_window(s@, lo as int, hi as int),
        lo <= r.0 <= r.1 <= hi,
{
    let a = trim_start_window(s, lo, hi);
    let b = trim_end_window(s, a, hi);
    (a, b)
}


/// Position of the first occurrence of the bytes `a b` in the window `(lo, hi)`.
pub fn find_pair_exec(s: &[u8], lo: usize, hi: usize, a: u8, b: u8) -> (r: Option<usize>)
    requires
        lo <= hi <= s@.len(),
    ensures
        r matches Some(i) ==> find_pair(s@, lo as int, hi as int, a, b) == Some(i as int),
        r matches Some(i) ==> lo <= i && i + 2 <= hi,
        r is None ==> find_pair(s@, lo as int, hi as int, a, b) is None,
{
    let mut cur = lo;
    loop
        invariant
            lo <= cur <= hi <= s@.len(),
            find_pair(s@, cur as int, hi as int, a, b) == find_pair(s@, lo as int, hi as int, a, b),
        decreases hi - cur,
    {
        if hi - cur < 2 {
            return None;
        }
        if s[cur] == a && s[cur + 1] == b {
            return Some(cur);
        }
        cur = cur + 1;
    }
}

/// Position of the last occurrence of the bytes `a b` in the window `(lo, hi)`.
pub fn rfind_pair_exec(s: &[u8], lo: usize, hi: usize, a: u8, b: u8) -> (r: Option<usize>)
    requires
        lo <= hi <= s@.len(),
    ensures
        r matches Some(i) ==> rfind_pair(s@, lo as int, hi as int, a, b) == Some(i as int),
        r matches Some(i) ==> lo <= i && i + 2 <= hi,
        r is None ==> rfind_pair(s@, lo as int, hi as int, a, b) is None,
{
    let mut cur = hi;
    loop
        invariant
            lo <= cur <= hi <= s@.len(),
            rfind_pair(s@, lo as int, cur as int, a, b) == rfind_pair(s@, lo as int, hi as int, a, b),
        decreases cur - lo,
    {
        if cur - lo < 2 {
            return None;
        }
        if s[cur - 2] == a && s[cur - 1] == b {
            return Some(cur - 2);
        }
        cur = cur - 1;
    }
}

/// Whether the window `(lo, hi)` starts with the bytes `a b`.
pub fn starts_with_pair_exec(s: &[u8], lo: usize, hi: usize, a: u8, b: u8) -> (r: bool)
    requires
        lo <= hi <= s@.len(),
    ensures
        r == starts_with_pair(s@, lo as int, hi as int, a, b),
{
    hi - lo >= 2 && s[lo] == a && s[lo + 1] == b
}

/// Whether the window `(lo, hi)` ends with the bytes `a b`.
pub fn ends_with_pair_exec(s: &[u8], lo: usize, hi: usize, a: u8, b: u8) -> (r: bool)
    requires
        lo <= hi <= s@.len(),
    ensures
        r == ends_with_pair(s@, lo as int, hi as int, a, b),
{
    hi - lo >= 2 && s[hi - 2] == a && s[hi - 1] == b
}

/// Start of the window `(lo, hi)` once every leading repetition of `a b` is removed.
pub fn strip_pairs_window(s: &[u8], lo: usize, hi: usize, a: u8, b: u8) -> (r: usize)
    requires
        lo <= hi <= s@.len(),
    ensures
        r as int == strip_pairs_from(s@, lo as int, hi as int, a, b),
        lo <= r <= hi,
{
    let mut cur = lo;
    loop
        invariant
            lo <= cur <= hi <= s@.len(),
            strip_pairs_from(s@, cur as int, hi as int, a, b) == strip_pairs_from(
                s@,
                lo as int,
                hi as int,
                a,
                b,
            ),
        decreases hi - cur,
    {
        if starts_with_pair_exec(s, cur, hi, a, b) {
            cur = cur + 2;
        } else {
            return cur;
        }
    }
}

/// Start of the window `(lo, hi)` once every leading byte `a` is removed.
pub fn strip_bytes_window(s: &[u8], lo: usize, hi: usize, a: u8) -> (r: usize)
    requires
        lo <= hi <= s@.len(),
    ensures
        r as int == strip_bytes_from(s@, lo as int, hi as int, a),
        lo <= r <= hi,
{
    let mut cur = lo;
    loop
        invariant
            lo <= cur <= hi <= s@.len(),
            strip_bytes_from(s@, cur as int, hi as int, a) == strip_bytes_from(
                s@,
                lo as int,
                hi as int,
                a,
            ),
        decreases hi - cur,
    {
        if cur < hi && s[cur] == a {
            cur = cur + 1;
        } else {
            return cur;
        }
    }
}

/// `p` may split `s` into two UTF-8 texts: it is an end of `s` or holds no
/// continuation byte.
pub open spec fn cut_ok(s: Seq<u8>, p: int) -> bool {
    p == 0 || p == s.len() || (0 <= p < s.len() && !is_continuation_byte(s[p]))
}

proof fn lemma_cut_is_boundary(s: Seq<u8>, p: int)
    requires
        valid_utf8(s),
        0 <= p <= s.len(),
        cut_ok(s, p),
    ensures
        is_char_boundary(s, p),
{
    is_char_boundary_start_end_of_seq(s);
    if 0 < p < s.len() {
        is_char_boundary_iff_not_is_continuation_byte(s, p);
    }
}

/// The bytes of a UTF-8 text between two cut positions are UTF-8 text.
pub proof fn lemma_window_valid(s: Seq<u8>, i: int, j: int)
    requires
        valid_utf8(s),
        0 <= i <= j <= s.len(),
        cut_ok(s, i),
        cut_ok(s, j),
    ensures
        valid_utf8(s.subrange(i, j)),
{
    lemma_cut_is_boundary(s, i);
    valid_utf8_split(s, i);
    let u = s.subrange(i, s.len() as int);
    assert(cut_ok(u, j - i));
    lemma_cut_is_boundary(u, j - i);
    valid_utf8_split(u, j - i);
    assert(u.subrange(0, j - i) =~= s.subrange(i, j));
}

/// The position after the character that starts at a cut position is a cut position.
pub proof fn lemma_cut_after_char(s: Seq<u8>, q: int)
    requires
        valid_utf8(s),
        0 <= q < s.len(),
        cut_ok(s, q),
    ensures
        q + length_of_first_codepoint(s.subrange(q, s.len() as int)) <= s.len(),
        cut_ok(s, q + length_of_first_codepoint(s.subrange(q, s.len() as int))),
{
    lemma_cut_is_boundary(s, q);
    valid_utf8_split(s, q);
    let u = s.subrange(q, s.len() as int);
    assert(valid_first_scalar(u));
    let k = length_of_first_codepoint(u);
    let rest = pop_first_scalar(u);
    assert(valid_utf8(rest));
    if q + k < s.len() {
        assert(rest.len() > 0);
        assert(valid_first_scalar(rest));
        assert(rest[0] == s[q + k]);
    }
}

/// The position after an ASCII byte of a UTF-8 text is a cut position.
pub proof fn lemma_cut_after_ascii(s: Seq<u8>, q: int)
    requires
        valid_utf8(s),
        0 <= q < s.len(),
        s[q] < 0x80,
    ensures
        cut_ok(s, q + 1),
{
    lemma_cut_after_char(s, q);
    assert(s.subrange(q, s.len() as int)[0] == s[q]);
}


/// Removing leading whitespace from a window that starts at a cut position
/// stops at a cut position.
pub proof fn lemma_trim_start_cut(s: Seq<u8>, lo: int, hi: int)
    requires
        valid_utf8(s),
        0 <= lo <= hi <= s.len(),
        cut_ok(s, lo),
    ensures
        lo <= trim_start_from(s, lo, hi) <= hi,
        cut_ok(s, trim_start_from(s, lo, hi)),
    decreases hi - lo,
{
    if lo < hi && 0 < ws_len_at(s, lo) && lo + ws_len_at(s, lo) <= hi {
        lemma_cut_after_char(s, lo);
        assert(s.subrange(lo, s.len() as int)[0] == s[lo]);
        assert(length_of_first_codepoint(s.subrange(lo, s.len() as int)) == ws_len_at(s, lo));
        lemma_trim_start_cut(s, lo + ws_len_at(s, lo), hi);
    }
}

/// Removing trailing whitespace from a window that ends at a cut position
/// stops at a cut position.
pub proof fn lemma_trim_end_cut(s: Seq<u8>, lo: int, hi: int)
    requires
        0 <= lo <= hi <= s.len(),
        cut_ok(s, hi),
    ensures
        lo <= trim_end_from(s, lo, hi) <= hi,
        cut_ok(s, trim_end_from(s, lo, hi)),
    decreases hi - lo,
{
    if lo < hi && 0 < ws_len_before(s, hi) && lo <= hi - ws_len_before(s, hi) {
        lemma_trim_end_cut(s, lo, hi - ws_len_before(s, hi));
    }
}

/// Trimming a window between cut positions gives a window between cut positions.
pub proof fn lemma_trim_cut(s: Seq<u8>, lo: int, hi: int)
    requires
        valid_utf8(s),
        0 <= lo <= hi <= s.len(),
        cut_ok(s, lo),
        cut_ok(s, hi),
    ensures
        lo <= trim_window(s, lo, hi).0 <= trim_window(s, lo, hi).1 <= hi,
        cut_ok(s, trim_window(s, lo, hi).0),
        cut_ok(s, trim_window(s, lo, hi).1),
{
    lemma_trim_start_cut(s, lo, hi);
    lemma_trim_end_cut(s, trim_start_from(s, lo, hi), hi);
}

/// Stripping leading ASCII pairs from a window that starts at a cut position
/// stops at a cut position.
pub proof fn lemma_strip_pairs_cut(s: Seq<u8>, lo: int, hi: int, a: u8, b: u8)
    requires
        valid_utf8(s),
        0 <= lo <= hi <= s.len(),
        cut_ok(s, lo),
        a < 0x80,
        b < 0x80,
    ensures
        lo <= strip_pairs_from(s, lo, hi, a, b) <= hi,
        cut_ok(s, strip_pairs_from(s, lo, hi, a, b)),
    decreases hi - lo,
{
    if starts_with_pair(s, lo, hi, a, b) {
        lemma_cut_after_ascii(s, lo + 1);
        lemma_strip_pairs_cut(s, lo + 2, hi, a, b);
    }
}

/// Stripping a leading ASCII byte repeatedly from a window that starts at a
/// cut position stops at a cut position.
pub proof fn lemma_strip_bytes_cut(s: Seq<u8>, lo: int, hi: int, a: u8)
    requires
        valid_utf8(s),
        0 <= lo <= hi <= s.len(),
        cut_ok(s, lo),
        a < 0x80,
    ensures
        lo <= strip_bytes_from(s, lo, hi, a) <= hi,
        cut_ok(s, strip_bytes_from(s, lo, hi, a)),
    decreases hi - lo,
{
    if 0 <= lo < hi && hi <= s.len() && s[lo] == a {
        lemma_cut_after_ascii(s, lo);
        lemma_strip_bytes_cut(s, lo + 1, hi, a);
    }
}

/// A found pair of bytes lies within the searched window.
pub proof fn lemma_find_pair_bounds(s: Seq<u8>, lo: int, hi: int, a: u8, b: u8)
    ensures
        find_pair(s, lo, hi, a, b) matches Some(i) ==> lo <= i && i + 2 <= hi && pair_at(s, i, a, b),
    decreases hi - lo,
{
    if lo + 2 <= hi && !pair_at(s, lo, a, b) {
        lemma_find_pair_bounds(s, lo + 1, hi, a, b);
    }
}

/// A pair of bytes found from the end lies within the searched window.
pub proof fn lemma_rfind_pair_bounds(s: Seq<u8>, lo: int, hi: int, a: u8, b: u8)
    ensures
        rfind_pair(s, lo, hi, a, b) matches Some(i) ==> lo <= i && i + 2 <= hi && pair_at(s, i, a, b),
    decreases hi - lo,
{
    if lo + 2 <= hi && !pair_at(s, hi - 2, a, b) {
        lemma_rfind_pair_bounds(s, lo, hi - 1, a, b);
    }
}


/// A pair found in a window is found by the search from its start.
pub proof fn lemma_find_pair_some(s: Seq<u8>, lo: int, hi: int, a: u8, b: u8, p: int)
    requires
        lo <= p,
        p + 2 <= hi,
        pair_at(s, p, a, b),
    ensures
        find_pair(s, lo, hi, a, b) is Some,
    decreases p - lo,
{
    if !pair_at(s, lo, a, b) {
        lemma_find_pair_some(s, lo + 1, hi, a, b, p);
    }
}

/// The search from the end finds a pair no earlier than any pair of the window.
pub proof fn lemma_rfind_pair_at_least(s: Seq<u8>, lo: int, hi: int, a: u8, b: u8, p: int)
    requires
        lo <= p,
        p + 2 <= hi,
        pair_at(s, p, a, b),
    ensures
        rfind_pair(s, lo, hi, a, b) matches Some(i) && p <= i,
    decreases hi - p,
{
    if !pair_at(s, hi - 2, a, b) {
        lemma_rfind_pair_at_least(s, lo, hi - 1, a, b, p);
    }
}

/// Trimming stays within the window, and the trailing whitespace it removes
/// holds no `'*'` and no `'/'` byte.
pub proof fn lemma_trim_window_marks(s: Seq<u8>, lo: int, hi: int)
    requires
        lo <= hi,
    ensures
        lo <= trim_window(s, lo, hi).0 <= trim_window(s, lo, hi).1 <= hi,
        forall|k: int| trim_window(s, lo, hi).1 <= k < hi && 0 <= k < s.len() ==> s[k] != STAR && s[k] != SLASH,
{
    lemma_trim_start_bounds(s, lo, hi);
    lemma_trim_end_marks(s, trim_start_from(s, lo, hi), hi);
}

proof fn lemma_trim_start_bounds(s: Seq<u8>, lo: int, hi: int)
    requires
        lo <= hi,
    ensures
        lo <= trim_start_from(s, lo, hi) <= hi,
    decreases hi - lo,
{
    if lo < hi && 0 < ws_len_at(s, lo) && lo + ws_len_at(s, lo) <= hi {
        lemma_trim_start_bounds(s, lo + ws_len_at(s, lo), hi);
    }
}

proof fn lemma_trim_end_marks(s: Seq<u8>, lo: int, hi: int)
    requires
        lo <= hi,
    ensures
        lo <= trim_end_from(s, lo, hi) <= hi,
        forall|k: int| trim_end_from(s, lo, hi) <= k < hi && 0 <= k < s.len() ==> s[k] != STAR && s[k] != SLASH,
    decreases hi - lo,
{
    let w = ws_len_before(s, hi);
    if lo < hi && 0 < w && lo <= hi - w {
        lemma_trim_end_marks(s, lo, hi - w);
        assert forall|k: int| hi - w <= k < hi && 0 <= k < s.len() implies s[k] != STAR && s[k] != SLASH by {
            if w == 1 {
                assert(k == hi - 1);
            } else if w == 2 {
                assert(k == hi - 2 || k == hi - 1);
            } else {
                assert(k == hi - 3 || k == hi - 2 || k == hi - 1);
            }
        }
    }
}

/// Calls `String::from_utf8`, which the standard library documents to succeed
/// exactly when the bytes are valid UTF-8, and then to hold those bytes.
#[verifier::external_body]
pub(crate) fn string_from_utf8(bytes: Vec<u8>) -> (r: Option<String>)
    ensures
        r is Some <==> valid_utf8(bytes@),
        r matches Some(s) ==> encode_utf8(s@) == bytes@,
{
    String::from_utf8(bytes).ok()
}

} // verus!
