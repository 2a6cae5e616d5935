//! The chunking engine: a streaming accumulator that splits Markdown text
//! into bounded, structure-aware chunks with per-chunk metadata.
//!
//! The engine consumes a document line by line. A heading line always closes
//! the open chunk; a line that pushes the open chunk past `chunk_size`
//! triggers a split at a boundary chosen by a tiered heuristic (paragraph
//! break, then sentence break, then line break, then word boundary, then a
//! hard cut). The split policy searches forward from
//! `chunk_size - chunk_overlap` for the nearest acceptable boundary, one
//! split per incoming line, and seeds the next chunk with the trailing
//! `chunk_overlap` characters of the chunk just emitted.

use vstd::prelude::*;

use crate::text::{
    chars_to_string, first_non_ws, first_ws, is_ws, lemma_first_non_ws, lemma_first_ws,
    normalize_line_breaks, normalize_newlines, scan_non_ws, scan_ws, split_all, split_into_lines,
    split_lines_spec, str_to_chars, subvec, trim_chars, trim_spec,
};

verus! {

/// The one failure the engine can surface: a configuration it rejects.
#[derive(Debug)]
pub enum ChunkerError {
    ConfigurationError(String),
}

impl ChunkerError {
    /// The error rendered as text.
    pub fn message(&self) -> (r: &str)
        ensures
            r@ == self.message_spec(),
    {
        match self {
            ChunkerError::ConfigurationError(m) => m.as_str(),
        }
    }

    pub open spec fn message_spec(&self) -> Seq<char> {
        match self {
            ChunkerError::ConfigurationError(m) => m@,
        }
    }
}

// ---------------------------------------------------------------------------
// Heading lines
// ---------------------------------------------------------------------------

/// Number of consecutive `#` characters starting at `i`.
pub open spec fn hashes_from(s: Seq<char>, i: int) -> int
    decreases s.len() - i when i <= s.len()
{
    if 0 <= i < s.len() && s[i] == '#' {
        1 + hashes_from(s, i + 1)
    } else {
        0
    }
}

pub proof fn lemma_hashes_from(s: Seq<char>, i: int)
    requires
        0 <= i <= s.len(),
    ensures
        0 <= hashes_from(s, i) <= s.len() - i,
        forall|k: int| i <= k < i + hashes_from(s, i) ==> s[k] == '#',
        i + hashes_from(s, i) < s.len() ==> s[i + hashes_from(s, i)] != '#',
    decreases s.len() - i,
{
    if i < s.len() && s[i] == '#' {
        lemma_hashes_from(s, i + 1);
    }
}

/// Whether a line matches the heading shape: one to six leading `#`
/// characters, one whitespace character, and at least one further character.
pub open spec fn is_heading(s: Seq<char>) -> bool {
    let h = hashes_from(s, 0);
    1 <= h <= 6 && h + 2 <= s.len() && is_ws(s[h])
}

/// Heading depth of a heading line: its count of leading `#` characters.
pub open spec fn heading_level_of(s: Seq<char>) -> int {
    hashes_from(s, 0)
}

/// Heading text of a heading line: everything after the run of whitespace
/// that follows the hashes; if that run reaches the end of the line, its
/// final character alone (the shortest tail a match can leave).
pub open spec fn heading_text_of(s: Seq<char>) -> Seq<char> {
    let h = hashes_from(s, 0);
    let e = first_non_ws(s, h + 1);
    if e == s.len() {
        s.subrange(s.len() - 1, s.len() as int)
    } else {
        s.subrange(e, s.len() as int)
    }
}

/// Parses a heading line into its level and text; `None` for any other line.
pub fn heading_of(line: &Vec<char>) -> (r: Option<(usize, Vec<char>)>)
    ensures
        r is Some <==> is_heading(line@),
        r is Some ==> r->Some_0.0 as int == heading_level_of(line@),
        r is Some ==> r->Some_0.1@ == heading_text_of(line@),
{
    proof {
        lemma_hashes_from(line@, 0);
    }
    let n = line.len();
    let mut h: usize = 0;
    while h < n && line[h] == '#'
        invariant
            h <= n,
            n == line@.len(),
            forall|k: int| 0 <= k < h ==> line@[k] == '#',
        decreases n - h,
    {
        h += 1;
    }
    proof {
        // h equals hashes_from(line@, 0)
        let g = hashes_from(line@, 0);
        if g < h {
            assert(line@[g] == '#');
        }
        if h < g {
            assert(line@[h as int] == '#');
        }
    }
    if h < 1 || h > 6 || h + 2 > n || !crate::text::ws_char(line[h]) {
        return None;
    }
    proof {
        lemma_first_non_ws(line@, h + 1);
    }
    let e = scan_non_ws(line, h + 1);
    let text = if e == n {
        subvec(line, n - 1, n)
    } else {
        subvec(line, e, n)
    };
    Some((h, text))
}

// ---------------------------------------------------------------------------
// Boundary detector
// ---------------------------------------------------------------------------

/// First `\n` inside the whitespace run that starts at `j`, or `-1` if the
/// run ends (or the text ends) before any `\n`.
pub open spec fn next_nl_in_ws(s: Seq<char>, j: int) -> int
    decreases s.len() - j when j <= s.len()
{
    if 0 <= j < s.len() && is_ws(s[j]) {
        if s[j] == '\n' {
            j
        } else {
            next_nl_in_ws(s, j + 1)
        }
    } else {
        -1
    }
}

pub proof fn lemma_next_nl_in_ws(s: Seq<char>, j: int)
    requires
        0 <= j <= s.len(),
    ensures
        next_nl_in_ws(s, j) == -1 || j <= next_nl_in_ws(s, j) < s.len(),
        next_nl_in_ws(s, j) >= 0 ==> s[next_nl_in_ws(s, j)] == '\n',
    decreases s.len() - j,
{
    if j < s.len() && is_ws(s[j]) && s[j] != '\n' {
        lemma_next_nl_in_ws(s, j + 1);
    }
}

/// A paragraph break starts at `i`: a `\n` whose whitespace run reaches a
/// further `\n` (a blank or whitespace-only line sits between two breaks).
pub open spec fn para_break_at(s: Seq<char>, i: int) -> bool {
    0 <= i < s.len() && s[i] == '\n' && next_nl_in_ws(s, i + 1) >= 0
}

/// Cut position for a paragraph break at `i`: just past the second `\n`.
pub open spec fn para_cut_at(s: Seq<char>, i: int) -> int {
    next_nl_in_ws(s, i + 1) + 1
}

/// A sentence break starts at `i`: sentence punctuation followed by
/// whitespace.
pub open spec fn sent_break_at(s: Seq<char>, i: int) -> bool {
    0 <= i < s.len() && (s[i] == '.' || s[i] == '!' || s[i] == '?')
        && i + 1 < s.len() && is_ws(s[i + 1])
}

/// Cut position for a sentence break at `i`: just past the whitespace run
/// that follows the punctuation.
pub open spec fn sent_cut_at(s: Seq<char>, i: int) -> int {
    first_non_ws(s, i + 1)
}

/// Cut position of the first paragraph break at or after `i`, or `-1`.
pub open spec fn find_para(s: Seq<char>, i: int) -> int
    decreases s.len() - i when i <= s.len()
{
    if 0 <= i < s.len() {
        if para_break_at(s, i) {
            para_cut_at(s, i)
        } else {
            find_para(s, i + 1)
        }
    } else {
        -1
    }
}

/// Cut position of the first sentence break at or after `i`, or `-1`.
pub open spec fn find_sent(s: Seq<char>, i: int) -> int
    decreases s.len() - i when i <= s.len()
{
    if 0 <= i < s.len() {
        if sent_break_at(s, i) {
            sent_cut_at(s, i)
        } else {
            find_sent(s, i + 1)
        }
    } else {
        -1
    }
}

/// Cut position just past the first `\n` at or after `i`, or `-1`.
pub open spec fn find_nl(s: Seq<char>, i: int) -> int
    decreases s.len() - i when i <= s.len()
{
    if 0 <= i < s.len() {
        if s[i] == '\n' {
            i + 1
        } else {
            find_nl(s, i + 1)
        }
    } else {
        -1
    }
}

/// Cut position just past the first whitespace run at or after `i`, or `-1`.
pub open spec fn find_ws_cut(s: Seq<char>, i: int) -> int
    decreases s.len() - i when i <= s.len()
{
    if 0 <= i < s.len() {
        if is_ws(s[i]) {
            first_non_ws(s, i)
        } else {
            find_ws_cut(s, i + 1)
        }
    } else {
        -1
    }
}

/// The boundary the split uses: the first acceptable boundary at or after
/// `target`, tried tier by tier — paragraph break, sentence break, line
/// break, word boundary — and `target` itself as the hard-cut fallback.
pub open spec fn split_point_spec(s: Seq<char>, target: int) -> int {
    if target >= s.len() {
        s.len() as int
    } else if find_para(s, target) >= 0 {
        find_para(s, target)
    } else if find_sent(s, target) >= 0 {
        find_sent(s, target)
    } else if find_nl(s, target) >= 0 {
        find_nl(s, target)
    } else if find_ws_cut(s, target) >= 0 {
        find_ws_cut(s, target)
    } else {
        target
    }
}

pub proof fn lemma_find_para_bounds(s: Seq<char>, i: int)
    requires
        0 <= i <= s.len(),
    ensures
        find_para(s, i) == -1 || i < find_para(s, i) <= s.len(),
    decreases s.len() - i,
{
    if i < s.len() {
        if para_break_at(s, i) {
            lemma_next_nl_in_ws(s, i + 1);
        } else {
            lemma_find_para_bounds(s, i + 1);
        }
    }
}

pub proof fn lemma_find_sent_bounds(s: Seq<char>, i: int)
    requires
        0 <= i <= s.len(),
    ensures
        find_sent(s, i) == -1 || i < find_sent(s, i) <= s.len(),
    decreases s.len() - i,
{
    if i < s.len() {
        if sent_break_at(s, i) {
            lemma_first_non_ws(s, i + 1);
        } else {
            lemma_find_sent_bounds(s, i + 1);
        }
    }
}

pub proof fn lemma_find_nl_bounds(s: Seq<char>, i: int)
    requires
        0 <= i <= s.len(),
    ensures
        find_nl(s, i) == -1 || i < find_nl(s, i) <= s.len(),
    decreases s.len() - i,
{
    if i < s.len() && s[i] != '\n' {
        lemma_find_nl_bounds(s, i + 1);
    }
}

pub proof fn lemma_find_ws_cut_bounds(s: Seq<char>, i: int)
    requires
        0 <= i <= s.len(),
    ensures
        find_ws_cut(s, i) == -1 || i < find_ws_cut(s, i) <= s.len(),
    decreases s.len() - i,
{
    if i < s.len() {
        if is_ws(s[i]) {
            lemma_first_non_ws(s, i);
            assert(first_non_ws(s, i) == first_non_ws(s, i + 1));
            lemma_first_non_ws(s, i + 1);
        } else {
            lemma_find_ws_cut_bounds(s, i + 1);
        }
    }
}

/// Wherever the split is applied, the boundary lies between the target and
/// the end of the span.
pub proof fn lemma_split_point_bounds(s: Seq<char>, target: int)
    requires
        0 <= target,
    ensures
        target <= split_point_spec(s, target) <= s.len() || target >= s.len(),
        split_point_spec(s, target) <= s.len() || target >= s.len(),
        target >= s.len() ==> split_point_spec(s, target) == s.len(),
{
    if target < s.len() {
        lemma_find_para_bounds(s, target);
        lemma_find_sent_bounds(s, target);
        lemma_find_nl_bounds(s, target);
        lemma_find_ws_cut_bounds(s, target);
    }
}

/// Finds the boundary at which an overfull span is cut: the first acceptable
/// boundary at or after `approximate_position`, preferring paragraph breaks,
/// then sentence breaks, then line breaks, then word boundaries, and falling
/// back to a hard cut exactly at `approximate_position`.
pub fn find_good_split_point(text: &Vec<char>, approximate_position: usize) -> (r: usize)
    ensures
        r as int == split_point_spec(text@, approximate_position as int),
{
    let ghost s = text@;
    let n = text.len();
    if approximate_position >= n {
        return n;
    }
    let target = approximate_position;

    // Tier 1: paragraph break.
    let mut i = target;
    while i < n
        invariant
            target <= i <= n,
            n == s.len(),
            s == text@,
            target < n,
            target == approximate_position,
            find_para(s, target as int) == find_para(s, i as int),
        decreases n - i,
    {
        if text[i] == '\n' {
            // scan the whitespace run after position i for a second newline
            let mut j = i + 1;
            while j < n && crate::text::ws_char(text[j]) && text[j] != '\n'
                invariant
                    i + 1 <= j <= n,
                    n == s.len(),
            s == text@,
                    next_nl_in_ws(s, i as int + 1) == next_nl_in_ws(s, j as int),
                decreases n - j,
            {
                j += 1;
            }
            if j < n && text[j] == '\n' {
                proof {
                    assert(crate::text::is_ws(s[j as int]));
                    assert(next_nl_in_ws(s, j as int) == j);
                    assert(para_break_at(s, i as int));
                    assert(find_para(s, i as int) == para_cut_at(s, i as int));
                    assert(find_para(s, target as int) == j + 1);
                }
                return j + 1;
            }
            proof {
                assert(next_nl_in_ws(s, j as int) == -1);
                assert(!para_break_at(s, i as int));
            }
        }
        i += 1;
    }

    // Tier 2: sentence break.
    let mut i = target;
    while i < n
        invariant
            target <= i <= n,
            n == s.len(),
            s == text@,
            target < n,
            target == approximate_position,
            find_para(s, target as int) == -1,
            find_sent(s, target as int) == find_sent(s, i as int),
        decreases n - i,
    {
        let c = text[i];
        if (c == '.' || c == '!' || c == '?') && i + 1 < n && crate::text::ws_char(text[i + 1]) {
            proof {
                assert(sent_break_at(s, i as int));
            }
            let e = scan_non_ws(text, i + 1);
            proof {
                lemma_first_non_ws(s, i as int + 1);
                assert(find_sent(s, i as int) == sent_cut_at(s, i as int));
                assert(find_sent(s, target as int) == e);
            }
            return e;
        }
        proof {
            assert(!sent_break_at(s, i as int));
        }
        i += 1;
    }

    // Tier 3: line break.
    let mut i = target;
    while i < n
        invariant
            target <= i <= n,
            n == s.len(),
            s == text@,
            target < n,
            target == approximate_position,
            find_para(s, target as int) == -1,
            find_sent(s, target as int) == -1,
            find_nl(s, target as int) == find_nl(s, i as int),
        decreases n - i,
    {
        if text[i] == '\n' {
            proof {
                assert(find_nl(s, i as int) == i + 1);
                assert(find_nl(s, target as int) == i + 1);
            }
            return i + 1;
        }
        i += 1;
    }

    // Tier 4: word boundary.
    let mut i = target;
    while i < n
        invariant
            target <= i <= n,
            n == s.len(),
            s == text@,
            target < n,
            target == approximate_position,
            find_para(s, target as int) == -1,
            find_sent(s, target as int) == -1,
            find_nl(s, target as int) == -1,
            find_ws_cut(s, target as int) == find_ws_cut(s, i as int),
        decreases n - i,
    {
        if crate::text::ws_char(text[i]) {
            let e = scan_non_ws(text, i);
            proof {
                lemma_first_non_ws(s, i as int);
                assert(find_ws_cut(s, i as int) == first_non_ws(s, i as int));
                assert(find_ws_cut(s, target as int) == e);
            }
            return e;
        }
        i += 1;
    }

    // Tier 5: hard cut at the target.
    proof {
        assert(find_ws_cut(s, target as int) == -1);
    }
    target
}

// ---------------------------------------------------------------------------
// Word counting and density scoring
// ---------------------------------------------------------------------------

/// `i` starts a whitespace-delimited word.
pub open spec fn word_start(s: Seq<char>, i: int) -> bool {
    0 <= i < s.len() && !is_ws(s[i]) && (i == 0 || is_ws(s[i - 1]))
}

/// Number of word starts at or after `i`.
pub open spec fn words_from(s: Seq<char>, i: int) -> int
    decreases s.len() - i when i <= s.len()
{
    if 0 <= i < s.len() {
        (if word_start(s, i) {
            1int
        } else {
            0int
        }) + words_from(s, i + 1)
    } else {
        0
    }
}

/// Number of whitespace-delimited words, as `str::split_whitespace` counts
/// them.
pub open spec fn word_count_spec(s: Seq<char>) -> int {
    words_from(s, 0)
}

pub proof fn lemma_words_from_bounds(s: Seq<char>, i: int)
    requires
        0 <= i <= s.len(),
    ensures
        0 <= words_from(s, i) <= s.len() - i,
    decreases s.len() - i,
{
    if i < s.len() {
        lemma_words_from_bounds(s, i + 1);
    }
}

/// Counts whitespace-delimited words.
pub fn count_words(v: &Vec<char>) -> (r: usize)
    ensures
        r as int == word_count_spec(v@),
{
    let n = v.len();
    let mut i: usize = 0;
    let mut c: usize = 0;
    proof {
        lemma_words_from_bounds(v@, 0);
    }
    while i < n
        invariant
            i <= n,
            n == v@.len(),
            c <= i,
            c + words_from(v@, i as int) == word_count_spec(v@),
        decreases n - i,
    {
        if !crate::text::ws_char(v[i]) && (i == 0 || crate::text::ws_char(v[i - 1])) {
            c += 1;
        }
        i += 1;
    }
    c
}

pub open spec fn is_upper_ascii(c: char) -> bool {
    65 <= (c as int) && (c as int) <= 90
}

pub open spec fn is_digit_ascii(c: char) -> bool {
    48 <= (c as int) && (c as int) <= 57
}

/// Case-insensitive character match against a lowercase pattern character:
/// equal outright, or equal once an ASCII capital is folded down.
pub open spec fn ci_eq(a: char, b: char) -> bool {
    a == b || (is_upper_ascii(a) && (a as int) + 32 == (b as int))
}

/// The range `[a, e)` of `s` holds an ASCII digit.
pub open spec fn has_digit(s: Seq<char>, a: int, e: int) -> bool {
    exists|j: int| a <= j < e && is_digit_ascii(s[j])
}

/// The pattern `kw` matches, case-insensitively, at position `j` of `s`.
pub open spec fn ci_match_at(s: Seq<char>, j: int, kw: Seq<char>) -> bool {
    forall|m: int| 0 <= m < kw.len() ==> ci_eq(s[j + m], kw[m])
}

/// The pattern `kw` occurs, case-insensitively, inside `s[a..e]`.
pub open spec fn contains_ci(s: Seq<char>, a: int, e: int, kw: Seq<char>) -> bool {
    exists|j: int| a <= j && j + kw.len() <= e && #[trigger] ci_match_at(s, j, kw)
}

/// The fixed keyword set of the density heuristic.
pub open spec fn keyword_hit(s: Seq<char>, a: int, e: int) -> bool {
    contains_ci(s, a, e, "function"@) || contains_ci(s, a, e, "class"@) || contains_ci(
        s,
        a,
        e,
        "method"@,
    ) || contains_ci(s, a, e, "algorithm"@) || contains_ci(s, a, e, "process"@) || contains_ci(
        s,
        a,
        e,
        "system"@,
    ) || contains_ci(s, a, e, "data"@) || contains_ci(s, a, e, "model"@) || contains_ci(
        s,
        a,
        e,
        "analysis"@,
    ) || contains_ci(s, a, e, "implementation"@)
}

/// Density points of the token that starts at `i`, in tenths: 5 for a
/// capitalized first character, 3 for containing a digit, 7 for containing a
/// keyword.
pub open spec fn token_points(s: Seq<char>, i: int) -> int {
    let e = first_ws(s, i);
    (if is_upper_ascii(s[i]) {
        5int
    } else {
        0int
    }) + (if has_digit(s, i, e) {
        3int
    } else {
        0int
    }) + (if keyword_hit(s, i, e) {
        7int
    } else {
        0int
    })
}

/// Sum of the density points of the tokens that start at or after `i`.
pub open spec fn points_from(s: Seq<char>, i: int) -> int
    decreases s.len() - i when i <= s.len()
{
    if 0 <= i < s.len() {
        (if word_start(s, i) {
            token_points(s, i)
        } else {
            0int
        }) + points_from(s, i + 1)
    } else {
        0
    }
}

pub proof fn lemma_points_from_bounds(s: Seq<char>, i: int)
    requires
        0 <= i <= s.len(),
    ensures
        0 <= points_from(s, i) <= 15 * (s.len() - i),
    decreases s.len() - i,
{
    if i < s.len() {
        lemma_points_from_bounds(s, i + 1);
    }
}

/// Numerator of the semantic density of `s`, over the denominator below.
/// With `n` tokens and `a` accumulated tenths of a point, the score is
/// `min(1, a/(10 n)) + min(1/5, n/100)`, which over the common denominator
/// `100 n` has this numerator.
pub open spec fn density_numer_spec(s: Seq<char>) -> int {
    let n = word_count_spec(s);
    let a = points_from(s, 0);
    if n == 0 {
        0
    } else {
        (if 100 * n <= 10 * a {
            100 * n
        } else {
            10 * a
        }) + (if 20 * n <= n * n {
            20 * n
        } else {
            n * n
        })
    }
}

/// Denominator of the semantic density of `s`.
pub open spec fn density_denom_spec(s: Seq<char>) -> int {
    let n = word_count_spec(s);
    if n == 0 {
        1
    } else {
        100 * n
    }
}

/// Decides `ci_eq`: equality up to folding an ASCII capital in `sc`.
fn ci_eq_exec(sc: char, kc: char) -> (r: bool)
    ensures
        r == ci_eq(sc, kc),
{
    if sc == kc {
        return true;
    }
    if 'A' <= sc && sc <= 'Z' && kc <= '\u{10ffff}' {
        let scu = sc as u32;
        let kcu = kc as u32;
        proof {
            assert(scu as int == sc as int);
            assert(kcu as int == kc as int);
        }
        scu + 32 == kcu
    } else {
        false
    }
}

/// Decides whether `kw` occurs case-insensitively inside `s[a..e]`.
fn contains_kw(s: &Vec<char>, a: usize, e: usize, kw: &str) -> (r: bool)
    requires
        a <= e <= s@.len(),
    ensures
        r == contains_ci(s@, a as int, e as int, kw@),
{
    let klen = kw.unicode_len();
    if klen > e - a {
        proof {
            assert(!contains_ci(s@, a as int, e as int, kw@)) by {
                assert forall|j: int|
                    a <= j && j + kw@.len() <= e implies !ci_match_at(s@, j, kw@) by {
                    assert(false);
                }
            }
        }
        return false;
    }
    let kv = str_to_chars(kw);
    let mut j = a;
    while j <= e - klen
        invariant
            a <= j,
            j <= e - klen + 1,
            klen <= e <= s@.len(),
            klen == kw@.len(),
            kv@ == kw@,
            forall|p: int| a <= p < j ==> !ci_match_at(s@, p, kw@),
        decreases e + 1 - j,
    {
        if ci_match_here(s, j, &kv) {
            proof {
                assert(a <= j as int && j as int + kw@.len() <= e as int);
            }
            return true;
        }
        j += 1;
    }
    proof {
        assert forall|p: int| a <= p && p + kw@.len() <= e implies !ci_match_at(s@, p, kw@) by {
            assert(p < j);
        }
    }
    false
}

/// Decides whether the pattern `kv` matches case-insensitively at `j`.
fn ci_match_here(s: &Vec<char>, j: usize, kv: &Vec<char>) -> (r: bool)
    requires
        j + kv@.len() <= s@.len(),
    ensures
        r == ci_match_at(s@, j as int, kv@),
{
    let n = s.len();
    let mut m: usize = 0;
    while m < kv.len()
        invariant
            m <= kv@.len(),
            n == s@.len(),
            j + kv@.len() <= n,
            forall|q: int| 0 <= q < m ==> ci_eq(s@[j + q], kv@[q]),
        decreases kv@.len() - m,
    {
        let ok = ci_eq_exec(s[j + m], kv[m]);
        proof {
            assert(ok == ci_eq(s@[j as int + m as int], kv@[m as int]));
        }
        if !ok {
            proof {
                assert(!ci_eq(s@[j as int + m as int], kv@[m as int]));
            }
            return false;
        }
        m += 1;
    }
    true
}

/// Density points, in tenths, for the token `s[i..e]` (with `e` the first
/// whitespace at or after `i`).
fn token_points_exec(s: &Vec<char>, i: usize) -> (r: u32)
    requires
        i < s@.len(),
    ensures
        r as int == token_points(s@, i as int),
        r <= 15,
{
    proof {
        lemma_first_ws(s@, i as int);
    }
    let e = scan_ws(s, i);
    let mut pts: u32 = 0;
    let c0 = s[i];
    if 'A' <= c0 && c0 <= 'Z' {
        pts += 5;
    }
    // digit scan
    let mut j = i;
    while j < e && !('0' <= s[j] && s[j] <= '9')
        invariant
            i <= j <= e <= s@.len(),
            forall|k: int| i <= k < j ==> !is_digit_ascii(s@[k]),
        decreases e - j,
    {
        j += 1;
    }
    let dig = j < e;
    proof {
        if dig {
            assert(is_digit_ascii(s@[j as int]));
            assert(has_digit(s@, i as int, e as int));
        } else {
            assert(!has_digit(s@, i as int, e as int));
        }
    }
    if dig {
        pts += 3;
    }
    let kw_hit = contains_kw(s, i, e, "function") || contains_kw(s, i, e, "class")
        || contains_kw(s, i, e, "method") || contains_kw(s, i, e, "algorithm")
        || contains_kw(s, i, e, "process") || contains_kw(s, i, e, "system")
        || contains_kw(s, i, e, "data") || contains_kw(s, i, e, "model")
        || contains_kw(s, i, e, "analysis") || contains_kw(s, i, e, "implementation");
    if kw_hit {
        pts += 7;
    }
    pts
}

/// Total density points of `v`, in tenths.
pub fn count_points(v: &Vec<char>) -> (r: u128)
    ensures
        r as int == points_from(v@, 0),
{
    let n = v.len();
    let mut i: usize = 0;
    let mut pts: u128 = 0;
    proof {
        lemma_points_from_bounds(v@, 0);
    }
    while i < n
        invariant
            i <= n,
            n == v@.len(),
            pts <= 15 * (i as u128),
            pts as int + points_from(v@, i as int) == points_from(v@, 0),
        decreases n - i,
    {
        if !crate::text::ws_char(v[i]) && (i == 0 || crate::text::ws_char(v[i - 1])) {
            let tp = token_points_exec(v, i);
            proof {
                lemma_points_from_bounds(v@, i as int + 1);
            }
            pts += tp as u128;
        }
        i += 1;
    }
    pts
}

// ---------------------------------------------------------------------------
// Chunks and their metadata
// ---------------------------------------------------------------------------

/// The semantic density of a chunk as an exact rational. With `n` tokens and
/// `a` accumulated tenths of a point, the score `min(1, a/(10 n)) +
/// min(1/5, n/100)` is held as `numer / denom` over the common denominator
/// `100 n` (`0 / 1` for an empty chunk).
#[derive(Debug)]
pub struct DensityScore {
    pub numer: u128,
    pub denom: u128,
}

/// Descriptive record attached to a finished chunk.
#[derive(Debug)]
pub struct ChunkMetadata {
    pub heading: Option<String>,
    pub level: usize,
    pub position: usize,
    pub word_count: usize,
    pub char_count: usize,
    pub semantic_density: DensityScore,
}

/// One bounded span of document text together with its metadata.
#[derive(Debug)]
pub struct Chunk {
    pub content: String,
    pub metadata: ChunkMetadata,
}

pub open spec fn opt_str_view(o: Option<String>) -> Option<Seq<char>> {
    match o {
        Option::Some(s) => Option::Some(s@),
        Option::None => Option::None,
    }
}

/// Ghost record of one emitted chunk: its content, the metadata inputs, and
/// whether an overflow split (rather than a heading transition or the final
/// flush) produced it.
#[verifier::ext_equal]
pub struct SpecChunk {
    pub content: Seq<char>,
    pub heading: Option<Seq<char>>,
    pub level: nat,
    pub position: nat,
    pub split: bool,
}

/// The chunk record carries exactly the metadata the accumulator state and
/// the content dictate.
pub open spec fn chunk_matches(c: Chunk, sc: SpecChunk) -> bool {
    &&& c.content@ == sc.content
    &&& opt_str_view(c.metadata.heading) == sc.heading
    &&& c.metadata.level as nat == sc.level
    &&& c.metadata.position as nat == sc.position
    &&& c.metadata.word_count as int == word_count_spec(sc.content)
    &&& c.metadata.char_count as int == sc.content.len()
    &&& c.metadata.semantic_density.numer as int == density_numer_spec(sc.content)
    &&& c.metadata.semantic_density.denom as int == density_denom_spec(sc.content)
}

pub open spec fn chunks_match(v: Seq<Chunk>, t: Seq<SpecChunk>) -> bool {
    v.len() == t.len() && forall|i: int| 0 <= i < t.len() ==> chunk_matches(v[i], #[trigger] t[i])
}

/// Builds a chunk record: the content, the active heading context, and the
/// counts and density computed from the content.
fn create_chunk_object(content: &Vec<char>, heading: Option<String>, level: usize, position: usize)
    -> (c: Chunk)
    ensures
        forall|b: bool|
            chunk_matches(
                c,
                SpecChunk {
                    content: content@,
                    heading: opt_str_view(heading),
                    level: level as nat,
                    position: position as nat,
                    split: b,
                },
            ),
{
    let wc = count_words(content);
    let cc = content.len();
    let density = calculate_semantic_density(content);
    Chunk {
        content: chars_to_string(content),
        metadata: ChunkMetadata {
            heading,
            level,
            position,
            word_count: wc,
            char_count: cc,
            semantic_density: density,
        },
    }
}

/// Scores the semantic density of a finished chunk: capitalized tokens,
/// tokens with digits and tokens holding a keyword accumulate points, the
/// ratio to the token count is capped at one, and a length bonus of up to a
/// fifth is added — all held exactly as a rational.
pub fn calculate_semantic_density(content: &Vec<char>) -> (d: DensityScore)
    ensures
        d.numer as int == density_numer_spec(content@),
        d.denom as int == density_denom_spec(content@),
{
    let wc = count_words(content);
    let a = count_points(content);
    let cl = content.len();
    proof {
        lemma_words_from_bounds(content@, 0);
        lemma_points_from_bounds(content@, 0);
        assert(a as int <= 15 * (cl as int));
    }
    if wc == 0 {
        DensityScore { numer: 0, denom: 1 }
    } else {
        let n: u128 = wc as u128;
        proof {
            assert(n < 0x1_0000_0000_0000_0000u128);
            assert(n * n <= (0x1_0000_0000_0000_0000u128 - 1) * (0x1_0000_0000_0000_0000u128 - 1))
                by (nonlinear_arith)
                requires
                    n < 0x1_0000_0000_0000_0000u128,
            ;
        }
        let raw = if 100 * n <= 10 * a {
            100 * n
        } else {
            10 * a
        };
        let bonus = if 20 * n <= n * n {
            20 * n
        } else {
            n * n
        };
        DensityScore { numer: raw + bonus, denom: 100 * n }
    }
}

// ---------------------------------------------------------------------------
// The accumulator: ghost model
// ---------------------------------------------------------------------------

/// Ghost state of the accumulator: the open buffer, the heading context, the
/// next position, and the chunks emitted so far.
#[verifier::ext_equal]
pub struct AccModel {
    pub buf: Seq<char>,
    pub heading: Option<Seq<char>>,
    pub level: nat,
    pub position: nat,
    pub out: Seq<SpecChunk>,
}

pub open spec fn acc_init() -> AccModel {
    AccModel {
        buf: Seq::empty(),
        heading: Option::None,
        level: 0,
        position: 0,
        out: Seq::empty(),
    }
}

/// Emitting a chunk: the record carries the current heading context and
/// position, and the position advances.
pub open spec fn acc_emit(m: AccModel, content: Seq<char>, split: bool) -> AccModel {
    AccModel {
        position: (m.position + 1) as nat,
        out: m.out.push(
            SpecChunk {
                content,
                heading: m.heading,
                level: m.level,
                position: m.position,
                split,
            },
        ),
        ..m
    }
}

pub open spec fn min_int(a: int, b: int) -> int {
    if a <= b {
        a
    } else {
        b
    }
}

/// One overflow split of the extended buffer `b2`: emit the text before the
/// boundary, then seed the new buffer with the emitted chunk's trailing
/// `ov` characters followed by the trimmed remainder.
pub open spec fn acc_split(m: AccModel, b2: Seq<char>, size: int, ov: int) -> AccModel {
    let cut = split_point_spec(b2, size - ov);
    let chunk = b2.subrange(0, cut);
    let m1 = acc_emit(m, chunk, true);
    let seedlen = min_int(ov, cut);
    let seed = b2.subrange(cut - seedlen, cut);
    let rest = trim_spec(b2.subrange(cut, b2.len() as int));
    AccModel { buf: seed + rest, ..m1 }
}

/// One line of input. A heading line closes any open chunk and starts a new
/// buffer holding the heading line itself; any other line is appended (with a
/// `\n` separator) and an overfull buffer is split once.
pub open spec fn acc_step(m: AccModel, line: Seq<char>, size: int, ov: int) -> AccModel {
    if is_heading(line) {
        let m1 = if m.buf.len() > 0 {
            acc_emit(m, m.buf, false)
        } else {
            m
        };
        AccModel {
            buf: line,
            heading: Option::Some(heading_text_of(line)),
            level: heading_level_of(line) as nat,
            ..m1
        }
    } else {
        let b2 = if m.buf.len() == 0 {
            line
        } else {
            m.buf + seq!['\n'] + line
        };
        if b2.len() > size {
            acc_split(m, b2, size, ov)
        } else {
            AccModel { buf: b2, ..m }
        }
    }
}

/// The accumulator run over a whole sequence of lines.
pub open spec fn acc_run(lines: Seq<Seq<char>>, size: int, ov: int) -> AccModel
    decreases lines.len(),
{
    if lines.len() == 0 {
        acc_init()
    } else {
        acc_step(acc_run(lines.drop_last(), size, ov), lines.last(), size, ov)
    }
}

/// Closing the run: a non-empty buffer is flushed as the final chunk.
pub open spec fn acc_finalize(m: AccModel) -> Seq<SpecChunk> {
    if m.buf.len() > 0 {
        acc_emit(m, m.buf, false).out
    } else {
        m.out
    }
}

/// The chunks of a whole document: normalize line breaks, split into lines,
/// run the accumulator, flush.
pub open spec fn chunk_trace(text: Seq<char>, size: int, ov: int) -> Seq<SpecChunk> {
    acc_finalize(acc_run(split_lines_spec(normalize_newlines(text)), size, ov))
}

// ---------------------------------------------------------------------------
// The accumulator: executable state machine
// ---------------------------------------------------------------------------

/// The streaming chunk accumulator. Feed it lines with [`Self::add_line`];
/// collect the finished chunks with [`Self::finalize`].
pub struct ChunkAccumulator {
    chunk_size: usize,
    chunk_overlap: usize,
    buf: Vec<char>,
    heading: Option<String>,
    level: usize,
    position: usize,
    out: Vec<Chunk>,
    trace: Ghost<Seq<SpecChunk>>,
}

impl ChunkAccumulator {
    /// The ghost state this accumulator is in.
    pub closed spec fn model(&self) -> AccModel {
        AccModel {
            buf: self.buf@,
            heading: opt_str_view(self.heading),
            level: self.level as nat,
            position: self.position as nat,
            out: self.trace@,
        }
    }

    pub closed spec fn wf(&self) -> bool {
        &&& self.chunk_overlap < self.chunk_size
        &&& self.position as int == self.trace@.len()
        &&& self.out@.len() == self.trace@.len()
        &&& forall|i: int|
            0 <= i < self.trace@.len() ==> chunk_matches(self.out@[i], #[trigger] self.trace@[i])
    }

    pub closed spec fn chunk_size_spec(&self) -> int {
        self.chunk_size as int
    }

    pub closed spec fn chunk_overlap_spec(&self) -> int {
        self.chunk_overlap as int
    }

    /// The configured soft maximum chunk length.
    pub fn chunk_size(&self) -> (r: usize)
        ensures
            r as int == self.chunk_size_spec(),
    {
        self.chunk_size
    }

    /// The configured overlap carried between consecutive chunks.
    pub fn chunk_overlap(&self) -> (r: usize)
        ensures
            r as int == self.chunk_overlap_spec(),
    {
        self.chunk_overlap
    }

    /// Builds an accumulator, rejecting any configuration whose overlap does
    /// not leave room below the chunk size.
    pub fn new(chunk_size: usize, chunk_overlap: usize) -> (r: Result<ChunkAccumulator, ChunkerError>)
        ensures
            r is Ok <==> chunk_overlap < chunk_size,
            r is Ok ==> r->Ok_0.wf() && r->Ok_0.model() == acc_init()
                && r->Ok_0.chunk_size_spec() == chunk_size as int
                && r->Ok_0.chunk_overlap_spec() == chunk_overlap as int,
            r is Err ==> r->Err_0 is ConfigurationError,
    {
        if chunk_overlap >= chunk_size {
            return Err(
                ChunkerError::ConfigurationError(
                    String::from_str("chunk_overlap must be smaller than chunk_size"),
                ),
            );
        }
        let acc = ChunkAccumulator {
            chunk_size,
            chunk_overlap,
            buf: Vec::new(),
            heading: None,
            level: 0,
            position: 0,
            out: Vec::new(),
            trace: Ghost(Seq::empty()),
        };
        proof {
            assert(acc.model() =~= acc_init());
        }
        Ok(acc)
    }

    /// Emits `content` as a finished chunk under the current heading context.
    fn emit_chunk(&mut self, content: &Vec<char>, Ghost(split): Ghost<bool>)
        requires
            old(self).wf(),
        ensures
            final(self).wf(),
            final(self).model() == acc_emit(old(self).model(), content@, split),
            final(self).buf == old(self).buf,
            final(self).chunk_size == old(self).chunk_size,
            final(self).chunk_overlap == old(self).chunk_overlap,
    {
        let h: Option<String> = match &self.heading {
            None => None,
            Some(x) => Some(x.clone()),
        };
        let c = create_chunk_object(content, h, self.level, self.position);
        self.out.push(c);
        let l = self.out.len();
        self.position = l;
        proof {
            self.trace@ = self.trace@.push(
                SpecChunk {
                    content: content@,
                    heading: opt_str_view(old(self).heading),
                    level: old(self).level as nat,
                    position: old(self).position as nat,
                    split,
                },
            );
            assert(self.model() =~= acc_emit(old(self).model(), content@, split));
        }
    }

    /// Emits the open buffer as a finished chunk, leaving it in place.
    fn emit_buf(&mut self, Ghost(split): Ghost<bool>)
        requires
            old(self).wf(),
        ensures
            final(self).wf(),
            final(self).model() == acc_emit(old(self).model(), old(self).buf@, split),
            final(self).buf == old(self).buf,
            final(self).chunk_size == old(self).chunk_size,
            final(self).chunk_overlap == old(self).chunk_overlap,
    {
        let h: Option<String> = match &self.heading {
            None => None,
            Some(x) => Some(x.clone()),
        };
        let c = create_chunk_object(&self.buf, h, self.level, self.position);
        self.out.push(c);
        let l = self.out.len();
        self.position = l;
        proof {
            self.trace@ = self.trace@.push(
                SpecChunk {
                    content: old(self).buf@,
                    heading: opt_str_view(old(self).heading),
                    level: old(self).level as nat,
                    position: old(self).position as nat,
                    split,
                },
            );
            assert(self.model() =~= acc_emit(old(self).model(), old(self).buf@, split));
        }
    }

    /// Feeds one line of input (without its line terminator).
    pub fn add_line(&mut self, line: &str)
        requires
            old(self).wf(),
        ensures
            final(self).wf(),
            final(self).model() == acc_step(
                old(self).model(),
                line@,
                old(self).chunk_size_spec(),
                old(self).chunk_overlap_spec(),
            ),
            final(self).chunk_size_spec() == old(self).chunk_size_spec(),
            final(self).chunk_overlap_spec() == old(self).chunk_overlap_spec(),
    {
        let lv = str_to_chars(line);
        self.add_line_chars(lv);
    }

    /// [`Self::add_line`] on an already-converted character vector.
    pub fn add_line_chars(&mut self, line: Vec<char>)
        requires
            old(self).wf(),
        ensures
            final(self).wf(),
            final(self).model() == acc_step(
                old(self).model(),
                line@,
                old(self).chunk_size_spec(),
                old(self).chunk_overlap_spec(),
            ),
            final(self).chunk_size_spec() == old(self).chunk_size_spec(),
            final(self).chunk_overlap_spec() == old(self).chunk_overlap_spec(),
    {
        let ghost m0 = self.model();
        let ghost size = self.chunk_size as int;
        let ghost ov = self.chunk_overlap as int;
        match heading_of(&line) {
            Some((lvl, text)) => {
                if self.buf.len() > 0 {
                    self.emit_buf(Ghost(false));
                }
                self.heading = Some(chars_to_string(&text));
                self.level = lvl;
                self.buf = line;
                proof {
                    assert(self.model() =~= acc_step(m0, self.model().buf, size, ov));
                }
            },
            None => {
                if self.buf.len() > 0 {
                    self.buf.push('\n');
                }
                let mut lv = line;
                let ghost lv0 = lv@;
                self.buf.append(&mut lv);
                proof {
                    if m0.buf.len() == 0 {
                        assert(self.buf@ =~= lv0);
                    } else {
                        assert(self.buf@ =~= m0.buf + seq!['\n'] + lv0);
                    }
                }
                if self.buf.len() > self.chunk_size {
                    let ghost b2 = self.buf@;
                    let target = self.chunk_size - self.chunk_overlap;
                    let cut = find_good_split_point(&self.buf, target);
                    proof {
                        lemma_split_point_bounds(b2, target as int);
                        assert(target as int <= cut as int <= b2.len());
                    }
                    let chunk = subvec(&self.buf, 0, cut);
                    self.emit_chunk(&chunk, Ghost(true));
                    let seedlen = if self.chunk_overlap <= cut {
                        self.chunk_overlap
                    } else {
                        cut
                    };
                    let mut newbuf = subvec(&self.buf, cut - seedlen, cut);
                    let rest = subvec(&self.buf, cut, self.buf.len());
                    let mut rest_t = trim_chars(&rest);
                    newbuf.append(&mut rest_t);
                    self.buf = newbuf;
                    proof {
                        assert(self.model() =~= acc_split(m0, b2, size, ov));
                        assert(self.model() =~= acc_step(m0, lv0, size, ov));
                    }
                } else {
                    proof {
                        assert(self.model() =~= acc_step(m0, lv0, size, ov));
                    }
                }
            },
        }
    }

    /// Closes the run: flushes any open buffer as the final chunk and hands
    /// back the full ordered sequence of chunks.
    pub fn finalize(self) -> (r: Vec<Chunk>)
        requires
            self.wf(),
        ensures
            chunks_match(r@, acc_finalize(self.model())),
    {
        let mut this = self;
        if this.buf.len() > 0 {
            this.emit_buf(Ghost(false));
        }
        this.out
    }
}

// ---------------------------------------------------------------------------
// Whole-document chunking
// ---------------------------------------------------------------------------

/// Splits a Markdown document into chunks with metadata.
///
/// Line breaks are normalized to `\n`, the document is fed to the
/// accumulator line by line, and the open buffer is flushed at end of input.
/// The configuration is rejected unless `chunk_overlap < chunk_size`.
pub fn semantic_chunking(markdown: &str, chunk_size: usize, chunk_overlap: usize) -> (r: Result<
    Vec<Chunk>,
    ChunkerError,
>)
    ensures
        r is Ok <==> chunk_overlap < chunk_size,
        r is Ok ==> chunks_match(
            r->Ok_0@,
            chunk_trace(markdown@, chunk_size as int, chunk_overlap as int),
        ),
        r is Err ==> r->Err_0 is ConfigurationError,
{
    let mut acc = match ChunkAccumulator::new(chunk_size, chunk_overlap) {
        Ok(a) => a,
        Err(e) => {
            return Err(e);
        },
    };
    let chars = str_to_chars(markdown);
    let norm = normalize_line_breaks(&chars);
    let lines = split_into_lines(&norm);
    let ghost glines = lines.deep_view();
    let ghost size = chunk_size as int;
    let ghost ov = chunk_overlap as int;
    proof {
        assert(glines =~~= split_lines_spec(normalize_newlines(markdown@)));
        assert(glines.subrange(0, 0) =~= Seq::<Seq<char>>::empty());
    }
    let n = lines.len();
    let mut idx: usize = 0;
    while idx < n
        invariant
            idx <= n,
            n == lines@.len(),
            glines == lines.deep_view(),
            acc.wf(),
            acc.chunk_size_spec() == size,
            acc.chunk_overlap_spec() == ov,
            acc.model() == acc_run(glines.subrange(0, idx as int), size, ov),
        decreases n - idx,
    {
        let line = lines[idx].clone();
        proof {
            assert(line@ == glines[idx as int]);
        }
        acc.add_line_chars(line);
        idx += 1;
        proof {
            let pre = glines.subrange(0, idx - 1);
            let cur = glines.subrange(0, idx as int);
            assert(cur.drop_last() =~= pre);
            assert(cur.last() == glines[idx - 1]);
        }
    }
    proof {
        assert(glines.subrange(0, n as int) =~= glines);
    }
    Ok(acc.finalize())
}

/// Splits a Markdown document into chunks, returning the content strings
/// alone.
pub fn create_semantic_chunks(markdown: &str, chunk_size: usize, chunk_overlap: usize) -> (r:
    Result<Vec<String>, ChunkerError>)
    ensures
        r is Ok <==> chunk_overlap < chunk_size,
        r is Ok ==> {
            let tr = chunk_trace(markdown@, chunk_size as int, chunk_overlap as int);
            r->Ok_0@.len() == tr.len() && forall|i: int|
                0 <= i < tr.len() ==> r->Ok_0@[i]@ == #[trigger] tr[i].content
        },
        r is Err ==> r->Err_0 is ConfigurationError,
{
    let chunks = match semantic_chunking(markdown, chunk_size, chunk_overlap) {
        Ok(c) => c,
        Err(e) => {
            return Err(e);
        },
    };
    let ghost tr = chunk_trace(markdown@, chunk_size as int, chunk_overlap as int);
    let mut contents: Vec<String> = Vec::new();
    let n = chunks.len();
    let mut i: usize = 0;
    while i < n
        invariant
            i <= n,
            n == chunks@.len(),
            chunks_match(chunks@, tr),
            contents@.len() == i as int,
            forall|k: int| 0 <= k < i ==> contents@[k]@ == #[trigger] tr[k].content,
        decreases n - i,
    {
        contents.push(chunks[i].content.clone());
        i += 1;
    }
    Ok(contents)
}

// ---------------------------------------------------------------------------
// Laws of the chunking engine
// ---------------------------------------------------------------------------

/// Determinism: for a fixed configuration and input, the chunking output is
/// one fixed sequence — two runs agree chunk for chunk, metadata included.
pub proof fn lemma_chunking_deterministic(
    text: Seq<char>,
    size: int,
    ov: int,
    r1: Seq<SpecChunk>,
    r2: Seq<SpecChunk>,
)
    requires
        r1 == chunk_trace(text, size, ov),
        r2 == chunk_trace(text, size, ov),
    ensures
        r1 == r2,
{
}

proof fn lemma_run_positions(lines: Seq<Seq<char>>, size: int, ov: int)
    ensures
        acc_run(lines, size, ov).position == acc_run(lines, size, ov).out.len(),
        forall|i: int|
            0 <= i < acc_run(lines, size, ov).out.len()
                ==> #[trigger] acc_run(lines, size, ov).out[i].position == i,
    decreases lines.len(),
{
    if lines.len() > 0 {
        lemma_run_positions(lines.drop_last(), size, ov);
    }
}

/// Position monotonicity: within one document the chunk positions are
/// exactly `0, 1, 2, …` with no gaps or repeats.
pub proof fn lemma_positions_monotonic(text: Seq<char>, size: int, ov: int)
    ensures
        forall|i: int|
            0 <= i < chunk_trace(text, size, ov).len()
                ==> #[trigger] chunk_trace(text, size, ov)[i].position == i,
{
    lemma_run_positions(split_lines_spec(normalize_newlines(text)), size, ov);
}

proof fn lemma_run_size_inv(lines: Seq<Seq<char>>, size: int, ov: int)
    requires
        1 <= ov < size,
        3 * ov <= size,
        forall|k: int| 0 <= k < lines.len() ==> #[trigger] lines[k].len() < ov,
    ensures
        acc_run(lines, size, ov).buf.len() <= size,
        forall|i: int|
            0 <= i < acc_run(lines, size, ov).out.len()
                ==> #[trigger] acc_run(lines, size, ov).out[i].content.len() <= size + ov,
    decreases lines.len(),
{
    if lines.len() > 0 {
        let prev = lines.drop_last();
        assert(forall|k: int| 0 <= k < prev.len() ==> #[trigger] prev[k].len() < ov);
        lemma_run_size_inv(prev, size, ov);
        let m = acc_run(prev, size, ov);
        let line = lines.last();
        assert(line.len() < ov);
        if is_heading(line) {
            // the flushed chunk is the old buffer, within size
        } else {
            let b2 = if m.buf.len() == 0 {
                line
            } else {
                m.buf + seq!['\n'] + line
            };
            assert(b2.len() <= size + ov);
            if b2.len() > size {
                let target = size - ov;
                lemma_split_point_bounds(b2, target);
                let cut = split_point_spec(b2, target);
                assert(target <= cut <= b2.len());
                // the emitted chunk is b2[..cut], within size + ov
                assert(b2.subrange(0, cut).len() == cut);
                // the reseeded buffer is small again
                let seedlen = min_int(ov, cut);
                let rest = b2.subrange(cut, b2.len() as int);
                crate::text::lemma_trim_len(rest);
                assert(rest.len() <= 2 * ov);
                assert(acc_step(m, line, size, ov).buf.len() <= 3 * ov);
            }
        }
    }
}

/// Size bound: when the configuration leaves the overlap real room
/// (`3·chunk_overlap ≤ chunk_size`) and every input line is shorter than
/// `chunk_overlap`, every chunk — the final flushed remainder included —
/// holds at most `chunk_size + chunk_overlap` characters.
pub proof fn lemma_chunk_size_bound(lines: Seq<Seq<char>>, size: int, ov: int)
    requires
        1 <= ov < size,
        3 * ov <= size,
        forall|k: int| 0 <= k < lines.len() ==> #[trigger] lines[k].len() < ov,
    ensures
        forall|i: int|
            0 <= i < acc_finalize(acc_run(lines, size, ov)).len()
                ==> #[trigger] acc_finalize(acc_run(lines, size, ov))[i].content.len() <= size
                + ov,
{
    lemma_run_size_inv(lines, size, ov);
}

/// The containment the overlap seeding guarantees: the first
/// `min(ov, |C|)` characters of the following text equal the last
/// `min(ov, |C|)` characters of the chunk `c`.
pub open spec fn overlap_pair_ok(c: SpecChunk, next: Seq<char>, ov: int) -> bool {
    let sl = min_int(ov, c.content.len() as int);
    next.len() >= sl && next.subrange(0, sl) == c.content.subrange(
        c.content.len() - sl,
        c.content.len() as int,
    )
}

proof fn lemma_run_overlap_inv(lines: Seq<Seq<char>>, size: int, ov: int)
    requires
        0 <= ov < size,
        2 * ov <= size,
    ensures
        ({
            let m = acc_run(lines, size, ov);
            &&& forall|i: int|
                0 <= i < m.out.len() - 1 && (#[trigger] m.out[i]).split ==> overlap_pair_ok(
                    m.out[i],
                    m.out[i + 1].content,
                    ov,
                )
            &&& m.out.len() > 0 && m.out.last().split ==> overlap_pair_ok(
                m.out.last(),
                m.buf,
                ov,
            )
        }),
    decreases lines.len(),
{
    if lines.len() > 0 {
        let prev = lines.drop_last();
        lemma_run_overlap_inv(prev, size, ov);
        let m = acc_run(prev, size, ov);
        let line = lines.last();
        let m2 = acc_run(lines, size, ov);
        if is_heading(line) {
            if m.buf.len() > 0 {
                // the flushed buffer becomes the successor of the last chunk
                assert(m2.out =~= m.out.push(m2.out.last()));
                assert(m2.out.last().content == m.buf);
                assert forall|i: int|
                    0 <= i < m2.out.len() - 1 && (#[trigger] m2.out[i]).split implies
                    overlap_pair_ok(m2.out[i], m2.out[i + 1].content, ov) by {
                    if i < m.out.len() - 1 {
                        assert(m2.out[i] == m.out[i]);
                        assert(m2.out[i + 1] == m.out[i + 1]);
                    } else {
                        assert(m2.out[i] == m.out.last());
                    }
                }
            } else {
                // nothing flushed; the last chunk, if split-produced, needed
                // at most the empty buffer's seed, which is empty
                if m.out.len() > 0 && m.out.last().split {
                    let sl = min_int(ov, m.out.last().content.len() as int);
                    assert(sl <= m.buf.len());
                    assert(sl == 0);
                    assert(m2.buf.subrange(0, 0) =~= m.out.last().content.subrange(
                        m.out.last().content.len() as int,
                        m.out.last().content.len() as int,
                    ));
                }
            }
        } else {
            let b2 = if m.buf.len() == 0 {
                line
            } else {
                m.buf + seq!['\n'] + line
            };
            // appending at the back keeps any seed prefix in place
            if m.out.len() > 0 && m.out.last().split {
                let sl = min_int(ov, m.out.last().content.len() as int);
                assert(b2.subrange(0, sl) =~= m.buf.subrange(0, sl));
            }
            if b2.len() > size {
                let target = size - ov;
                lemma_split_point_bounds(b2, target);
                let cut = split_point_spec(b2, target);
                assert(ov <= target <= cut <= b2.len());
                let chunk = b2.subrange(0, cut);
                let seedlen = min_int(ov, cut);
                let seed = b2.subrange(cut - seedlen, cut);
                let rest = trim_spec(b2.subrange(cut, b2.len() as int));
                assert(m2.out =~= m.out.push(m2.out[m.out.len() as int]));
                let e = m2.out[m.out.len() as int];
                assert(e.content == chunk && e.split);
                // pair between the previous last chunk and the new chunk
                if m.out.len() > 0 && m.out.last().split {
                    let sl = min_int(ov, m.out.last().content.len() as int);
                    assert(sl <= ov <= cut);
                    assert(chunk.subrange(0, sl) =~= b2.subrange(0, sl));
                }
                // the new buffer starts with the new chunk's trailing seed
                assert(m2.buf == seed + rest);
                assert(m2.buf.len() >= seedlen);
                assert(min_int(ov, e.content.len() as int) == seedlen);
                assert(m2.buf.subrange(0, seedlen) =~= seed);
                assert(e.content.subrange(cut - seedlen, cut) =~= seed);
                assert(overlap_pair_ok(e, m2.buf, ov));
                assert forall|i: int|
                    0 <= i < m2.out.len() - 1 && (#[trigger] m2.out[i]).split implies
                    overlap_pair_ok(m2.out[i], m2.out[i + 1].content, ov) by {
                    if i < m.out.len() - 1 {
                        assert(m2.out[i] == m.out[i]);
                        assert(m2.out[i + 1] == m.out[i + 1]);
                    } else {
                        assert(m2.out[i] == m.out.last());
                        assert(m2.out[i + 1] == e);
                    }
                }
            } else {
                assert(m2.buf == b2 && m2.out == m.out);
            }
        }
    }
}

/// Overlap containment: whenever `chunk_size ≥ 2·chunk_overlap`, a chunk
/// produced by an overflow split shares its trailing `min(chunk_overlap,
/// |C[i]|)` characters with the head of the chunk that follows it.
pub proof fn lemma_overlap_containment(lines: Seq<Seq<char>>, size: int, ov: int)
    requires
        0 <= ov < size,
        2 * ov <= size,
    ensures
        ({
            let tr = acc_finalize(acc_run(lines, size, ov));
            forall|i: int|
                0 <= i < tr.len() - 1 && (#[trigger] tr[i]).split ==> overlap_pair_ok(
                    tr[i],
                    tr[i + 1].content,
                    ov,
                )
        }),
{
    lemma_run_overlap_inv(lines, size, ov);
    let m = acc_run(lines, size, ov);
    let tr = acc_finalize(m);
    if m.buf.len() > 0 {
        assert(tr =~= m.out.push(tr.last()));
        assert(tr.last().content == m.buf);
        assert forall|i: int|
            0 <= i < tr.len() - 1 && (#[trigger] tr[i]).split implies overlap_pair_ok(
            tr[i],
            tr[i + 1].content,
            ov,
        ) by {
            if i < m.out.len() - 1 {
                assert(tr[i] == m.out[i]);
                assert(tr[i + 1] == m.out[i + 1]);
            } else {
                assert(tr[i] == m.out.last());
            }
        }
    }
}

/// Size bound at the document level: under the same configuration room,
/// when every line of the normalized document is shorter than the overlap,
/// every chunk of the document holds at most `chunk_size + chunk_overlap`
/// characters.
pub proof fn lemma_chunk_size_bound_text(text: Seq<char>, size: int, ov: int)
    requires
        1 <= ov < size,
        3 * ov <= size,
        forall|k: int|
            0 <= k < split_lines_spec(normalize_newlines(text)).len()
                ==> (#[trigger] split_lines_spec(normalize_newlines(text))[k]).len() < ov,
    ensures
        forall|i: int|
            0 <= i < chunk_trace(text, size, ov).len()
                ==> (#[trigger] chunk_trace(text, size, ov)[i]).content.len() <= size + ov,
{
    lemma_chunk_size_bound(split_lines_spec(normalize_newlines(text)), size, ov);
}

/// Overlap containment at the document level.
pub proof fn lemma_overlap_containment_text(text: Seq<char>, size: int, ov: int)
    requires
        0 <= ov < size,
        2 * ov <= size,
    ensures
        forall|i: int|
            0 <= i < chunk_trace(text, size, ov).len() - 1 && (#[trigger] chunk_trace(
                text,
                size,
                ov,
            )[i]).split ==> overlap_pair_ok(
                chunk_trace(text, size, ov)[i],
                chunk_trace(text, size, ov)[i + 1].content,
                ov,
            ),
{
    lemma_overlap_containment(split_lines_spec(normalize_newlines(text)), size, ov);
}

/// A line free of `\n` characters — the shape every input line has.
pub open spec fn no_nl(line: Seq<char>) -> bool {
    forall|j: int| 0 <= j < line.len() ==> line[j] != '\n'
}

/// At most the first of the text's lines matches the heading pattern.
pub open spec fn heading_only_first(c: Seq<char>) -> bool {
    forall|k: int| 1 <= k < split_all(c).len() ==> !is_heading(#[trigger] split_all(c)[k])
}

/// Each step only appends to the output.
proof fn lemma_step_extends(m: AccModel, line: Seq<char>, size: int, ov: int)
    ensures
        acc_step(m, line, size, ov).out.len() >= m.out.len(),
        forall|i: int|
            0 <= i < m.out.len() ==> #[trigger] acc_step(m, line, size, ov).out[i] == m.out[i],
{
}

/// Heading isolation at the document level: in a run of the document in
/// which no overflow split occurs, no chunk holds two heading-pattern
/// lines.
pub proof fn lemma_heading_isolation_text(text: Seq<char>, size: int, ov: int)
    requires
        forall|i: int|
            0 <= i < chunk_trace(text, size, ov).len() ==> !(#[trigger] chunk_trace(
                text,
                size,
                ov,
            )[i]).split,
    ensures
        ({
            let tr = chunk_trace(text, size, ov);
            forall|i: int, k1: int, k2: int|
                0 <= i < tr.len() && 0 <= k1 < k2 < split_all(tr[i].content).len()
                    ==> !(is_heading(#[trigger] split_all(tr[i].content)[k1]) && is_heading(
                    #[trigger] split_all(tr[i].content)[k2],
                ))
        }),
{
    let lines = split_lines_spec(normalize_newlines(text));
    crate::text::lemma_split_lines_no_nl(normalize_newlines(text));
    assert forall|k: int| 0 <= k < lines.len() implies no_nl(#[trigger] lines[k]) by {
        assert(forall|j: int| 0 <= j < lines[k].len() ==> lines[k][j] != '\n');
    }
    lemma_heading_isolation(lines, size, ov);
}

proof fn lemma_run_heading_inv(lines: Seq<Seq<char>>, size: int, ov: int)
    requires
        forall|k: int| 0 <= k < lines.len() ==> no_nl(#[trigger] lines[k]),
        forall|i: int|
            0 <= i < acc_run(lines, size, ov).out.len() ==> !(#[trigger] acc_run(
                lines,
                size,
                ov,
            ).out[i]).split,
    ensures
        forall|i: int|
            0 <= i < acc_run(lines, size, ov).out.len() ==> heading_only_first(
                (#[trigger] acc_run(lines, size, ov).out[i]).content,
            ),
        heading_only_first(acc_run(lines, size, ov).buf),
    decreases lines.len(),
{
    if lines.len() == 0 {
        let e = Seq::<char>::empty();
        assert(crate::text::first_nl(e, 0) == 0);
        assert(split_all(e) =~= seq![e]);
    } else {
        let prev = lines.drop_last();
        let m = acc_run(prev, size, ov);
        let line = lines.last();
        let m2 = acc_run(lines, size, ov);
        lemma_step_extends(m, line, size, ov);
        assert forall|i: int| 0 <= i < m.out.len() implies !(#[trigger] m.out[i]).split by {
            assert(m2 == acc_step(m, line, size, ov));
            assert(m2.out[i] == m.out[i]);
            assert(!m2.out[i].split);
        }
        lemma_run_heading_inv(prev, size, ov);
        assert(no_nl(line));
        // a single newline-free line splits into itself alone
        crate::text::lemma_first_nl(line, 0);
        if crate::text::first_nl(line, 0) < line.len() {
            assert(line[crate::text::first_nl(line, 0)] != '\n');
        }
        assert(split_all(line) =~= seq![line]);
        assert(heading_only_first(line));
        if is_heading(line) {
            assert forall|i: int| 0 <= i < m2.out.len() implies heading_only_first(
                (#[trigger] m2.out[i]).content,
            ) by {
                if i < m.out.len() {
                    assert(m2.out[i] == m.out[i]);
                } else {
                    assert(m2.out[i].content == m.buf);
                }
            }
        } else {
            let b2 = if m.buf.len() == 0 {
                line
            } else {
                m.buf + seq!['\n'] + line
            };
            if m.buf.len() > 0 {
                crate::text::lemma_split_all_append(m.buf, line);
                assert(split_all(b2) == split_all(m.buf).push(line));
                assert forall|k: int|
                    1 <= k < split_all(b2).len() implies !is_heading(
                    #[trigger] split_all(b2)[k],
                ) by {
                    if k < split_all(m.buf).len() {
                        assert(split_all(b2)[k] == split_all(m.buf)[k]);
                    } else {
                        assert(split_all(b2)[k] == line);
                    }
                }
            }
            assert(heading_only_first(b2));
            if b2.len() > size {
                // a split would stamp its chunk as split-produced
                assert(m2.out[m.out.len() as int].split);
                assert(false);
            }
        }
    }
}

/// Heading isolation: in a run where no overflow split occurs, no chunk's
/// content holds two heading-pattern lines — only a chunk's first line can
/// match the pattern, because a later heading line always opens a new chunk.
pub proof fn lemma_heading_isolation(lines: Seq<Seq<char>>, size: int, ov: int)
    requires
        forall|k: int| 0 <= k < lines.len() ==> no_nl(#[trigger] lines[k]),
        forall|i: int|
            0 <= i < acc_finalize(acc_run(lines, size, ov)).len() ==> !(#[trigger] acc_finalize(
                acc_run(lines, size, ov),
            )[i]).split,
    ensures
        ({
            let tr = acc_finalize(acc_run(lines, size, ov));
            forall|i: int, k1: int, k2: int|
                0 <= i < tr.len() && 0 <= k1 < k2 < split_all(tr[i].content).len()
                    ==> !(is_heading(#[trigger] split_all(tr[i].content)[k1]) && is_heading(
                    #[trigger] split_all(tr[i].content)[k2],
                ))
        }),
{
    let m = acc_run(lines, size, ov);
    let tr = acc_finalize(m);
    assert(forall|i: int| 0 <= i < m.out.len() ==> #[trigger] tr[i] == m.out[i]);
    assert forall|i: int| 0 <= i < m.out.len() implies !(#[trigger] m.out[i]).split by {
        assert(tr[i] == m.out[i]);
        assert(!tr[i].split);
    }
    lemma_run_heading_inv(lines, size, ov);
    assert forall|i: int| 0 <= i < tr.len() implies heading_only_first(
        (#[trigger] tr[i]).content,
    ) by {
        if i < m.out.len() {
            assert(tr[i] == m.out[i]);
        } else {
            assert(tr[i].content == m.buf);
        }
    }
}

} // verus!
