//! Character and string utilities shared by the chunking engine and the
//! document renderer. Everything here works on `char` sequences so that the
//! contracts can speak of `Seq<char>` views directly.

use vstd::prelude::*;

verus! {

/// Unicode `White_Space` characters, the set used by `char::is_whitespace`
/// and by `str::split_whitespace`.
pub open spec fn is_ws(c: char) -> bool {
    c == ' ' || c == '\t' || c == '\n' || c == '\u{b}' || c == '\u{c}' || c == '\r'
        || c == '\u{85}' || c == '\u{a0}' || c == '\u{1680}'
        || c == '\u{2000}' || c == '\u{2001}' || c == '\u{2002}' || c == '\u{2003}'
        || c == '\u{2004}' || c == '\u{2005}' || c == '\u{2006}' || c == '\u{2007}'
        || c == '\u{2008}' || c == '\u{2009}' || c == '\u{200a}'
        || c == '\u{2028}' || c == '\u{2029}' || c == '\u{202f}' || c == '\u{205f}'
        || c == '\u{3000}'
}

/// Decides membership in the `White_Space` set.
pub fn ws_char(c: char) -> (r: bool)
    ensures
        r == is_ws(c),
{
    c == ' ' || c == '\t' || c == '\n' || c == '\u{b}' || c == '\u{c}' || c == '\r'
        || c == '\u{85}' || c == '\u{a0}' || c == '\u{1680}'
        || c == '\u{2000}' || c == '\u{2001}' || c == '\u{2002}' || c == '\u{2003}'
        || c == '\u{2004}' || c == '\u{2005}' || c == '\u{2006}' || c == '\u{2007}'
        || c == '\u{2008}' || c == '\u{2009}' || c == '\u{200a}'
        || c == '\u{2028}' || c == '\u{2029}' || c == '\u{202f}' || c == '\u{205f}'
        || c == '\u{3000}'
}

/// Copies the characters of a string slice into a vector.
pub fn str_to_chars(s: &str) -> (v: Vec<char>)
    ensures
        v@ == s@,
{
    let n = s.unicode_len();
    let mut v: Vec<char> = Vec::new();
    let mut i: usize = 0;
    while i < n
        invariant
            n == s@.len(),
            i <= n,
            v@ == s@.subrange(0, i as int),
        decreases n - i,
    {
        v.push(s.get_char(i));
        i += 1;
        proof {
            assert(v@ =~= s@.subrange(0, i as int));
        }
    }
    proof {
        assert(v@ =~= s@);
    }
    v
}

/// Relies on `String::push`: appends one character to the string.
#[verifier::external_body]
fn push_char(s: &mut String, c: char)
    ensures
        final(s)@ == old(s)@.push(c),
{
    s.push(c)
}

/// Index of the first character at or after `i` that is not whitespace,
/// or `s.len()` if the rest of the sequence is whitespace.
pub open spec fn first_non_ws(s: Seq<char>, i: int) -> int
    decreases s.len() - i when i <= s.len()
{
    if 0 <= i < s.len() && is_ws(s[i]) {
        first_non_ws(s, i + 1)
    } else {
        if i <= s.len() {
            i
        } else {
            s.len() as int
        }
    }
}

pub proof fn lemma_first_non_ws(s: Seq<char>, i: int)
    requires
        0 <= i <= s.len(),
    ensures
        i <= first_non_ws(s, i) <= s.len(),
        forall|k: int| i <= k < first_non_ws(s, i) ==> is_ws(s[k]),
        first_non_ws(s, i) < s.len() ==> !is_ws(s[first_non_ws(s, i)]),
    decreases s.len() - i,
{
    if i < s.len() && is_ws(s[i]) {
        lemma_first_non_ws(s, i + 1);
    }
}

/// Index of the first whitespace character at or after `i`, or `s.len()`.
pub open spec fn first_ws(s: Seq<char>, i: int) -> int
    decreases s.len() - i when i <= s.len()
{
    if 0 <= i < s.len() && !is_ws(s[i]) {
        first_ws(s, i + 1)
    } else {
        if i <= s.len() {
            i
        } else {
            s.len() as int
        }
    }
}

pub proof fn lemma_first_ws(s: Seq<char>, i: int)
    requires
        0 <= i <= s.len(),
    ensures
        i <= first_ws(s, i) <= s.len(),
        forall|k: int| i <= k < first_ws(s, i) ==> !is_ws(s[k]),
        first_ws(s, i) < s.len() ==> is_ws(s[first_ws(s, i)]),
    decreases s.len() - i,
{
    if i < s.len() && !is_ws(s[i]) {
        lemma_first_ws(s, i + 1);
    }
}

/// Greatest index holding a non-whitespace character, or `-1` if none.
pub open spec fn last_non_ws(s: Seq<char>) -> int
    decreases s.len()
{
    if s.len() == 0 {
        -1
    } else if !is_ws(s[s.len() - 1]) {
        s.len() - 1
    } else {
        last_non_ws(s.drop_last())
    }
}

pub proof fn lemma_last_non_ws(s: Seq<char>)
    ensures
        -1 <= last_non_ws(s) < s.len(),
        forall|k: int| last_non_ws(s) < k < s.len() ==> is_ws(s[k]),
        last_non_ws(s) >= 0 ==> !is_ws(s[last_non_ws(s)]),
    decreases s.len(),
{
    if s.len() > 0 && is_ws(s[s.len() - 1]) {
        lemma_last_non_ws(s.drop_last());
        assert forall|k: int| last_non_ws(s) < k < s.len() implies is_ws(s[k]) by {
            if k < s.len() - 1 {
                assert(s.drop_last()[k] == s[k]);
            }
        }
    }
}

/// The sequence with leading and trailing whitespace removed.
pub open spec fn trim_spec(s: Seq<char>) -> Seq<char> {
    let a = first_non_ws(s, 0);
    let b = last_non_ws(s);
    if b < a {
        Seq::empty()
    } else {
        s.subrange(a, b + 1)
    }
}

pub proof fn lemma_trim_len(s: Seq<char>)
    ensures
        trim_spec(s).len() <= s.len(),
{
    lemma_first_non_ws(s, 0);
    lemma_last_non_ws(s);
}

/// Copies `v[a..b]` into a fresh vector.
pub fn subvec(v: &Vec<char>, a: usize, b: usize) -> (r: Vec<char>)
    requires
        a <= b <= v@.len(),
    ensures
        r@ == v@.subrange(a as int, b as int),
{
    let mut r: Vec<char> = Vec::new();
    let mut i: usize = a;
    while i < b
        invariant
            a <= i <= b <= v@.len(),
            r@ == v@.subrange(a as int, i as int),
        decreases b - i,
    {
        r.push(v[i]);
        i += 1;
        proof {
            assert(r@ =~= v@.subrange(a as int, i as int));
        }
    }
    r
}

/// Index of the first non-whitespace character of `v` at or after `i`.
pub fn scan_non_ws(v: &Vec<char>, i: usize) -> (r: usize)
    requires
        i <= v@.len(),
    ensures
        r == first_non_ws(v@, i as int),
{
    let mut j = i;
    while j < v.len() && ws_char(v[j])
        invariant
            i <= j <= v@.len(),
            first_non_ws(v@, i as int) == first_non_ws(v@, j as int),
        decreases v@.len() - j,
    {
        j += 1;
    }
    proof {
        assert(first_non_ws(v@, j as int) == j);
    }
    j
}

/// Index of the first whitespace character of `v` at or after `i`.
pub fn scan_ws(v: &Vec<char>, i: usize) -> (r: usize)
    requires
        i <= v@.len(),
    ensures
        r == first_ws(v@, i as int),
{
    let mut j = i;
    while j < v.len() && !ws_char(v[j])
        invariant
            i <= j <= v@.len(),
            first_ws(v@, i as int) == first_ws(v@, j as int),
        decreases v@.len() - j,
    {
        j += 1;
    }
    proof {
        assert(first_ws(v@, j as int) == j);
    }
    j
}

/// Removes leading and trailing whitespace.
pub fn trim_chars(v: &Vec<char>) -> (r: Vec<char>)
    ensures
        r@ == trim_spec(v@),
{
    proof {
        lemma_first_non_ws(v@, 0);
        lemma_last_non_ws(v@);
    }
    let a = scan_non_ws(v, 0);
    if a == v.len() {
        proof {
            assert(last_non_ws(v@) < a);
        }
        return Vec::new();
    }
    let mut b = v.len();
    while b > a && ws_char(v[b - 1])
        invariant
            a < v@.len(),
            a <= b <= v@.len(),
            !is_ws(v@[a as int]),
            forall|k: int| b <= k < v@.len() ==> is_ws(v@[k]),
        decreases b,
    {
        b -= 1;
    }
    proof {
        assert(!is_ws(v@[b - 1]));
        assert(last_non_ws(v@) == b - 1) by {
            if last_non_ws(v@) > b - 1 {
                assert(is_ws(v@[last_non_ws(v@)]));
            }
            if last_non_ws(v@) < b - 1 {
                assert(is_ws(v@[b - 1]));
            }
        }
    }
    subvec(v, a, b)
}

/// `s` with every `\r\n` pair and every lone `\r` rewritten to `\n`.
pub open spec fn normalize_newlines(s: Seq<char>) -> Seq<char>
    decreases s.len(),
{
    if s.len() == 0 {
        Seq::empty()
    } else if s[0] == '\r' {
        if s.len() > 1 && s[1] == '\n' {
            seq!['\n'] + normalize_newlines(s.subrange(2, s.len() as int))
        } else {
            seq!['\n'] + normalize_newlines(s.subrange(1, s.len() as int))
        }
    } else {
        seq![s[0]] + normalize_newlines(s.subrange(1, s.len() as int))
    }
}

/// Rewrites `\r\n` and `\r` line breaks to `\n`.
pub fn normalize_line_breaks(v: &Vec<char>) -> (r: Vec<char>)
    ensures
        r@ == normalize_newlines(v@),
{
    let mut r: Vec<char> = Vec::new();
    let mut i: usize = 0;
    proof {
        assert(v@.subrange(0, v@.len() as int) =~= v@);
        assert(Seq::<char>::empty() + normalize_newlines(v@) =~= normalize_newlines(v@));
    }
    while i < v.len()
        invariant
            i <= v@.len(),
            normalize_newlines(v@) == r@ + normalize_newlines(v@.subrange(i as int, v@.len() as int)),
        decreases v@.len() - i,
    {
        let ghost pre = r@;
        let ghost tail = v@.subrange(i as int, v@.len() as int);
        if v[i] == '\r' {
            r.push('\n');
            if i + 1 < v.len() && v[i + 1] == '\n' {
                proof {
                    assert(tail.subrange(2, tail.len() as int)
                        =~= v@.subrange(i + 2, v@.len() as int));
                    assert(pre + (seq!['\n'] + normalize_newlines(v@.subrange(i + 2, v@.len() as int)))
                        =~= r@ + normalize_newlines(v@.subrange(i + 2, v@.len() as int)));
                }
                i += 2;
            } else {
                proof {
                    assert(tail.subrange(1, tail.len() as int)
                        =~= v@.subrange(i + 1, v@.len() as int));
                    assert(pre + (seq!['\n'] + normalize_newlines(v@.subrange(i + 1, v@.len() as int)))
                        =~= r@ + normalize_newlines(v@.subrange(i + 1, v@.len() as int)));
                }
                i += 1;
            }
        } else {
            r.push(v[i]);
            proof {
                assert(tail.subrange(1, tail.len() as int)
                    =~= v@.subrange(i + 1, v@.len() as int));
                assert(pre + (seq![v@[i as int]] + normalize_newlines(v@.subrange(i + 1, v@.len() as int)))
                    =~= r@ + normalize_newlines(v@.subrange(i + 1, v@.len() as int)));
            }
            i += 1;
        }
    }
    proof {
        assert(v@.subrange(v@.len() as int, v@.len() as int) =~= Seq::<char>::empty());
        assert(r@ + Seq::<char>::empty() =~= r@);
    }
    r
}

/// Index of the first `\n` at or after `i`, or `s.len()`.
pub open spec fn first_nl(s: Seq<char>, i: int) -> int
    decreases s.len() - i when i <= s.len()
{
    if 0 <= i < s.len() && s[i] != '\n' {
        first_nl(s, i + 1)
    } else {
        if i <= s.len() {
            i
        } else {
            s.len() as int
        }
    }
}

pub proof fn lemma_first_nl(s: Seq<char>, i: int)
    requires
        0 <= i <= s.len(),
    ensures
        i <= first_nl(s, i) <= s.len(),
        forall|k: int| i <= k < first_nl(s, i) ==> s[k] != '\n',
        first_nl(s, i) < s.len() ==> s[first_nl(s, i)] == '\n',
    decreases s.len() - i,
{
    if i < s.len() && s[i] != '\n' {
        lemma_first_nl(s, i + 1);
    }
}

/// Splits on `\n` in the way `str::lines` does for `\n`-normalized text:
/// the empty text has no lines, and a trailing `\n` opens no further line.
pub open spec fn split_lines_spec(s: Seq<char>) -> Seq<Seq<char>>
    decreases s.len(),
{
    if s.len() == 0 {
        Seq::empty()
    } else {
        let k = first_nl(s, 0);
        if 0 <= k < s.len() {
            seq![s.subrange(0, k)] + split_lines_spec(s.subrange(k + 1, s.len() as int))
        } else {
            seq![s]
        }
    }
}

/// Splits on `\n`, keeping every segment: the result always has one segment
/// more than the text has `\n` characters.
pub open spec fn split_all(s: Seq<char>) -> Seq<Seq<char>>
    decreases s.len(),
{
    let k = first_nl(s, 0);
    if 0 <= k < s.len() {
        seq![s.subrange(0, k)] + split_all(s.subrange(k + 1, s.len() as int))
    } else {
        seq![s]
    }
}

pub proof fn lemma_first_nl_unique(s: Seq<char>, k: int)
    requires
        0 <= k <= s.len(),
        forall|j: int| 0 <= j < k ==> s[j] != '\n',
        k < s.len() ==> s[k] == '\n',
    ensures
        first_nl(s, 0) == k,
{
    lemma_first_nl(s, 0);
    let f = first_nl(s, 0);
    if f < k {
        assert(s[f] != '\n');
    }
    if k < f {
        assert(s[k] != '\n');
    }
}

/// Appending `\n` and then a newline-free tail adds exactly one segment.
pub proof fn lemma_split_all_append(a: Seq<char>, b: Seq<char>)
    requires
        forall|j: int| 0 <= j < b.len() ==> b[j] != '\n',
    ensures
        split_all(a + seq!['\n'] + b) == split_all(a).push(b),
    decreases a.len(),
{
    let s = a + seq!['\n'] + b;
    let ka = first_nl(a, 0);
    lemma_first_nl(a, 0);
    if ka == a.len() {
        // `a` is newline-free, so the first newline of `s` is at `a.len()`.
        lemma_first_nl_unique(s, a.len() as int);
        assert(s.subrange(0, a.len() as int) =~= a);
        assert(s.subrange(a.len() as int + 1, s.len() as int) =~= b);
        let kb = first_nl(b, 0);
        lemma_first_nl(b, 0);
        if kb < b.len() {
            assert(b[kb] != '\n');
        }
        assert(split_all(b) == seq![b]);
        assert(split_all(s) =~= split_all(a).push(b));
    } else {
        lemma_first_nl_unique(s, ka);
        assert(s.subrange(0, ka) =~= a.subrange(0, ka));
        let a2 = a.subrange(ka + 1, a.len() as int);
        assert(s.subrange(ka + 1, s.len() as int) =~= a2 + seq!['\n'] + b);
        lemma_split_all_append(a2, b);
        assert(split_all(s) =~= split_all(a).push(b));
    }
}

/// Every line the splitter yields is free of `\n`.
pub proof fn lemma_split_lines_no_nl(s: Seq<char>)
    ensures
        forall|k: int, j: int|
            0 <= k < split_lines_spec(s).len() && 0 <= j < split_lines_spec(s)[k].len()
                ==> (#[trigger] split_lines_spec(s)[k][j]) != '\n',
    decreases s.len(),
{
    if s.len() > 0 {
        lemma_first_nl(s, 0);
        let k = first_nl(s, 0);
        if 0 <= k < s.len() {
            lemma_split_lines_no_nl(s.subrange(k + 1, s.len() as int));
            assert forall|p: int, j: int|
                0 <= p < split_lines_spec(s).len() && 0 <= j < split_lines_spec(s)[p].len()
                    implies (#[trigger] split_lines_spec(s)[p][j]) != '\n' by {
                if p == 0 {
                    assert(split_lines_spec(s)[0] == s.subrange(0, k));
                    assert(s.subrange(0, k)[j] == s[j]);
                } else {
                    assert(split_lines_spec(s)[p] == split_lines_spec(
                        s.subrange(k + 1, s.len() as int),
                    )[p - 1]);
                }
            }
        } else {
            assert forall|p: int, j: int|
                0 <= p < split_lines_spec(s).len() && 0 <= j < split_lines_spec(s)[p].len()
                    implies (#[trigger] split_lines_spec(s)[p][j]) != '\n' by {
                assert(split_lines_spec(s)[p] == s);
            }
        }
    }
}

/// Splits normalized text into its lines.
pub fn split_into_lines(v: &Vec<char>) -> (r: Vec<Vec<char>>)
    ensures
        r.deep_view() == split_lines_spec(v@),
{
    let mut r: Vec<Vec<char>> = Vec::new();
    let mut i: usize = 0;
    let mut done = false;
    proof {
        assert(v@.subrange(0, v@.len() as int) =~= v@);
        assert(r.deep_view() + split_lines_spec(v@) =~~= split_lines_spec(v@));
    }
    while !done && i < v.len()
        invariant
            i <= v@.len(),
            !done ==> split_lines_spec(v@) == r.deep_view()
                + split_lines_spec(v@.subrange(i as int, v@.len() as int)),
            done ==> split_lines_spec(v@) == r.deep_view(),
        decreases v@.len() - i + (if done { 0int } else { 1int }),
    {
        let ghost tail = v@.subrange(i as int, v@.len() as int);
        // find the next newline
        let mut k = i;
        while k < v.len() && v[k] != '\n'
            invariant
                i <= k <= v@.len(),
                forall|j: int| i <= j < k ==> v@[j] != '\n',
            decreases v@.len() - k,
        {
            k += 1;
        }
        proof {
            assert forall|j: int| 0 <= j < k - i implies tail[j] != '\n' by {
                assert(tail[j] == v@[i + j]);
            }
            lemma_first_nl_unique(tail, k - i);
        }
        let seg = subvec(v, i, k);
        let ghost old_r = r.deep_view();
        r.push(seg);
        proof {
            assert(r.deep_view() =~~= old_r.push(seg@));
        }
        if k == v.len() {
            proof {
                assert(tail.subrange(0, k - i) =~= tail);
                assert(seg@ =~= tail);
                assert(split_lines_spec(tail) =~= seq![tail]);
                assert(old_r + split_lines_spec(tail) =~= old_r.push(seg@));
            }
            done = true;
            i = k;
        } else {
            proof {
                assert(seg@ =~= tail.subrange(0, k - i));
                assert(tail.subrange(k - i + 1, tail.len() as int)
                    =~= v@.subrange(k + 1, v@.len() as int));
                assert(old_r + (seq![tail.subrange(0, k - i)]
                    + split_lines_spec(v@.subrange(k + 1, v@.len() as int)))
                    =~= old_r.push(seg@) + split_lines_spec(v@.subrange(k + 1, v@.len() as int)));
            }
            i = k + 1;
        }
    }
    proof {
        if !done {
            assert(v@.subrange(i as int, v@.len() as int) =~= Seq::<char>::empty());
            assert(r.deep_view() + split_lines_spec(Seq::<char>::empty()) =~= r.deep_view());
        }
    }
    r
}

/// The pattern `pat` occurs at position `j` of `s`.
pub open spec fn match_at(s: Seq<char>, j: int, pat: Seq<char>) -> bool {
    0 <= j && j + pat.len() <= s.len() && s.subrange(j, j + pat.len()) == pat
}

/// First occurrence of `pat` at or after `i`, or `-1`.
pub open spec fn find_sub(s: Seq<char>, pat: Seq<char>, i: int) -> int
    decreases s.len() - i when i <= s.len()
{
    if 0 <= i && i + pat.len() <= s.len() {
        if match_at(s, i, pat) {
            i
        } else if i < s.len() {
            find_sub(s, pat, i + 1)
        } else {
            -1
        }
    } else {
        -1
    }
}

pub proof fn lemma_find_sub(s: Seq<char>, pat: Seq<char>, i: int)
    requires
        0 <= i <= s.len(),
    ensures
        find_sub(s, pat, i) == -1 || (i <= find_sub(s, pat, i) && find_sub(s, pat, i) + pat.len()
            <= s.len() && match_at(s, find_sub(s, pat, i), pat)),
        find_sub(s, pat, i) == -1 ==> forall|j: int| i <= j ==> !match_at(s, j, pat),
    decreases s.len() - i,
{
    if i + pat.len() <= s.len() && !match_at(s, i, pat) {
        assert(pat.len() > 0) by {
            if pat.len() == 0 {
                assert(s.subrange(i, i) =~= pat);
            }
        }
        lemma_find_sub(s, pat, i + 1);
    }
}

/// Every occurrence of `pat` replaced by `rep`, left to right without
/// overlap, as `str::replace` does; an empty pattern leaves the text as it
/// stands.
pub open spec fn replace_all_spec(s: Seq<char>, pat: Seq<char>, rep: Seq<char>) -> Seq<char>
    decreases s.len(),
{
    if pat.len() == 0 {
        s
    } else {
        let k = find_sub(s, pat, 0);
        if 0 <= k && k + pat.len() <= s.len() {
            s.subrange(0, k) + rep + replace_all_spec(
                s.subrange(k + pat.len(), s.len() as int),
                pat,
                rep,
            )
        } else {
            s
        }
    }
}

/// Decides whether `pat` occurs at position `j` of `v`.
fn match_here(v: &Vec<char>, j: usize, pat: &Vec<char>) -> (r: bool)
    requires
        j + pat@.len() <= v@.len(),
    ensures
        r == match_at(v@, j as int, pat@),
{
    let n = v.len();
    let mut m: usize = 0;
    while m < pat.len()
        invariant
            m <= pat@.len(),
            j + pat@.len() <= n,
            n == v@.len(),
            forall|q: int| 0 <= q < m ==> v@[j + q] == pat@[q],
        decreases pat@.len() - m,
    {
        if v[j + m] != pat[m] {
            proof {
                if match_at(v@, j as int, pat@) {
                    assert(v@.subrange(j as int, j + pat@.len())[m as int] == pat@[m as int]);
                    assert(false);
                }
            }
            return false;
        }
        m += 1;
    }
    proof {
        assert(v@.subrange(j as int, j + pat@.len()) =~= pat@);
    }
    true
}

/// Finds the first occurrence of `pat` in `v` at or after `from`.
pub fn find_sub_exec(v: &Vec<char>, pat: &Vec<char>, from: usize) -> (r: Option<usize>)
    requires
        from <= v@.len(),
    ensures
        match r {
            Some(k) => k as int == find_sub(v@, pat@, from as int),
            None => find_sub(v@, pat@, from as int) == -1,
        },
{
    let n = v.len();
    let plen = pat.len();
    if plen == 0 {
        proof {
            assert(v@.subrange(from as int, from as int) =~= pat@);
            assert(match_at(v@, from as int, pat@));
        }
        return Some(from);
    }
    if plen > n || from > n - plen {
        proof {
            lemma_find_sub(v@, pat@, from as int);
            if find_sub(v@, pat@, from as int) >= 0 {
                assert(false);
            }
        }
        return None;
    }
    let mut j = from;
    while j <= n - plen
        invariant
            from <= j,
            1 <= plen,
            j <= n - plen + 1,
            plen <= n,
            n == v@.len(),
            plen == pat@.len(),
            forall|p: int| from <= p < j ==> !match_at(v@, p, pat@),
            find_sub(v@, pat@, from as int) == find_sub(v@, pat@, j as int),
        decreases n + 1 - j,
    {
        if match_here(v, j, pat) {
            return Some(j);
        }
        j += 1;
    }
    proof {
        lemma_find_sub(v@, pat@, j as int);
        if find_sub(v@, pat@, j as int) >= 0 {
            assert(false);
        }
    }
    None
}

/// Replaces every occurrence of `pat` in `v` by `rep`, left to right.
pub fn replace_all_chars(v: &Vec<char>, pat: &Vec<char>, rep: &Vec<char>) -> (r: Vec<char>)
    ensures
        r@ == replace_all_spec(v@, pat@, rep@),
{
    if pat.len() == 0 {
        let mut out: Vec<char> = Vec::new();
        let mut copy = subvec(v, 0, v.len());
        proof {
            assert(copy@ =~= v@);
        }
        return copy;
    }
    let ghost total = replace_all_spec(v@, pat@, rep@);
    let mut out: Vec<char> = Vec::new();
    let mut cur = subvec(v, 0, v.len());
    proof {
        assert(cur@ =~= v@);
        assert(out@ + replace_all_spec(cur@, pat@, rep@) =~= total);
    }
    let mut done = false;
    while !done
        invariant
            pat@.len() > 0,
            !done ==> out@ + replace_all_spec(cur@, pat@, rep@) == total,
            done ==> out@ == total,
        decreases cur@.len() + (if done { 0int } else { 1int }),
    {
        let ghost cur0 = cur@;
        match find_sub_exec(&cur, pat, 0) {
            None => {
                let mut tail = cur;
                proof {
                    lemma_find_sub(cur0, pat@, 0);
                    assert(replace_all_spec(cur0, pat@, rep@) == cur0);
                }
                out.append(&mut tail);
                cur = Vec::new();
                done = true;
                proof {
                    assert(out@ =~= total);
                }
            },
            Some(k) => {
                let cl = cur.len();
                proof {
                    lemma_find_sub(cur0, pat@, 0);
                    assert(k as int + pat@.len() <= cl as int);
                }
                let mut head = subvec(&cur, 0, k);
                out.append(&mut head);
                let mut r2 = subvec(rep, 0, rep.len());
                proof {
                    assert(r2@ =~= rep@);
                }
                out.append(&mut r2);
                let rest = subvec(&cur, k + pat.len(), cur.len());
                cur = rest;
                proof {
                    assert(out@ + replace_all_spec(cur@, pat@, rep@) =~= total);
                }
            },
        }
    }
    out
}

/// The decimal rendering of a non-negative integer.
pub open spec fn digit_of(d: int) -> char {
    if d == 0 {
        '0'
    } else if d == 1 {
        '1'
    } else if d == 2 {
        '2'
    } else if d == 3 {
        '3'
    } else if d == 4 {
        '4'
    } else if d == 5 {
        '5'
    } else if d == 6 {
        '6'
    } else if d == 7 {
        '7'
    } else if d == 8 {
        '8'
    } else {
        '9'
    }
}

pub open spec fn dec_of(n: int) -> Seq<char>
    decreases n,
{
    if n < 10 {
        seq![digit_of(if n >= 0 {
            n
        } else {
            0
        })]
    } else {
        dec_of(n / 10).push(digit_of(n % 10))
    }
}

fn digit_char(d: usize) -> (c: char)
    requires
        d < 10,
    ensures
        c == digit_of(d as int),
{
    if d == 0 {
        '0'
    } else if d == 1 {
        '1'
    } else if d == 2 {
        '2'
    } else if d == 3 {
        '3'
    } else if d == 4 {
        '4'
    } else if d == 5 {
        '5'
    } else if d == 6 {
        '6'
    } else if d == 7 {
        '7'
    } else if d == 8 {
        '8'
    } else {
        '9'
    }
}

/// Renders a number in decimal.
pub fn dec_chars(n: usize) -> (r: Vec<char>)
    ensures
        r@ == dec_of(n as int),
    decreases n,
{
    if n < 10 {
        let mut r: Vec<char> = Vec::new();
        r.push(digit_char(n));
        proof {
            assert(r@ =~= dec_of(n as int));
        }
        r
    } else {
        let mut r = dec_chars(n / 10);
        r.push(digit_char(n % 10));
        r
    }
}

/// Builds an owned string from a vector of characters.
pub fn chars_to_string(v: &Vec<char>) -> (s: String)
    ensures
        s@ == v@,
{
    let mut s = String::new();
    let mut i: usize = 0;
    while i < v.len()
        invariant
            i <= v@.len(),
            s@ == v@.subrange(0, i as int),
        decreases v@.len() - i,
    {
        push_char(&mut s, v[i]);
        i += 1;
        proof {
            assert(s@ =~= v@.subrange(0, i as int));
        }
    }
    proof {
        assert(s@ =~= v@);
    }
    s
}

} // verus!
