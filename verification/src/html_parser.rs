//! HTML cleaning, link extraction and URL resolution.

use vstd::prelude::*;

use scraper::Html;

use crate::dom::{
    document_markup_of, html_document_markup, html_select_markup, joined_url, markups_of,
    parse_document_html, parse_fragment_html, parsed_url,
};
use crate::markdown_converter::starts_with_str;
use crate::text::{chars_to_string, is_ws, replace_all_chars, replace_all_spec, str_to_chars};

verus! {

/// Failures of the HTML parsing helpers.
#[derive(Debug)]
pub enum ParserError {
    SelectorError(String),
    NotFound(String),
    UrlError(String),
    Other(String),
}

// ---------------------------------------------------------------------------
// Cleaning
// ---------------------------------------------------------------------------

/// `s` with each of the fragments removed in turn, every occurrence of each.
pub open spec fn remove_all(s: Seq<char>, frags: Seq<Seq<char>>, i: int) -> Seq<char>
    decreases frags.len() - i when 0 <= i <= frags.len()
{
    if i < frags.len() {
        remove_all(replace_all_spec(s, frags[i], Seq::empty()), frags, i + 1)
    } else {
        s
    }
}

/// The selector naming the elements `clean_html` strips.
pub open spec fn unwanted_selector() -> Seq<char> {
    "script, style, iframe, noscript, .advertisement, .ad, .banner, #cookie-notice, header, footer, nav, .sidebar, .menu, .comments, .related, .share, .social"@
}

/// The cleaned document: the reserialized document with the serialization
/// of every unwanted element (scripts, styles, ads, navigation and the
/// like) deleted.
pub open spec fn cleaned_html_spec(html: Seq<char>) -> Seq<char> {
    remove_all(document_markup_of(html), markups_of(html, unwanted_selector()), 0)
}

/// Removes unwanted elements (scripts, styles, ads, navigation chrome) from
/// the document by deleting their serialized form from the reserialized
/// document.
pub fn clean_html(html: &str) -> (r: Result<String, ParserError>)
    ensures
        r is Ok,
        r is Ok ==> r->Ok_0@ == cleaned_html_spec(html@),
{
    let markup = html_document_markup(html);
    let frags = html_select_markup(
        html,
        "script, style, iframe, noscript, .advertisement, .ad, .banner, #cookie-notice, header, footer, nav, .sidebar, .menu, .comments, .related, .share, .social",
    );
    let ghost sfrags = markups_of(html@, unwanted_selector());
    let empty: Vec<char> = Vec::new();
    let mut cur = str_to_chars(markup.as_str());
    let ghost s0 = cur@;
    let mut i: usize = 0;
    while i < frags.len()
        invariant
            i <= frags@.len(),
            frags@.len() == sfrags.len(),
            forall|k: int| 0 <= k < frags@.len() ==> (#[trigger] frags@[k])@ == sfrags[k],
            empty@.len() == 0,
            remove_all(cur@, sfrags, i as int) == remove_all(s0, sfrags, 0),
        decreases frags@.len() - i,
    {
        let fv = str_to_chars(frags[i].as_str());
        let next = replace_all_chars(&cur, &fv, &empty);
        proof {
            assert(empty@ =~= Seq::<char>::empty());
        }
        cur = next;
        i += 1;
    }
    Ok(chars_to_string(&cur))
}

/// Removes unwanted elements from the document; at present the same
/// selector-based pass as [`clean_html`].
pub fn clean_html_advanced(html: &str) -> (r: Result<String, ParserError>)
    ensures
        r is Ok,
        r is Ok ==> r->Ok_0@ == cleaned_html_spec(html@),
{
    clean_html(html)
}

// ---------------------------------------------------------------------------
// URL resolution
// ---------------------------------------------------------------------------

/// Resolves a relative URL against a base URL. An explicitly absolute
/// `http`/`https` reference is returned unchanged; anything else is joined
/// with the base, and a base that does not parse — or a join that fails —
/// is an error.
pub fn resolve_url(base_url: &str, relative_url: &str) -> (r: Result<String, ParserError>)
    ensures
        crate::markdown_converter::starts_http(relative_url@) ==> r is Ok && r->Ok_0@
            == relative_url@,
        !crate::markdown_converter::starts_http(relative_url@) ==> ((r is Ok <==> (joined_url(
            base_url@,
            relative_url@,
        ) is Some)) && (r is Ok ==> joined_url(base_url@, relative_url@) == Some(r->Ok_0@))),
        r is Err ==> r->Err_0 is UrlError,
{
    let rv = str_to_chars(relative_url);
    let is_http = starts_with_str(&rv, "http://") || starts_with_str(&rv, "https://");
    proof {
        reveal_strlit("http://");
        reveal_strlit("https://");
        assert(is_http == crate::markdown_converter::starts_http(relative_url@));
    }
    if is_http {
        return Ok(String::from_str(relative_url));
    }
    match crate::dom::join_url(base_url, relative_url) {
        Some(u) => Ok(u),
        None => Err(ParserError::UrlError(String::from_str(base_url))),
    }
}

// ---------------------------------------------------------------------------
// Link extraction
// ---------------------------------------------------------------------------

/// Strict lexicographic order on character sequences by scalar value — the
/// order `str`'s own comparison induces, since byte-wise UTF-8 order equals
/// scalar order.
pub open spec fn lex_lt(a: Seq<char>, b: Seq<char>) -> bool
    decreases a.len(),
{
    if b.len() == 0 {
        false
    } else if a.len() == 0 {
        true
    } else if a[0] != b[0] {
        (a[0] as int) < (b[0] as int)
    } else {
        lex_lt(a.drop_first(), b.drop_first())
    }
}

/// Exactly one of `a < b`, `a == b`, `b < a` holds.
pub proof fn lemma_lex_trichotomy(a: Seq<char>, b: Seq<char>)
    ensures
        lex_lt(a, b) || lex_lt(b, a) || a == b,
        lex_lt(a, b) ==> !lex_lt(b, a) && a != b,
        lex_lt(b, a) ==> !lex_lt(a, b) && a != b,
    decreases a.len(),
{
    if a.len() > 0 && b.len() > 0 && a[0] == b[0] {
        lemma_lex_trichotomy(a.drop_first(), b.drop_first());
        if a.drop_first() == b.drop_first() {
            assert(a.len() == b.len());
            assert forall|i: int| 0 <= i < a.len() implies a[i] == b[i] by {
                if i > 0 {
                    assert(a.drop_first()[i - 1] == a[i]);
                    assert(b.drop_first()[i - 1] == b[i]);
                }
            }
            assert(a =~= b);
        }
        if a == b {
            assert(a.drop_first() =~= b.drop_first());
        }
    } else if a.len() == 0 && b.len() == 0 {
        assert(a =~= b);
    }
}

/// Decides the lexicographic order on character vectors.
fn lex_lt_exec(a: &Vec<char>, b: &Vec<char>) -> (r: bool)
    ensures
        r == lex_lt(a@, b@),
{
    let mut i: usize = 0;
    let na = a.len();
    let nb = b.len();
    proof {
        assert(a@.skip(0) =~= a@);
        assert(b@.skip(0) =~= b@);
    }
    while i < na && i < nb
        invariant
            i <= na,
            i <= nb,
            na == a@.len(),
            nb == b@.len(),
            forall|k: int| 0 <= k < i ==> a@[k] == b@[k],
            lex_lt(a@, b@) == lex_lt(a@.skip(i as int), b@.skip(i as int)),
        decreases na - i,
    {
        let ca = a[i];
        let cb = b[i];
        if ca != cb {
            proof {
                assert(a@.skip(i as int)[0] == ca);
                assert(b@.skip(i as int)[0] == cb);
            }
            return ca < cb;
        }
        i += 1;
        proof {
            let sa = a@.skip(i - 1);
            let sb = b@.skip(i - 1);
            assert(sa.drop_first() =~= a@.skip(i as int));
            assert(sb.drop_first() =~= b@.skip(i as int));
        }
    }
    proof {
        if i < nb {
            assert(a@.skip(i as int).len() == 0);
            assert(b@.skip(i as int).len() > 0);
        } else if i < na {
            assert(b@.skip(i as int).len() == 0);
        } else {
            assert(a@.skip(i as int).len() == 0);
            assert(b@.skip(i as int).len() == 0);
        }
    }
    i >= na && i < nb
}

/// The candidate link URLs of the document, in document order: anchors with
/// empty, `javascript:` or fragment-only references skipped, absolute
/// `http`/`https` references kept as they stand, anything else joined with
/// the base (dropped when the join fails).
pub open spec fn link_results(raw: Seq<(Seq<char>, Seq<char>)>, base: Seq<char>, i: int) -> Seq<
    Seq<char>,
>
    decreases raw.len() - i when 0 <= i <= raw.len()
{
    if i < raw.len() {
        let href = raw[i].0;
        if href.len() == 0 || (href.len() >= 11 && href.subrange(0, 11) == "javascript:"@) || (
        href.len() >= 1 && href.subrange(0, 1) == "#"@) {
            link_results(raw, base, i + 1)
        } else if crate::markdown_converter::starts_http(href) {
            seq![href] + link_results(raw, base, i + 1)
        } else {
            match joined_url(base, href) {
                Option::Some(u) => seq![u] + link_results(raw, base, i + 1),
                Option::None => link_results(raw, base, i + 1),
            }
        }
    } else {
        Seq::empty()
    }
}

// ---------------------------------------------------------------------------
// Main-content extraction
// ---------------------------------------------------------------------------

/// The serialized main-content fragment: the first element the combined
/// content selector matches, then each fallback selector in order of
/// preference, `None` when even `body` matches nothing.
pub open spec fn main_markup_choice(html: Seq<char>) -> Option<Seq<char>> {
    if markups_of(html, "main, article, #content, .content"@).len() > 0 {
        Option::Some(markups_of(html, "main, article, #content, .content"@)[0])
    } else if markups_of(html, "main"@).len() > 0 {
        Option::Some(markups_of(html, "main"@)[0])
    } else if markups_of(html, "article"@).len() > 0 {
        Option::Some(markups_of(html, "article"@)[0])
    } else if markups_of(html, "#content"@).len() > 0 {
        Option::Some(markups_of(html, "#content"@)[0])
    } else if markups_of(html, ".content"@).len() > 0 {
        Option::Some(markups_of(html, ".content"@)[0])
    } else if markups_of(html, "body"@).len() > 0 {
        Option::Some(markups_of(html, "body"@)[0])
    } else {
        Option::None
    }
}

/// Serialization of the document's main content: the combined content
/// selector first, then the fallbacks in order of preference.
pub fn main_content_markup(html: &str) -> (r: Option<String>)
    ensures
        match r {
            Some(m) => main_markup_choice(html@) == Some(m@),
            None => main_markup_choice(html@) is None,
        },
{
    let mut combined = html_select_markup(html, "main, article, #content, .content");
    if combined.len() > 0 {
        return Some(combined.remove(0));
    }
    let mut main_el = html_select_markup(html, "main");
    if main_el.len() > 0 {
        return Some(main_el.remove(0));
    }
    let mut article = html_select_markup(html, "article");
    if article.len() > 0 {
        return Some(article.remove(0));
    }
    let mut content_id = html_select_markup(html, "#content");
    if content_id.len() > 0 {
        return Some(content_id.remove(0));
    }
    let mut content_class = html_select_markup(html, ".content");
    if content_class.len() > 0 {
        return Some(content_class.remove(0));
    }
    let mut body = html_select_markup(html, "body");
    if body.len() > 0 {
        return Some(body.remove(0));
    }
    None
}

/// Extracts the main content of the document as a reparsed fragment: the
/// first match of the content selectors in order of preference, or the
/// whole document when none matches. This always succeeds.
pub fn extract_main_content(html: &str) -> (r: Result<Html, ParserError>)
    ensures
        r is Ok,
{
    match main_content_markup(html) {
        Some(markup) => Ok(parse_fragment_html(markup.as_str())),
        None => Ok(parse_document_html(html)),
    }
}

// ---------------------------------------------------------------------------
// Text normalization
// ---------------------------------------------------------------------------

/// A word has started somewhere before `i`.
pub open spec fn any_word_before(s: Seq<char>, i: int) -> bool {
    exists|k: int| 0 <= k < i && !is_ws(#[trigger] s[k])
}

/// Whitespace collapsed: every run of whitespace between words becomes one
/// space, leading and trailing whitespace disappears.
pub open spec fn collapse_ws(s: Seq<char>, i: int) -> Seq<char>
    decreases s.len() - i when 0 <= i <= s.len()
{
    if i < s.len() {
        if is_ws(s[i]) {
            collapse_ws(s, i + 1)
        } else {
            (if crate::chunker::word_start(s, i) && any_word_before(s, i) {
                seq![' ', s[i]]
            } else {
                seq![s[i]]
            }) + collapse_ws(s, i + 1)
        }
    } else {
        Seq::empty()
    }
}

/// Collapses internal whitespace runs to single spaces and trims the ends.
pub fn normalize_whitespace(s: &str) -> (r: String)
    ensures
        r@ == collapse_ws(s@, 0),
{
    let v = str_to_chars(s);
    let n = v.len();
    let mut out: Vec<char> = Vec::new();
    let mut i: usize = 0;
    let mut started = false;
    proof {
        assert(out@ + collapse_ws(v@, 0) =~= collapse_ws(v@, 0));
    }
    while i < n
        invariant
            i <= n,
            n == v@.len(),
            v@ == s@,
            started == any_word_before(v@, i as int),
            out@ + collapse_ws(v@, i as int) == collapse_ws(v@, 0),
        decreases n - i,
    {
        let ghost pre = out@;
        let c = v[i];
        if !crate::text::ws_char(c) {
            if started && (i == 0 || crate::text::ws_char(v[i - 1])) {
                out.push(' ');
            }
            out.push(c);
            started = true;
            proof {
                if crate::chunker::word_start(v@, i as int) && any_word_before(v@, i as int) {
                    assert(out@ =~= pre + seq![' ', v@[i as int]]);
                } else {
                    assert(out@ =~= pre + seq![v@[i as int]]);
                }
            }
        }
        let was_ws = crate::text::ws_char(c);
        i += 1;
        proof {
            if !was_ws {
                assert(!is_ws(v@[i - 1]));
                assert(any_word_before(v@, i as int));
            } else {
                assert(any_word_before(v@, i as int) == any_word_before(v@, i - 1)) by {
                    if any_word_before(v@, i as int) {
                        let k = choose|k: int| 0 <= k < i && !is_ws(#[trigger] v@[k]);
                        if k == i - 1 {
                            assert(false);
                        }
                    }
                }
            }
            assert(out@ + collapse_ws(v@, i as int) =~= collapse_ws(v@, 0));
        }
    }
    chars_to_string(&out)
}

/// The element's text nodes joined with spaces and whitespace-normalized.
/// The text collection itself comes from the HTML parser; the joining and
/// collapsing here carry the contract of [`normalize_whitespace`].
pub fn get_element_text(element: &scraper::ElementRef<'_>) -> String {
    let parts = crate::dom::element_text_parts(element);
    let mut joined: Vec<char> = Vec::new();
    let mut i: usize = 0;
    while i < parts.len()
        decreases parts@.len() - i,
    {
        if i > 0 {
            joined.push(' ');
        }
        let mut pv = str_to_chars(parts[i].as_str());
        joined.append(&mut pv);
        i += 1;
    }
    let js = chars_to_string(&joined);
    normalize_whitespace(js.as_str())
}

/// Some element of `v` has view `x`.
pub open spec fn has_view(v: Seq<String>, x: Seq<char>) -> bool {
    exists|i: int| 0 <= i < v.len() && (#[trigger] v[i])@ == x
}

/// The strings of `v` are strictly sorted.
pub open spec fn strictly_sorted(v: Seq<String>) -> bool {
    forall|i: int| 0 <= i < v.len() - 1 ==> lex_lt((#[trigger] v[i])@, v[i + 1]@)
}

/// Reads out one element's characters.
fn str_to_chars_of(v: &Vec<String>, i: usize) -> (r: Vec<char>)
    requires
        i < v@.len(),
    ensures
        r@ == v@[i as int]@,
{
    str_to_chars(v[i].as_str())
}

/// Inserts `s` into the sorted vector `out`, keeping it sorted and
/// duplicate-free.
fn insert_sorted(out: &mut Vec<String>, s: String)
    requires
        strictly_sorted(old(out)@),
    ensures
        strictly_sorted(final(out)@),
        forall|x: Seq<char>|
            has_view(final(out)@, x) <==> (has_view(old(out)@, x) || x == s@),
{
    let sv = str_to_chars(s.as_str());
    let mut p: usize = 0;
    while p < out.len() && lex_lt_exec(&str_to_chars_of(&*out, p), &sv)
        invariant
            p <= out@.len(),
            sv@ == s@,
            out@ == old(out)@,
            forall|i: int| 0 <= i < p ==> lex_lt((#[trigger] out@[i])@, s@),
        decreases out@.len() - p,
    {
        p += 1;
    }
    let ghost pre = out@;
    if p < out.len() {
        let at_p = str_to_chars_of(&*out, p);
        proof {
            lemma_lex_trichotomy(at_p@, sv@);
        }
        if !lex_lt_exec(&sv, &at_p) {
            // the order is total, so the element at the insertion point is s
            proof {
                assert(pre[p as int]@ == s@);
                assert(has_view(pre, s@));
                assert forall|x: Seq<char>|
                    has_view(out@, x) <==> (has_view(pre, x) || x == s@) by {}
            }
            return ;
        }
    }
    out.insert(p, s);
    proof {
        assert(out@ == pre.insert(p as int, s));
        assert(out@.len() == pre.len() + 1);
        assert(forall|i: int| 0 <= i < p ==> out@[i] == pre[i]);
        assert(out@[p as int] == s);
        assert(forall|i: int| p < i < out@.len() ==> out@[i] == pre[i - 1]);
        assert forall|i: int| 0 <= i < out@.len() - 1 implies lex_lt(
            (#[trigger] out@[i])@,
            out@[i + 1]@,
        ) by {
            if i + 1 < p {
                assert(out@[i] == pre[i] && out@[i + 1] == pre[i + 1]);
                assert(lex_lt(pre[i]@, pre[i + 1]@));
            } else if i + 1 == p {
                assert(out@[i] == pre[i] && out@[i + 1] == s);
                assert(lex_lt(pre[i]@, s@));
            } else if i == p {
                assert(out@[i] == s && out@[i + 1] == pre[i]);
                assert(lex_lt(s@, pre[i]@));
            } else {
                assert(out@[i] == pre[i - 1] && out@[i + 1] == pre[i]);
                assert(lex_lt(pre[i - 1]@, pre[i]@));
            }
        }
        assert forall|x: Seq<char>|
            has_view(out@, x) <==> (has_view(pre, x) || x == s@) by {
            if has_view(pre, x) {
                let i = choose|i: int| 0 <= i < pre.len() && (#[trigger] pre[i])@ == x;
                if i < p {
                    assert(out@[i]@ == x);
                } else {
                    assert(out@[i + 1]@ == x);
                }
            }
            if x == s@ {
                assert(out@[p as int]@ == x);
            }
            if has_view(out@, x) {
                let i = choose|i: int| 0 <= i < out@.len() && (#[trigger] out@[i])@ == x;
                if i < p {
                    assert(pre[i]@ == x);
                    assert(has_view(pre, x));
                } else if i == p {
                    assert(x == s@);
                } else {
                    assert(pre[i - 1]@ == x);
                    assert(has_view(pre, x));
                }
            }
        }
    }
}

/// Extracts the unique absolute link targets of the document's anchors,
/// sorted: empty, `javascript:` and fragment-only references are skipped,
/// explicitly absolute references kept as they stand, relative references
/// joined with the base (and dropped when the join fails); the collected
/// URLs are deduplicated and sorted. Fails exactly when the base URL does
/// not parse.
pub fn extract_links(html: &str, base_url: &str) -> (r: Result<Vec<String>, ParserError>)
    ensures
        r is Ok <==> (parsed_url(base_url@) is Some),
        r is Ok ==> strictly_sorted(r->Ok_0@),
        r is Ok ==> forall|x: Seq<char>|
            has_view(r->Ok_0@, x) <==> link_results(
                crate::dom::anchors_of(html@),
                base_url@,
                0,
            ).contains(x),
        r is Err ==> r->Err_0 is UrlError,
{
    match crate::dom::parse_url_normalized(base_url) {
        None => {
            return Err(ParserError::UrlError(String::from_str(base_url)));
        },
        Some(_) => {},
    }
    let raw = crate::dom::html_anchors(html);
    let ghost sraw = crate::dom::anchors_of(html@);
    let ghost all = link_results(sraw, base_url@, 0);
    let mut out: Vec<String> = Vec::new();
    let mut i: usize = 0;
    while i < raw.len()
        invariant
            i <= raw@.len(),
            raw@.len() == sraw.len(),
            all == link_results(sraw, base_url@, 0),
            forall|k: int|
                0 <= k < raw@.len() ==> (#[trigger] raw@[k]).0@ == sraw[k].0 && raw@[k].1@
                    == sraw[k].1,
            strictly_sorted(out@),
            forall|x: Seq<char>|
                (has_view(out@, x) || link_results(sraw, base_url@, i as int).contains(x)) <==> all.contains(
                    x,
                ),
        decreases raw@.len() - i,
    {
        let ghost rest = link_results(sraw, base_url@, i as int);
        let ghost rest2 = link_results(sraw, base_url@, i + 1);
        let hv = str_to_chars(raw[i].0.as_str());
        let skip = hv.len() == 0 || starts_with_str(&hv, "javascript:") || starts_with_str(
            &hv,
            "#",
        );
        proof {
            reveal_strlit("javascript:");
            reveal_strlit("#");
        }
        if skip {
            proof {
                assert(rest == rest2);
            }
        } else {
            let is_http = starts_with_str(&hv, "http://") || starts_with_str(&hv, "https://");
            proof {
                reveal_strlit("http://");
                reveal_strlit("https://");
                assert(is_http == crate::markdown_converter::starts_http(sraw[i as int].0));
            }
            let link: Option<String> = if is_http {
                Some(chars_to_string(&hv))
            } else {
                crate::dom::join_url(base_url, raw[i].0.as_str())
            };
            match link {
                Some(u) => {
                    let ghost uview = u@;
                    proof {
                        assert(rest =~= seq![uview] + rest2);
                        assert forall|x: Seq<char>| #[trigger]
                            rest.contains(x) <==> (x == uview || rest2.contains(x)) by {
                            if rest.contains(x) {
                                let j = choose|j: int|
                                    0 <= j < rest.len() && rest[j] == x;
                                if j > 0 {
                                    assert(rest2[j - 1] == x);
                                }
                            }
                            if rest2.contains(x) {
                                let j = choose|j: int|
                                    0 <= j < rest2.len() && rest2[j] == x;
                                assert(rest[j + 1] == x);
                            }
                            if x == uview {
                                assert(rest[0] == x);
                            }
                        }
                    }
                    insert_sorted(&mut out, u);
                },
                None => {
                    proof {
                        assert(rest == rest2);
                    }
                },
            }
        }
        i += 1;
    }
    proof {
        assert(link_results(sraw, base_url@, sraw.len() as int) =~= Seq::<Seq<char>>::empty());
        assert forall|x: Seq<char>|
            has_view(out@, x) <==> all.contains(x) by {
            if link_results(sraw, base_url@, i as int).contains(x) {
                let j = choose|j: int|
                    0 <= j < link_results(sraw, base_url@, i as int).len() && link_results(
                        sraw,
                        base_url@,
                        i as int,
                    )[j] == x;
            }
        }
    }
    Ok(out)
}

} // verus!
