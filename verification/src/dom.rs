//! The boundary to the HTML parser and the URL resolver.
//!
//! Everything scraper and url compute is reached through the wrappers here.
//! Each result is named by an uninterpreted function of the inputs alone:
//! parsing a fixed document with a fixed selector is deterministic, so the
//! names say no more than "the same inputs give the same value", and the
//! verified code above these wrappers carries the real contracts.

use vstd::prelude::*;

use scraper::{Html, Selector};

verus! {

/// The parsed-document type of the HTML parser, carried opaquely.
#[verifier::external_type_specification]
#[verifier::external_body]
pub struct ExHtml(Html);

/// Text of the first `title` element of the document, if any.
pub uninterp spec fn title_of(html: Seq<char>) -> Option<Seq<char>>;

/// Relies on scraper's `Html::parse_document` and `ElementRef::text`: the
/// collected text of the first `title` element depends on the HTML alone.
#[verifier::external_body]
pub fn html_title(html: &str) -> (r: Option<String>)
    ensures
        match r {
            Some(t) => title_of(html@) == Some(t@),
            None => title_of(html@) is None,
        },
{
    let doc = Html::parse_document(html);
    match Selector::parse("title") {
        Ok(sel) => doc.select(&sel).next().map(|e| e.text().collect::<String>()),
        Err(_) => None,
    }
}

/// The `(level, text)` pairs of the document's `h1` … `h6` elements, in
/// level order and document order within one level.
pub uninterp spec fn headings_of(html: Seq<char>) -> Seq<(u8, Seq<char>)>;

/// Relies on scraper's selector matching for `h1` … `h6`: the collected
/// heading texts depend on the HTML alone.
#[verifier::external_body]
pub fn html_headings(html: &str) -> (r: Vec<(u8, String)>)
    ensures
        r@.len() == headings_of(html@).len(),
        forall|i: int|
            0 <= i < r@.len() ==> (#[trigger] r@[i]).0 == headings_of(html@)[i].0 && r@[i].1@
                == headings_of(html@)[i].1,
{
    let doc = Html::parse_document(html);
    let mut out: Vec<(u8, String)> = Vec::new();
    for level in 1..=6u8 {
        if let Ok(sel) = Selector::parse(&format!("h{}", level)) {
            for el in doc.select(&sel) {
                out.push((level, el.text().collect::<String>()));
            }
        }
    }
    out
}

/// The collected texts of the elements the selector matches, in document
/// order; empty for a selector the parser rejects.
pub uninterp spec fn texts_of(html: Seq<char>, sel: Seq<char>) -> Seq<Seq<char>>;

/// Relies on scraper's `Html::parse_document`, `Selector::parse` and
/// `ElementRef::text`: the collected texts depend on the HTML and the
/// selector alone.
#[verifier::external_body]
pub fn html_texts(html: &str, selector: &str) -> (r: Vec<String>)
    ensures
        r@.len() == texts_of(html@, selector@).len(),
        forall|i: int| 0 <= i < r@.len() ==> (#[trigger] r@[i])@ == texts_of(html@, selector@)[i],
{
    let doc = Html::parse_document(html);
    match Selector::parse(selector) {
        Ok(sel) => doc.select(&sel).map(|e| e.text().collect::<String>()).collect(),
        Err(_) => Vec::new(),
    }
}

/// The `(href, text)` pairs of the document's `a[href]` elements.
pub uninterp spec fn anchors_of(html: Seq<char>) -> Seq<(Seq<char>, Seq<char>)>;

/// Relies on scraper's selector matching for `a[href]` and on
/// `ElementRef::attr`: the pairs depend on the HTML alone.
#[verifier::external_body]
pub fn html_anchors(html: &str) -> (r: Vec<(String, String)>)
    ensures
        r@.len() == anchors_of(html@).len(),
        forall|i: int|
            0 <= i < r@.len() ==> (#[trigger] r@[i]).0@ == anchors_of(html@)[i].0 && r@[i].1@
                == anchors_of(html@)[i].1,
{
    let doc = Html::parse_document(html);
    let mut out: Vec<(String, String)> = Vec::new();
    if let Ok(sel) = Selector::parse("a[href]") {
        for el in doc.select(&sel) {
            if let Some(href) = el.attr("href") {
                out.push((href.to_string(), el.text().collect::<String>()));
            }
        }
    }
    out
}

/// The `(src, alt)` pairs of the document's `img[src]` elements.
pub uninterp spec fn images_of(html: Seq<char>) -> Seq<(Seq<char>, Option<Seq<char>>)>;

/// Relies on scraper's selector matching for `img[src]` and on
/// `ElementRef::attr`: the pairs depend on the HTML alone.
#[verifier::external_body]
pub fn html_images(html: &str) -> (r: Vec<(String, Option<String>)>)
    ensures
        r@.len() == images_of(html@).len(),
        forall|i: int|
            0 <= i < r@.len() ==> (#[trigger] r@[i]).0@ == images_of(html@)[i].0 && (match r@[i].1 {
                Some(a) => images_of(html@)[i].1 == Some(a@),
                None => images_of(html@)[i].1 is None,
            }),
{
    let doc = Html::parse_document(html);
    let mut out: Vec<(String, Option<String>)> = Vec::new();
    if let Ok(sel) = Selector::parse("img[src]") {
        for el in doc.select(&sel) {
            if let Some(src) = el.attr("src") {
                out.push((src.to_string(), el.attr("alt").map(|a| a.to_string())));
            }
        }
    }
    out
}

/// The item texts of each `ul` (or, when `ordered`, each `ol`) element.
pub uninterp spec fn lists_of(html: Seq<char>, ordered: bool) -> Seq<Seq<Seq<char>>>;

/// Relies on scraper's selector matching for `ul`/`ol` and `li`: the item
/// texts depend on the HTML and the flag alone.
#[verifier::external_body]
pub fn html_lists(html: &str, ordered: bool) -> (r: Vec<Vec<String>>)
    ensures
        r@.len() == lists_of(html@, ordered).len(),
        forall|i: int|
            0 <= i < r@.len() ==> (#[trigger] r@[i])@.len() == lists_of(html@, ordered)[i].len(),
        forall|i: int, j: int|
            0 <= i < r@.len() && 0 <= j < (#[trigger] r@[i])@.len() ==> (#[trigger] r@[i]@[j])@
                == lists_of(html@, ordered)[i][j],
{
    let doc = Html::parse_document(html);
    let mut out: Vec<Vec<String>> = Vec::new();
    let outer = if ordered { "ol" } else { "ul" };
    if let (Ok(sel), Ok(li)) = (Selector::parse(outer), Selector::parse("li")) {
        for l in doc.select(&sel) {
            out.push(l.select(&li).map(|e| e.text().collect::<String>()).collect());
        }
    }
    out
}

/// The `(classes, text)` pairs of the document's code elements: every
/// `pre` and `code` element, or only `pre > code` when `nested_only`.
pub uninterp spec fn code_blocks_of(html: Seq<char>, nested_only: bool) -> Seq<
    (Seq<Seq<char>>, Seq<char>),
>;

/// Relies on scraper's selector matching and `Element::classes`: the pairs
/// depend on the HTML and the flag alone.
#[verifier::external_body]
pub fn html_code_blocks(html: &str, nested_only: bool) -> (r: Vec<(Vec<String>, String)>)
    ensures
        r@.len() == code_blocks_of(html@, nested_only).len(),
        forall|i: int|
            0 <= i < r@.len() ==> (#[trigger] r@[i]).0@.len() == code_blocks_of(
                html@,
                nested_only,
            )[i].0.len(),
        forall|i: int, j: int|
            0 <= i < r@.len() && 0 <= j < (#[trigger] r@[i]).0@.len() ==> (#[trigger] r@[i].0@[j])@
                == code_blocks_of(html@, nested_only)[i].0[j],
        forall|i: int|
            0 <= i < r@.len() ==> (#[trigger] r@[i]).1@ == code_blocks_of(html@, nested_only)[i].1,
{
    let doc = Html::parse_document(html);
    let sel_text = if nested_only { "pre > code" } else { "pre, code" };
    let mut out: Vec<(Vec<String>, String)> = Vec::new();
    if let Ok(sel) = Selector::parse(sel_text) {
        for el in doc.select(&sel) {
            let classes: Vec<String> = el.value().classes().map(|c| c.to_string()).collect();
            out.push((classes, el.text().collect::<String>()));
        }
    }
    out
}

/// Number of elements the selector matches; zero for a rejected selector.
pub uninterp spec fn count_of(html: Seq<char>, sel: Seq<char>) -> int;

/// Relies on scraper's `Select` iterator: the match count depends on the
/// HTML and the selector alone.
#[verifier::external_body]
pub fn html_count(html: &str, selector: &str) -> (r: usize)
    ensures
        r as int == count_of(html@, selector@),
{
    let doc = Html::parse_document(html);
    Selector::parse(selector).map(|s| doc.select(&s).count()).unwrap_or(0)
}

/// The serialized outer HTML of each element the selector matches.
pub uninterp spec fn markups_of(html: Seq<char>, sel: Seq<char>) -> Seq<Seq<char>>;

/// Relies on scraper's `ElementRef::html`: the serialized fragments depend
/// on the HTML and the selector alone.
#[verifier::external_body]
pub fn html_select_markup(html: &str, selector: &str) -> (r: Vec<String>)
    ensures
        r@.len() == markups_of(html@, selector@).len(),
        forall|i: int|
            0 <= i < r@.len() ==> (#[trigger] r@[i])@ == markups_of(html@, selector@)[i],
{
    let doc = Html::parse_document(html);
    match Selector::parse(selector) {
        Ok(sel) => doc.select(&sel).map(|e| e.html()).collect(),
        Err(_) => Vec::new(),
    }
}

/// The whole document serialized back from its parse.
pub uninterp spec fn document_markup_of(html: Seq<char>) -> Seq<char>;

/// Relies on scraper's `Html::root_element` and `ElementRef::html`: the
/// serialization depends on the HTML alone.
#[verifier::external_body]
pub fn html_document_markup(html: &str) -> (r: String)
    ensures
        r@ == document_markup_of(html@),
{
    let doc = Html::parse_document(html);
    doc.root_element().html()
}

/// Relies on scraper's `Html::parse_document`. The parse is carried
/// opaquely; nothing further is assumed of it.
#[verifier::external_body]
pub fn parse_document_html(html: &str) -> Html {
    Html::parse_document(html)
}

/// Relies on scraper's `Html::parse_fragment`. The parse is carried
/// opaquely; nothing further is assumed of it.
#[verifier::external_body]
pub fn parse_fragment_html(html: &str) -> Html {
    Html::parse_fragment(html)
}

/// The borrowed-element type of the HTML parser, carried opaquely.
#[verifier::external_type_specification]
#[verifier::external_body]
pub struct ExElementRef<'a>(scraper::ElementRef<'a>);

/// Relies on scraper's `ElementRef::text`: collects the element's text
/// nodes. The element is opaque here, so nothing further is assumed; the
/// caller's own logic handles whatever comes back.
#[verifier::external_body]
pub fn element_text_parts<'a>(e: &scraper::ElementRef<'a>) -> Vec<String> {
    e.text().map(|t| t.to_string()).collect()
}

/// The base URL joined with a possibly-relative reference, rendered back to
/// text; `None` when the base does not parse or the join fails.
pub uninterp spec fn joined_url(base: Seq<char>, rel: Seq<char>) -> Option<Seq<char>>;

/// Relies on url's `Url::parse` and `Url::join`: the joined, normalized URL
/// depends on the two inputs alone.
#[verifier::external_body]
pub fn join_url(base: &str, rel: &str) -> (r: Option<String>)
    ensures
        match r {
            Some(u) => joined_url(base@, rel@) == Some(u@),
            None => joined_url(base@, rel@) is None,
        },
{
    match url::Url::parse(base) {
        Ok(b) => match b.join(rel) {
            Ok(u) => Some(u.to_string()),
            Err(_) => None,
        },
        Err(_) => None,
    }
}

/// A URL parsed and rendered back in normalized form; `None` when it does
/// not parse as an absolute URL.
pub uninterp spec fn parsed_url(s: Seq<char>) -> Option<Seq<char>>;

/// Relies on url's `Url::parse` and its `Display` rendering: the normalized
/// form depends on the input alone.
#[verifier::external_body]
pub fn parse_url_normalized(s: &str) -> (r: Option<String>)
    ensures
        match r {
            Some(u) => parsed_url(s@) == Some(u@),
            None => parsed_url(s@) is None,
        },
{
    match url::Url::parse(s) {
        Ok(u) => Some(u.to_string()),
        Err(_) => None,
    }
}

} // verus!
