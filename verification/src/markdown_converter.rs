//! The document model extracted from HTML and its rendering to Markdown.
//!
//! The renderer is fully specified: `document_to_markdown` returns exactly
//! the text that [`markdown_of`] describes, section by section, with the
//! final blank-line cleanup and trim applied.

use vstd::prelude::*;

use crate::text::{
    dec_chars, dec_of, chars_to_string, replace_all_chars, replace_all_spec, split_into_lines,
    split_lines_spec, str_to_chars, subvec, trim_chars, trim_spec,
};

verus! {

/// Failures of the conversion pipeline.
#[derive(Debug)]
pub enum MarkdownError {
    SelectorError(String),
    UrlError(String),
    SerializationError(String),
    Other(String),
}

impl MarkdownError {
    /// The error rendered as text, in the pipeline's usual phrasing.
    pub open spec fn message_spec(&self) -> Seq<char> {
        match self {
            MarkdownError::SelectorError(m) => "Selector error: "@ + m@,
            MarkdownError::UrlError(m) => "URL parsing error: "@ + m@,
            MarkdownError::SerializationError(m) => "Serialization error: "@ + m@,
            MarkdownError::Other(m) => "Other error: "@ + m@,
        }
    }

    /// Renders the error as text.
    pub fn message(&self) -> (r: String)
        ensures
            r@ == self.message_spec(),
    {
        let mut out: String = match self {
            MarkdownError::SelectorError(_) => String::from_str("Selector error: "),
            MarkdownError::UrlError(_) => String::from_str("URL parsing error: "),
            MarkdownError::SerializationError(_) => String::from_str("Serialization error: "),
            MarkdownError::Other(_) => String::from_str("Other error: "),
        };
        match self {
            MarkdownError::SelectorError(m) => out.append(m.as_str()),
            MarkdownError::UrlError(m) => out.append(m.as_str()),
            MarkdownError::SerializationError(m) => out.append(m.as_str()),
            MarkdownError::Other(m) => out.append(m.as_str()),
        }
        out
    }
}

/// Supported output formats for content conversion.
#[derive(Debug, Clone, Copy, PartialEq, Eq, Structural)]
pub enum OutputFormat {
    Markdown,
    Json,
    Xml,
}

/// Document representation extracted from HTML.
#[derive(Debug)]
pub struct Document {
    pub title: String,
    pub base_url: String,
    pub headings: Vec<Heading>,
    pub paragraphs: Vec<String>,
    pub links: Vec<Link>,
    pub images: Vec<Image>,
    pub lists: Vec<List>,
    pub code_blocks: Vec<CodeBlock>,
    pub blockquotes: Vec<String>,
}

#[derive(Debug)]
pub struct Heading {
    pub level: u8,
    pub text: String,
}

#[derive(Debug)]
pub struct Link {
    pub text: String,
    pub url: String,
}

#[derive(Debug)]
pub struct Image {
    pub alt: String,
    pub src: String,
}

#[derive(Debug)]
pub struct List {
    pub ordered: bool,
    pub items: Vec<String>,
}

#[derive(Debug)]
pub struct CodeBlock {
    pub language: String,
    pub code: String,
}

// ---------------------------------------------------------------------------
// The Markdown rendering, section by section
// ---------------------------------------------------------------------------

/// `n` repetitions of `#`.
pub open spec fn n_hashes(n: int) -> Seq<char>
    decreases n,
{
    if n <= 0 {
        Seq::empty()
    } else {
        n_hashes(n - 1).push('#')
    }
}

pub open spec fn heading_md(h: Heading) -> Seq<char> {
    n_hashes(h.level as int) + seq![' '] + h.text@ + seq!['\n', '\n']
}

pub open spec fn headings_md(hs: Seq<Heading>) -> Seq<char>
    decreases hs.len(),
{
    if hs.len() == 0 {
        Seq::empty()
    } else {
        headings_md(hs.drop_last()) + heading_md(hs.last())
    }
}

pub open spec fn paragraphs_md(ps: Seq<String>) -> Seq<char>
    decreases ps.len(),
{
    if ps.len() == 0 {
        Seq::empty()
    } else {
        paragraphs_md(ps.drop_last()) + ps.last()@ + seq!['\n', '\n']
    }
}

pub open spec fn link_md(l: Link) -> Seq<char> {
    seq!['['] + l.text@ + seq![']', '('] + l.url@ + seq![')', '\n', '\n']
}

pub open spec fn links_md(ls: Seq<Link>) -> Seq<char>
    decreases ls.len(),
{
    if ls.len() == 0 {
        Seq::empty()
    } else {
        links_md(ls.drop_last()) + link_md(ls.last())
    }
}

pub open spec fn image_md(im: Image) -> Seq<char> {
    seq!['!', '['] + im.alt@ + seq![']', '('] + im.src@ + seq![')', '\n', '\n']
}

pub open spec fn images_md(ims: Seq<Image>) -> Seq<char>
    decreases ims.len(),
{
    if ims.len() == 0 {
        Seq::empty()
    } else {
        images_md(ims.drop_last()) + image_md(ims.last())
    }
}

/// The items of one list from index `i` on: numbered `1. `, `2. `, … when
/// ordered, bulleted `- ` otherwise, one line each.
pub open spec fn items_md(items: Seq<String>, ordered: bool, i: int) -> Seq<char>
    decreases items.len() - i when 0 <= i <= items.len()
{
    if i < items.len() {
        (if ordered {
            dec_of(i + 1) + seq!['.', ' ']
        } else {
            seq!['-', ' ']
        }) + items[i]@ + seq!['\n'] + items_md(items, ordered, i + 1)
    } else {
        Seq::empty()
    }
}

pub open spec fn list_md(l: List) -> Seq<char> {
    items_md(l.items@, l.ordered, 0) + seq!['\n']
}

pub open spec fn lists_md(ls: Seq<List>) -> Seq<char>
    decreases ls.len(),
{
    if ls.len() == 0 {
        Seq::empty()
    } else {
        lists_md(ls.drop_last()) + list_md(ls.last())
    }
}

pub open spec fn code_block_md(c: CodeBlock) -> Seq<char> {
    seq!['`', '`', '`'] + c.language@ + seq!['\n'] + c.code@ + seq!['\n', '`', '`', '`', '\n', '\n']
}

pub open spec fn code_blocks_md(cs: Seq<CodeBlock>) -> Seq<char>
    decreases cs.len(),
{
    if cs.len() == 0 {
        Seq::empty()
    } else {
        code_blocks_md(cs.drop_last()) + code_block_md(cs.last())
    }
}

/// One blockquote: each of its lines prefixed with `> `, the lines joined
/// with `\n`.
pub open spec fn quote_lines_md(lines: Seq<Seq<char>>, i: int) -> Seq<char>
    decreases lines.len() - i when 0 <= i <= lines.len()
{
    if i < lines.len() {
        seq!['>', ' '] + lines[i] + (if i + 1 < lines.len() {
            seq!['\n']
        } else {
            Seq::empty()
        }) + quote_lines_md(lines, i + 1)
    } else {
        Seq::empty()
    }
}

pub open spec fn quote_md(q: Seq<char>) -> Seq<char> {
    quote_lines_md(split_lines_spec(q), 0) + seq!['\n', '\n']
}

pub open spec fn quotes_md(qs: Seq<String>) -> Seq<char>
    decreases qs.len(),
{
    if qs.len() == 0 {
        Seq::empty()
    } else {
        quotes_md(qs.drop_last()) + quote_md(qs.last()@)
    }
}

/// The rendered document before cleanup: title as a top-level heading, then
/// headings, paragraphs, links, images, lists, code blocks and blockquotes.
pub open spec fn md_raw(d: Document) -> Seq<char> {
    seq!['#', ' '] + d.title@ + seq!['\n', '\n'] + headings_md(d.headings@) + paragraphs_md(
        d.paragraphs@,
    ) + links_md(d.links@) + images_md(d.images@) + lists_md(d.lists@) + code_blocks_md(
        d.code_blocks@,
    ) + quotes_md(d.blockquotes@)
}

/// The final rendering: runs of four and of three `\n` collapsed to blank
/// lines, surrounding whitespace trimmed.
pub open spec fn markdown_of(d: Document) -> Seq<char> {
    trim_spec(
        replace_all_spec(
            replace_all_spec(md_raw(d), seq!['\n', '\n', '\n', '\n'], seq!['\n', '\n']),
            seq!['\n', '\n', '\n'],
            seq!['\n', '\n'],
        ),
    )
}

// ---------------------------------------------------------------------------
// The executable renderer
// ---------------------------------------------------------------------------

/// Appends the characters of `s` to `out`.
pub(crate) fn append_str(out: &mut Vec<char>, s: &str)
    ensures
        final(out)@ == old(out)@ + s@,
{
    let mut v = str_to_chars(s);
    out.append(&mut v);
}

/// Appends `n` repetitions of `#` to `out`.
pub(crate) fn append_hashes(out: &mut Vec<char>, n: u8)
    ensures
        final(out)@ == old(out)@ + n_hashes(n as int),
{
    let mut k: u8 = 0;
    proof {
        assert(old(out)@ + n_hashes(0) =~= old(out)@);
    }
    while k < n
        invariant
            k <= n,
            out@ == old(out)@ + n_hashes(k as int),
        decreases n - k,
    {
        out.push('#');
        k += 1;
        proof {
            assert(old(out)@ + n_hashes(k - 1).push('#') =~= old(out)@ + n_hashes(k as int));
        }
    }
}

pub(crate) fn emit_headings(out: &mut Vec<char>, hs: &Vec<Heading>)
    ensures
        final(out)@ == old(out)@ + headings_md(hs@),
{
    let mut i: usize = 0;
    proof {
        assert(hs@.subrange(0, 0) =~= Seq::<Heading>::empty());
        assert(out@ + headings_md(hs@.subrange(0, 0)) =~= out@);
    }
    while i < hs.len()
        invariant
            i <= hs@.len(),
            out@ == old(out)@ + headings_md(hs@.subrange(0, i as int)),
        decreases hs@.len() - i,
    {
        let h = &hs[i];
        append_hashes(out, h.level);
        append_str(out, " ");
        append_str(out, h.text.as_str());
        append_str(out, "\n\n");
        i += 1;
        proof {
            let cur = hs@.subrange(0, i as int);
            assert(cur.drop_last() =~= hs@.subrange(0, i - 1));
            assert(cur.last() == hs@[i - 1]);
            reveal_strlit(" ");
            assert(" "@ =~= seq![' ']);
            reveal_strlit("\n\n");
            assert("\n\n"@ =~= seq!['\n', '\n']);
            assert(out@ =~= old(out)@ + headings_md(cur));
        }
    }
    proof {
        assert(hs@.subrange(0, hs@.len() as int) =~= hs@);
    }
}

pub(crate) fn emit_paragraphs(out: &mut Vec<char>, ps: &Vec<String>)
    ensures
        final(out)@ == old(out)@ + paragraphs_md(ps@),
{
    let mut i: usize = 0;
    proof {
        assert(ps@.subrange(0, 0) =~= Seq::<String>::empty());
        assert(out@ + paragraphs_md(ps@.subrange(0, 0)) =~= out@);
    }
    while i < ps.len()
        invariant
            i <= ps@.len(),
            out@ == old(out)@ + paragraphs_md(ps@.subrange(0, i as int)),
        decreases ps@.len() - i,
    {
        append_str(out, ps[i].as_str());
        append_str(out, "\n\n");
        i += 1;
        proof {
            let cur = ps@.subrange(0, i as int);
            assert(cur.drop_last() =~= ps@.subrange(0, i - 1));
            assert(cur.last() == ps@[i - 1]);
            reveal_strlit("\n\n");
            assert("\n\n"@ =~= seq!['\n', '\n']);
            assert(out@ =~= old(out)@ + paragraphs_md(cur));
        }
    }
    proof {
        assert(ps@.subrange(0, ps@.len() as int) =~= ps@);
    }
}

pub(crate) fn emit_links(out: &mut Vec<char>, ls: &Vec<Link>)
    ensures
        final(out)@ == old(out)@ + links_md(ls@),
{
    let mut i: usize = 0;
    proof {
        assert(ls@.subrange(0, 0) =~= Seq::<Link>::empty());
        assert(out@ + links_md(ls@.subrange(0, 0)) =~= out@);
    }
    while i < ls.len()
        invariant
            i <= ls@.len(),
            out@ == old(out)@ + links_md(ls@.subrange(0, i as int)),
        decreases ls@.len() - i,
    {
        let l = &ls[i];
        append_str(out, "[");
        append_str(out, l.text.as_str());
        append_str(out, "](");
        append_str(out, l.url.as_str());
        append_str(out, ")\n\n");
        i += 1;
        proof {
            let cur = ls@.subrange(0, i as int);
            assert(cur.drop_last() =~= ls@.subrange(0, i - 1));
            assert(cur.last() == ls@[i - 1]);
            reveal_strlit("[");
            assert("["@ =~= seq!['[']);
            reveal_strlit("](");
            assert("]("@ =~= seq![']', '(']);
            reveal_strlit(")\n\n");
            assert(")\n\n"@ =~= seq![')', '\n', '\n']);
            assert(out@ =~= old(out)@ + links_md(cur));
        }
    }
    proof {
        assert(ls@.subrange(0, ls@.len() as int) =~= ls@);
    }
}

pub(crate) fn emit_images(out: &mut Vec<char>, ims: &Vec<Image>)
    ensures
        final(out)@ == old(out)@ + images_md(ims@),
{
    let mut i: usize = 0;
    proof {
        assert(ims@.subrange(0, 0) =~= Seq::<Image>::empty());
        assert(out@ + images_md(ims@.subrange(0, 0)) =~= out@);
    }
    while i < ims.len()
        invariant
            i <= ims@.len(),
            out@ == old(out)@ + images_md(ims@.subrange(0, i as int)),
        decreases ims@.len() - i,
    {
        let im = &ims[i];
        append_str(out, "![");
        append_str(out, im.alt.as_str());
        append_str(out, "](");
        append_str(out, im.src.as_str());
        append_str(out, ")\n\n");
        i += 1;
        proof {
            let cur = ims@.subrange(0, i as int);
            assert(cur.drop_last() =~= ims@.subrange(0, i - 1));
            assert(cur.last() == ims@[i - 1]);
            reveal_strlit("![");
            assert("!["@ =~= seq!['!', '[']);
            reveal_strlit("](");
            assert("]("@ =~= seq![']', '(']);
            reveal_strlit(")\n\n");
            assert(")\n\n"@ =~= seq![')', '\n', '\n']);
            assert(out@ =~= old(out)@ + images_md(cur));
        }
    }
    proof {
        assert(ims@.subrange(0, ims@.len() as int) =~= ims@);
    }
}

/// Appends the lines of one list.
pub(crate) fn emit_items(out: &mut Vec<char>, items: &Vec<String>, ordered: bool)
    ensures
        final(out)@ == old(out)@ + items_md(items@, ordered, 0),
{
    let mut i: usize = 0;
    proof {
        assert(out@ + items_md(items@, ordered, 0) =~= out@ + items_md(items@, ordered, 0));
    }
    while i < items.len()
        invariant
            i <= items@.len(),
            out@ + items_md(items@, ordered, i as int) == old(out)@ + items_md(
                items@,
                ordered,
                0,
            ),
        decreases items@.len() - i,
    {
        let ghost pre = out@;
        if ordered {
            let mut num = dec_chars(i + 1);
            out.append(&mut num);
            append_str(out, ". ");
        } else {
            append_str(out, "- ");
        }
        append_str(out, items[i].as_str());
        append_str(out, "\n");
        i += 1;
        proof {
            reveal_strlit(". ");
            assert(". "@ =~= seq!['.', ' ']);
            reveal_strlit("- ");
            assert("- "@ =~= seq!['-', ' ']);
            reveal_strlit("\n");
            assert("\n"@ =~= seq!['\n']);
            assert(pre + (if ordered {
                dec_of(i as int) + seq!['.', ' ']
            } else {
                seq!['-', ' ']
            }) + items@[i - 1]@ + seq!['\n'] =~= out@);
            assert(pre + items_md(items@, ordered, i - 1) =~= out@ + items_md(
                items@,
                ordered,
                i as int,
            ));
        }
    }
}

pub(crate) fn emit_lists(out: &mut Vec<char>, ls: &Vec<List>)
    ensures
        final(out)@ == old(out)@ + lists_md(ls@),
{
    let mut i: usize = 0;
    proof {
        assert(ls@.subrange(0, 0) =~= Seq::<List>::empty());
        assert(out@ + lists_md(ls@.subrange(0, 0)) =~= out@);
    }
    while i < ls.len()
        invariant
            i <= ls@.len(),
            out@ == old(out)@ + lists_md(ls@.subrange(0, i as int)),
        decreases ls@.len() - i,
    {
        let l = &ls[i];
        emit_items(out, &l.items, l.ordered);
        append_str(out, "\n");
        i += 1;
        proof {
            let cur = ls@.subrange(0, i as int);
            assert(cur.drop_last() =~= ls@.subrange(0, i - 1));
            assert(cur.last() == ls@[i - 1]);
            reveal_strlit("\n");
            assert("\n"@ =~= seq!['\n']);
            assert(out@ =~= old(out)@ + lists_md(cur));
        }
    }
    proof {
        assert(ls@.subrange(0, ls@.len() as int) =~= ls@);
    }
}

pub(crate) fn emit_code_blocks(out: &mut Vec<char>, cs: &Vec<CodeBlock>)
    ensures
        final(out)@ == old(out)@ + code_blocks_md(cs@),
{
    let mut i: usize = 0;
    proof {
        assert(cs@.subrange(0, 0) =~= Seq::<CodeBlock>::empty());
        assert(out@ + code_blocks_md(cs@.subrange(0, 0)) =~= out@);
    }
    while i < cs.len()
        invariant
            i <= cs@.len(),
            out@ == old(out)@ + code_blocks_md(cs@.subrange(0, i as int)),
        decreases cs@.len() - i,
    {
        let c = &cs[i];
        append_str(out, "```");
        append_str(out, c.language.as_str());
        append_str(out, "\n");
        append_str(out, c.code.as_str());
        append_str(out, "\n```\n\n");
        i += 1;
        proof {
            let cur = cs@.subrange(0, i as int);
            assert(cur.drop_last() =~= cs@.subrange(0, i - 1));
            assert(cur.last() == cs@[i - 1]);
            reveal_strlit("```");
            assert("```"@ =~= seq!['`', '`', '`']);
            reveal_strlit("\n");
            assert("\n"@ =~= seq!['\n']);
            reveal_strlit("\n```\n\n");
            assert("\n```\n\n"@ =~= seq!['\n', '`', '`', '`', '\n', '\n']);
            assert(out@ =~= old(out)@ + code_blocks_md(cur));
        }
    }
    proof {
        assert(cs@.subrange(0, cs@.len() as int) =~= cs@);
    }
}

/// Appends one blockquote with every line `> `-prefixed.
pub(crate) fn emit_quote(out: &mut Vec<char>, q: &str)
    ensures
        final(out)@ == old(out)@ + quote_md(q@),
{
    let qv = str_to_chars(q);
    let lines = split_into_lines(&qv);
    let ghost glines = lines.deep_view();
    proof {
        assert(glines =~~= split_lines_spec(q@));
    }
    let mut i: usize = 0;
    while i < lines.len()
        invariant
            i <= lines@.len(),
            glines == lines.deep_view(),
            glines.len() == lines@.len(),
            out@ + quote_lines_md(glines, i as int) == old(out)@ + quote_lines_md(glines, 0),
        decreases lines@.len() - i,
    {
        let ghost pre = out@;
        append_str(out, "> ");
        let line = chars_to_string(&lines[i]);
        append_str(out, line.as_str());
        if i + 1 < lines.len() {
            append_str(out, "\n");
        }
        i += 1;
        proof {
            reveal_strlit("> ");
            assert("> "@ =~= seq!['>', ' ']);
            reveal_strlit("\n");
            assert("\n"@ =~= seq!['\n']);
            assert(lines@[i - 1]@ == glines[i - 1]);
            assert(pre + seq!['>', ' '] + glines[i - 1] + (if i < glines.len() {
                seq!['\n']
            } else {
                Seq::<char>::empty()
            }) =~= out@);
            assert(pre + quote_lines_md(glines, i - 1) =~= out@ + quote_lines_md(
                glines,
                i as int,
            ));
        }
    }
    append_str(out, "\n\n");
    proof {
        reveal_strlit("\n\n");
        assert("\n\n"@ =~= seq!['\n', '\n']);
        assert(old(out)@ + quote_md(q@) =~= out@);
    }
}

pub(crate) fn emit_quotes(out: &mut Vec<char>, qs: &Vec<String>)
    ensures
        final(out)@ == old(out)@ + quotes_md(qs@),
{
    let mut i: usize = 0;
    proof {
        assert(qs@.subrange(0, 0) =~= Seq::<String>::empty());
        assert(out@ + quotes_md(qs@.subrange(0, 0)) =~= out@);
    }
    while i < qs.len()
        invariant
            i <= qs@.len(),
            out@ == old(out)@ + quotes_md(qs@.subrange(0, i as int)),
        decreases qs@.len() - i,
    {
        emit_quote(out, qs[i].as_str());
        i += 1;
        proof {
            let cur = qs@.subrange(0, i as int);
            assert(cur.drop_last() =~= qs@.subrange(0, i - 1));
            assert(cur.last() == qs@[i - 1]);
            assert(out@ =~= old(out)@ + quotes_md(cur));
        }
    }
    proof {
        assert(qs@.subrange(0, qs@.len() as int) =~= qs@);
    }
}

/// Renders a document to Markdown: the title as a top-level heading, then
/// each section in order, runs of blank lines collapsed and the ends
/// trimmed.
pub fn document_to_markdown(document: &Document) -> (r: String)
    ensures
        r@ == markdown_of(*document),
{
    let mut out: Vec<char> = Vec::new();
    append_str(&mut out, "# ");
    append_str(&mut out, document.title.as_str());
    append_str(&mut out, "\n\n");
    emit_headings(&mut out, &document.headings);
    emit_paragraphs(&mut out, &document.paragraphs);
    emit_links(&mut out, &document.links);
    emit_images(&mut out, &document.images);
    emit_lists(&mut out, &document.lists);
    emit_code_blocks(&mut out, &document.code_blocks);
    emit_quotes(&mut out, &document.blockquotes);
    proof {
        reveal_strlit("# ");
        assert("# "@ =~= seq!['#', ' ']);
        reveal_strlit("\n\n");
        assert("\n\n"@ =~= seq!['\n', '\n']);
        assert(out@ =~= md_raw(*document));
    }
    let quad = str_to_chars("\n\n\n\n");
    let tri = str_to_chars("\n\n\n");
    let dbl = str_to_chars("\n\n");
    proof {
        reveal_strlit("\n\n\n\n");
        assert("\n\n\n\n"@ =~= seq!['\n', '\n', '\n', '\n']);
        reveal_strlit("\n\n\n");
        assert("\n\n\n"@ =~= seq!['\n', '\n', '\n']);
        reveal_strlit("\n\n");
        assert("\n\n"@ =~= seq!['\n', '\n']);
    }
    let pass1 = replace_all_chars(&out, &quad, &dbl);
    let pass2 = replace_all_chars(&pass1, &tri, &dbl);
    let trimmed = trim_chars(&pass2);
    chars_to_string(&trimmed)
}

// ---------------------------------------------------------------------------
// Extraction of the document model from HTML
// ---------------------------------------------------------------------------

/// The views of a vector of strings.
pub open spec fn views_of(v: Seq<String>) -> Seq<Seq<char>> {
    v.map_values(|s: String| s@)
}

/// The extracted texts trimmed, empty ones dropped.
pub open spec fn clean_texts(raw: Seq<Seq<char>>, i: int) -> Seq<Seq<char>>
    decreases raw.len() - i when 0 <= i <= raw.len()
{
    if i < raw.len() {
        let t = trim_spec(raw[i]);
        if t.len() > 0 {
            seq![t] + clean_texts(raw, i + 1)
        } else {
            clean_texts(raw, i + 1)
        }
    } else {
        Seq::empty()
    }
}

/// The extracted headings with trimmed text, empty ones dropped.
pub open spec fn clean_headings(raw: Seq<(u8, Seq<char>)>, i: int) -> Seq<(u8, Seq<char>)>
    decreases raw.len() - i when 0 <= i <= raw.len()
{
    if i < raw.len() {
        let t = trim_spec(raw[i].1);
        if t.len() > 0 {
            seq![(raw[i].0, t)] + clean_headings(raw, i + 1)
        } else {
            clean_headings(raw, i + 1)
        }
    } else {
        Seq::empty()
    }
}

/// The reference starts with an explicit `http://` or `https://` scheme.
pub open spec fn starts_http(s: Seq<char>) -> bool {
    (s.len() >= 7 && s.subrange(0, 7) == "http://"@) || (s.len() >= 8 && s.subrange(0, 8)
        == "https://"@)
}

/// A reference resolved against the base URL. The strict mode falls back to
/// the reference itself and then to the normalized base; the lenient mode
/// keeps an explicitly absolute reference untouched and falls back to the
/// raw reference.
pub open spec fn resolve_spec(base: Seq<char>, href: Seq<char>, lenient: bool) -> Seq<char> {
    if lenient {
        if starts_http(href) {
            href
        } else {
            match crate::dom::joined_url(base, href) {
                Option::Some(u) => u,
                Option::None => href,
            }
        }
    } else {
        match crate::dom::joined_url(base, href) {
            Option::Some(u) => u,
            Option::None => match crate::dom::parsed_url(href) {
                Option::Some(u) => u,
                Option::None => crate::dom::parsed_url(base)->Some_0,
            },
        }
    }
}

/// The extracted anchors as `(text, url)` pairs: text trimmed, anchors with
/// empty text dropped, references resolved.
pub open spec fn clean_links(
    raw: Seq<(Seq<char>, Seq<char>)>,
    base: Seq<char>,
    lenient: bool,
    i: int,
) -> Seq<(Seq<char>, Seq<char>)>
    decreases raw.len() - i when 0 <= i <= raw.len()
{
    if i < raw.len() {
        let t = trim_spec(raw[i].1);
        if t.len() > 0 {
            seq![(t, resolve_spec(base, raw[i].0, lenient))] + clean_links(raw, base, lenient, i + 1)
        } else {
            clean_links(raw, base, lenient, i + 1)
        }
    } else {
        Seq::empty()
    }
}

/// The extracted images as `(alt, src)` pairs: a missing alt text becomes
/// `image`, sources resolved.
pub open spec fn clean_images(
    raw: Seq<(Seq<char>, Option<Seq<char>>)>,
    base: Seq<char>,
    lenient: bool,
    i: int,
) -> Seq<(Seq<char>, Seq<char>)>
    decreases raw.len() - i when 0 <= i <= raw.len()
{
    if i < raw.len() {
        let alt = match raw[i].1 {
            Option::Some(a) => a,
            Option::None => "image"@,
        };
        seq![(alt, resolve_spec(base, raw[i].0, lenient))] + clean_images(raw, base, lenient, i + 1)
    } else {
        Seq::empty()
    }
}

/// The extracted lists: items trimmed and filtered, lists left without items
/// dropped.
pub open spec fn clean_lists(raw: Seq<Seq<Seq<char>>>, ordered: bool, i: int) -> Seq<
    (bool, Seq<Seq<char>>),
>
    decreases raw.len() - i when 0 <= i <= raw.len()
{
    if i < raw.len() {
        let items = clean_texts(raw[i], 0);
        if items.len() > 0 {
            seq![(ordered, items)] + clean_lists(raw, ordered, i + 1)
        } else {
            clean_lists(raw, ordered, i + 1)
        }
    } else {
        Seq::empty()
    }
}

/// The language of a code element: the tail of its first `language-` class.
pub open spec fn lang_of(classes: Seq<Seq<char>>, i: int) -> Seq<char>
    decreases classes.len() - i when 0 <= i <= classes.len()
{
    if i < classes.len() {
        if classes[i].len() >= 9 && classes[i].subrange(0, 9) == "language-"@ {
            classes[i].subrange(9, classes[i].len() as int)
        } else {
            lang_of(classes, i + 1)
        }
    } else {
        Seq::empty()
    }
}

/// The extracted code blocks as `(language, code)` pairs: code trimmed,
/// empty blocks dropped.
pub open spec fn clean_code(raw: Seq<(Seq<Seq<char>>, Seq<char>)>, i: int) -> Seq<
    (Seq<char>, Seq<char>),
>
    decreases raw.len() - i when 0 <= i <= raw.len()
{
    if i < raw.len() {
        let t = trim_spec(raw[i].1);
        if t.len() > 0 {
            seq![(lang_of(raw[i].0, 0), t)] + clean_code(raw, i + 1)
        } else {
            clean_code(raw, i + 1)
        }
    } else {
        Seq::empty()
    }
}

/// The document title: the trimmed `title` text, `No Title` if none.
pub open spec fn title_spec(html: Seq<char>) -> Seq<char> {
    match crate::dom::title_of(html) {
        Option::Some(t) => trim_spec(t),
        Option::None => "No Title"@,
    }
}

pub open spec fn headings_match(v: Seq<Heading>, s: Seq<(u8, Seq<char>)>) -> bool {
    v.map_values(|h: Heading| (h.level, h.text@)) == s
}

pub open spec fn links_match(v: Seq<Link>, s: Seq<(Seq<char>, Seq<char>)>) -> bool {
    v.map_values(|l: Link| (l.text@, l.url@)) == s
}

pub open spec fn images_match(v: Seq<Image>, s: Seq<(Seq<char>, Seq<char>)>) -> bool {
    v.map_values(|im: Image| (im.alt@, im.src@)) == s
}

pub open spec fn lists_match(v: Seq<List>, s: Seq<(bool, Seq<Seq<char>>)>) -> bool {
    v.map_values(|l: List| (l.ordered, views_of(l.items@))) == s
}

pub open spec fn codes_match(v: Seq<CodeBlock>, s: Seq<(Seq<char>, Seq<char>)>) -> bool {
    v.map_values(|c: CodeBlock| (c.language@, c.code@)) == s
}

/// The document `d` holds exactly what the extraction rules produce from
/// `html` under base URL `base`, with strict (`lenient == false`) or lenient
/// URL resolution and the matching code-block selector.
pub open spec fn doc_matches(d: Document, html: Seq<char>, base: Seq<char>, lenient: bool) -> bool {
    &&& d.title@ == title_spec(html)
    &&& d.base_url@ == base
    &&& headings_match(d.headings@, clean_headings(crate::dom::headings_of(html), 0))
    &&& views_of(d.paragraphs@) == clean_texts(crate::dom::texts_of(html, "p"@), 0)
    &&& links_match(d.links@, clean_links(crate::dom::anchors_of(html), base, lenient, 0))
    &&& images_match(d.images@, clean_images(crate::dom::images_of(html), base, lenient, 0))
    &&& lists_match(
        d.lists@,
        clean_lists(crate::dom::lists_of(html, false), false, 0) + clean_lists(
            crate::dom::lists_of(html, true),
            true,
            0,
        ),
    )
    &&& codes_match(d.code_blocks@, clean_code(crate::dom::code_blocks_of(html, lenient), 0))
    &&& views_of(d.blockquotes@) == clean_texts(crate::dom::texts_of(html, "blockquote"@), 0)
}

/// Trims a string into a character vector.
pub(crate) fn trimmed_chars(s: &str) -> (r: Vec<char>)
    ensures
        r@ == trim_spec(s@),
{
    let v = str_to_chars(s);
    trim_chars(&v)
}

/// Resolves a reference against the base URL; see [`resolve_spec`].
pub(crate) fn resolve_reference(base_url: &str, href: &str, lenient: bool) -> (r: String)
    requires
        !lenient ==> (crate::dom::parsed_url(base_url@) is Some),
    ensures
        r@ == resolve_spec(base_url@, href@, lenient),
{
    if lenient {
        let hv = str_to_chars(href);
        let is_http = starts_with_str(&hv, "http://") || starts_with_str(&hv, "https://");
        proof {
            reveal_strlit("http://");
            reveal_strlit("https://");
            assert(is_http == starts_http(href@));
        }
        if is_http {
            return String::from_str(href);
        }
        match crate::dom::join_url(base_url, href) {
            Some(u) => u,
            None => String::from_str(href),
        }
    } else {
        match crate::dom::join_url(base_url, href) {
            Some(u) => u,
            None => match crate::dom::parse_url_normalized(href) {
                Some(u) => u,
                None => {
                    match crate::dom::parse_url_normalized(base_url) {
                        Some(u) => u,
                        None => {
                            proof {
                                assert(false);
                            }
                            String::new()
                        },
                    }
                },
            },
        }
    }
}

/// Decides whether `v` starts with the characters of `p`.
pub(crate) fn starts_with_str(v: &Vec<char>, p: &str) -> (r: bool)
    ensures
        r == (v@.len() >= p@.len() && v@.subrange(0, p@.len() as int) == p@),
{
    let pv = str_to_chars(p);
    if pv.len() > v.len() {
        return false;
    }
    let mut i: usize = 0;
    while i < pv.len()
        invariant
            i <= pv@.len(),
            pv@.len() <= v@.len(),
            pv@ == p@,
            forall|k: int| 0 <= k < i ==> v@[k] == p@[k],
        decreases pv@.len() - i,
    {
        if v[i] != pv[i] {
            proof {
                if v@.subrange(0, p@.len() as int) == p@ {
                    assert(v@.subrange(0, p@.len() as int)[i as int] == p@[i as int]);
                    assert(false);
                }
            }
            return false;
        }
        i += 1;
    }
    proof {
        assert(v@.subrange(0, p@.len() as int) =~= p@);
    }
    true
}

/// Extracts the document title.
pub(crate) fn extract_document_title(html: &str) -> (r: String)
    ensures
        r@ == title_spec(html@),
{
    match crate::dom::html_title(html) {
        Some(t) => {
            let tv = trimmed_chars(t.as_str());
            chars_to_string(&tv)
        },
        None => String::from_str("No Title"),
    }
}

/// The empty document carrying title and base URL.
pub(crate) fn create_document_structure(title: &str, base_url: &str) -> (d: Document)
    ensures
        d.title@ == title@,
        d.base_url@ == base_url@,
        d.headings@.len() == 0,
        d.paragraphs@.len() == 0,
        d.links@.len() == 0,
        d.images@.len() == 0,
        d.lists@.len() == 0,
        d.code_blocks@.len() == 0,
        d.blockquotes@.len() == 0,
{
    Document {
        title: String::from_str(title),
        base_url: String::from_str(base_url),
        headings: Vec::new(),
        paragraphs: Vec::new(),
        links: Vec::new(),
        images: Vec::new(),
        lists: Vec::new(),
        code_blocks: Vec::new(),
        blockquotes: Vec::new(),
    }
}

/// Trims and filters a vector of extracted texts.
fn clean_text_vec(raw: &Vec<String>, Ghost(sraw): Ghost<Seq<Seq<char>>>) -> (r: Vec<String>)
    requires
        raw@.len() == sraw.len(),
        forall|i: int| 0 <= i < raw@.len() ==> (#[trigger] raw@[i])@ == sraw[i],
    ensures
        views_of(r@) == clean_texts(sraw, 0),
{
    let mut out: Vec<String> = Vec::new();
    let mut i: usize = 0;
    proof {
        assert(views_of(out@) + clean_texts(sraw, 0) =~= clean_texts(sraw, 0));
    }
    while i < raw.len()
        invariant
            i <= raw@.len(),
            raw@.len() == sraw.len(),
            forall|k: int| 0 <= k < raw@.len() ==> (#[trigger] raw@[k])@ == sraw[k],
            views_of(out@) + clean_texts(sraw, i as int) == clean_texts(sraw, 0),
        decreases raw@.len() - i,
    {
        let ghost pre = views_of(out@);
        let t = trimmed_chars(raw[i].as_str());
        if t.len() > 0 {
            out.push(chars_to_string(&t));
            proof {
                assert(views_of(out@) =~= pre.push(t@));
            }
        }
        i += 1;
        proof {
            assert(views_of(out@) + clean_texts(sraw, i as int) =~= clean_texts(sraw, 0));
        }
    }
    out
}

/// Collects the document's headings.
fn process_headings(document: &mut Document, html: &str)
    ensures
        headings_match(
            final(document).headings@,
            clean_headings(crate::dom::headings_of(html@), 0),
        ),
        *final(document) == (Document { headings: final(document).headings, ..*old(document) }),
{
    let raw = crate::dom::html_headings(html);
    let ghost sraw = crate::dom::headings_of(html@);
    let mut out: Vec<Heading> = Vec::new();
    let mut i: usize = 0;
    proof {
        assert(out@.map_values(|h: Heading| (h.level, h.text@)) + clean_headings(sraw, 0)
            =~= clean_headings(sraw, 0));
    }
    while i < raw.len()
        invariant
            i <= raw@.len(),
            raw@.len() == sraw.len(),
            forall|k: int|
                0 <= k < raw@.len() ==> (#[trigger] raw@[k]).0 == sraw[k].0 && raw@[k].1@
                    == sraw[k].1,
            out@.map_values(|h: Heading| (h.level, h.text@)) + clean_headings(sraw, i as int)
                == clean_headings(sraw, 0),
        decreases raw@.len() - i,
    {
        let ghost pre = out@.map_values(|h: Heading| (h.level, h.text@));
        let p = &raw[i];
        let t = trimmed_chars(p.1.as_str());
        if t.len() > 0 {
            out.push(Heading { level: p.0, text: chars_to_string(&t) });
            proof {
                assert(out@.map_values(|h: Heading| (h.level, h.text@)) =~= pre.push(
                    (raw@[i as int].0, t@),
                ));
            }
        }
        i += 1;
        proof {
            assert(out@.map_values(|h: Heading| (h.level, h.text@)) + clean_headings(
                sraw,
                i as int,
            ) =~= clean_headings(sraw, 0));
        }
    }
    document.headings = out;
}

/// Collects the document's paragraphs.
fn process_paragraphs(document: &mut Document, html: &str)
    ensures
        views_of(final(document).paragraphs@) == clean_texts(
            crate::dom::texts_of(html@, "p"@),
            0,
        ),
        *final(document) == (Document { paragraphs: final(document).paragraphs, ..*old(document) }),
{
    let raw = crate::dom::html_texts(html, "p");
    let out = clean_text_vec(&raw, Ghost(crate::dom::texts_of(html@, "p"@)));
    document.paragraphs = out;
}

/// Collects the document's links.
fn process_links(document: &mut Document, html: &str, base_url: &str, lenient: bool)
    requires
        !lenient ==> (crate::dom::parsed_url(base_url@) is Some),
    ensures
        links_match(
            final(document).links@,
            clean_links(crate::dom::anchors_of(html@), base_url@, lenient, 0),
        ),
        *final(document) == (Document { links: final(document).links, ..*old(document) }),
{
    let raw = crate::dom::html_anchors(html);
    let ghost sraw = crate::dom::anchors_of(html@);
    let mut out: Vec<Link> = Vec::new();
    let mut i: usize = 0;
    proof {
        assert(out@.map_values(|l: Link| (l.text@, l.url@)) + clean_links(
            sraw,
            base_url@,
            lenient,
            0,
        ) =~= clean_links(sraw, base_url@, lenient, 0));
    }
    while i < raw.len()
        invariant
            i <= raw@.len(),
            raw@.len() == sraw.len(),
            !lenient ==> (crate::dom::parsed_url(base_url@) is Some),
            forall|k: int|
                0 <= k < raw@.len() ==> (#[trigger] raw@[k]).0@ == sraw[k].0 && raw@[k].1@
                    == sraw[k].1,
            out@.map_values(|l: Link| (l.text@, l.url@)) + clean_links(
                sraw,
                base_url@,
                lenient,
                i as int,
            ) == clean_links(sraw, base_url@, lenient, 0),
        decreases raw@.len() - i,
    {
        let ghost pre = out@.map_values(|l: Link| (l.text@, l.url@));
        let p = &raw[i];
        let t = trimmed_chars(p.1.as_str());
        if t.len() > 0 {
            let url = resolve_reference(base_url, p.0.as_str(), lenient);
            out.push(Link { text: chars_to_string(&t), url });
            proof {
                assert(out@.map_values(|l: Link| (l.text@, l.url@)) =~= pre.push(
                    (t@, resolve_spec(base_url@, sraw[i as int].0, lenient)),
                ));
            }
        }
        i += 1;
        proof {
            assert(out@.map_values(|l: Link| (l.text@, l.url@)) + clean_links(
                sraw,
                base_url@,
                lenient,
                i as int,
            ) =~= clean_links(sraw, base_url@, lenient, 0));
        }
    }
    document.links = out;
}

/// Collects the document's images.
fn process_images(document: &mut Document, html: &str, base_url: &str, lenient: bool)
    requires
        !lenient ==> (crate::dom::parsed_url(base_url@) is Some),
    ensures
        images_match(
            final(document).images@,
            clean_images(crate::dom::images_of(html@), base_url@, lenient, 0),
        ),
        *final(document) == (Document { images: final(document).images, ..*old(document) }),
{
    let raw = crate::dom::html_images(html);
    let ghost sraw = crate::dom::images_of(html@);
    let mut out: Vec<Image> = Vec::new();
    let mut i: usize = 0;
    proof {
        assert(out@.map_values(|im: Image| (im.alt@, im.src@)) + clean_images(
            sraw,
            base_url@,
            lenient,
            0,
        ) =~= clean_images(sraw, base_url@, lenient, 0));
    }
    while i < raw.len()
        invariant
            i <= raw@.len(),
            raw@.len() == sraw.len(),
            !lenient ==> (crate::dom::parsed_url(base_url@) is Some),
            forall|k: int|
                0 <= k < raw@.len() ==> (#[trigger] raw@[k]).0@ == sraw[k].0 && (match raw@[k].1 {
                    Some(a) => sraw[k].1 == Some(a@),
                    None => sraw[k].1 is None,
                }),
            out@.map_values(|im: Image| (im.alt@, im.src@)) + clean_images(
                sraw,
                base_url@,
                lenient,
                i as int,
            ) == clean_images(sraw, base_url@, lenient, 0),
        decreases raw@.len() - i,
    {
        let ghost pre = out@.map_values(|im: Image| (im.alt@, im.src@));
        let p = &raw[i];
        let alt = match &p.1 {
            Some(a) => a.clone(),
            None => String::from_str("image"),
        };
        let src = resolve_reference(base_url, p.0.as_str(), lenient);
        out.push(Image { alt, src });
        i += 1;
        proof {
            assert(out@.map_values(|im: Image| (im.alt@, im.src@)) =~= pre.push(
                (
                    match sraw[i - 1].1 {
                        Some(a) => a,
                        None => "image"@,
                    },
                    resolve_spec(base_url@, sraw[i - 1].0, lenient),
                ),
            ));
            assert(out@.map_values(|im: Image| (im.alt@, im.src@)) + clean_images(
                sraw,
                base_url@,
                lenient,
                i as int,
            ) =~= clean_images(sraw, base_url@, lenient, 0));
        }
    }
    document.images = out;
}

/// Collects the lists of one ordering kind, appending to the document.
fn process_lists_of(document: &mut Document, html: &str, ordered: bool)
    ensures
        final(document).lists@.map_values(|l: List| (l.ordered, views_of(l.items@))) == old(
            document,
        ).lists@.map_values(|l: List| (l.ordered, views_of(l.items@))) + clean_lists(
            crate::dom::lists_of(html@, ordered),
            ordered,
            0,
        ),
        *final(document) == (Document { lists: final(document).lists, ..*old(document) }),
{
    let raw = crate::dom::html_lists(html, ordered);
    let ghost sraw = crate::dom::lists_of(html@, ordered);
    let ghost base = old(document).lists@.map_values(
        |l: List| (l.ordered, views_of(l.items@)),
    );
    let mut i: usize = 0;
    proof {
        assert(base + clean_lists(sraw, ordered, 0) =~= base + clean_lists(sraw, ordered, 0));
    }
    while i < raw.len()
        invariant
            i <= raw@.len(),
            raw@.len() == sraw.len(),
            forall|k: int| 0 <= k < raw@.len() ==> (#[trigger] raw@[k])@.len() == sraw[k].len(),
            forall|k: int, j: int|
                0 <= k < raw@.len() && 0 <= j < (#[trigger] raw@[k])@.len()
                    ==> ((#[trigger] raw@[k]@[j])@ == sraw[k][j]),
            document.lists@.map_values(|l: List| (l.ordered, views_of(l.items@))) + clean_lists(
                sraw,
                ordered,
                i as int,
            ) == base + clean_lists(sraw, ordered, 0),
            *document == (Document { lists: document.lists, ..*old(document) }),
        decreases raw@.len() - i,
    {
        let ghost pre = document.lists@.map_values(|l: List| (l.ordered, views_of(l.items@)));
        let lst = &raw[i];
        let ghost srow = sraw[i as int];
        proof {
            assert forall|j: int| 0 <= j < lst@.len() implies (#[trigger] lst@[j])@ == srow[j] by {
                assert(raw@[i as int]@[j] == lst@[j]);
            }
            if lst@.len() > 0 {
                assert(lst@.len() == srow.len());
            }
        }
        let items = clean_text_vec(lst, Ghost(srow));
        if items.len() > 0 {
            document.lists.push(List { ordered, items });
            proof {
                assert(document.lists@.map_values(|l: List| (l.ordered, views_of(l.items@)))
                    =~= pre.push((ordered, clean_texts(sraw[i as int], 0))));
            }
        }
        i += 1;
        proof {
            assert(document.lists@.map_values(|l: List| (l.ordered, views_of(l.items@)))
                + clean_lists(sraw, ordered, i as int) =~= base + clean_lists(sraw, ordered, 0));
        }
    }
}

/// Collects the document's lists: unordered first, then ordered.
fn process_lists(document: &mut Document, html: &str)
    requires
        old(document).lists@.len() == 0,
    ensures
        lists_match(
            final(document).lists@,
            clean_lists(crate::dom::lists_of(html@, false), false, 0) + clean_lists(
                crate::dom::lists_of(html@, true),
                true,
                0,
            ),
        ),
        *final(document) == (Document { lists: final(document).lists, ..*old(document) }),
{
    proof {
        assert(old(document).lists@.map_values(|l: List| (l.ordered, views_of(l.items@)))
            =~= Seq::<(bool, Seq<Seq<char>>)>::empty());
    }
    process_lists_of(document, html, false);
    process_lists_of(document, html, true);
    proof {
        assert(Seq::<(bool, Seq<Seq<char>>)>::empty() + clean_lists(
            crate::dom::lists_of(html@, false),
            false,
            0,
        ) =~= clean_lists(crate::dom::lists_of(html@, false), false, 0));
    }
}

/// Collects the document's code blocks.
fn process_code_blocks(document: &mut Document, html: &str, nested_only: bool)
    ensures
        codes_match(
            final(document).code_blocks@,
            clean_code(crate::dom::code_blocks_of(html@, nested_only), 0),
        ),
        *final(document) == (Document {
            code_blocks: final(document).code_blocks,
            ..*old(document)
        }),
{
    let raw = crate::dom::html_code_blocks(html, nested_only);
    let ghost sraw = crate::dom::code_blocks_of(html@, nested_only);
    let mut out: Vec<CodeBlock> = Vec::new();
    let mut i: usize = 0;
    proof {
        assert(out@.map_values(|c: CodeBlock| (c.language@, c.code@)) + clean_code(sraw, 0)
            =~= clean_code(sraw, 0));
    }
    while i < raw.len()
        invariant
            i <= raw@.len(),
            raw@.len() == sraw.len(),
            forall|k: int| 0 <= k < raw@.len() ==> (#[trigger] raw@[k]).0@.len() == sraw[k].0.len(),
            forall|k: int, j: int|
                0 <= k < raw@.len() && 0 <= j < (#[trigger] raw@[k]).0@.len()
                    ==> ((#[trigger] raw@[k].0@[j])@ == sraw[k].0[j]),
            forall|k: int| 0 <= k < raw@.len() ==> (#[trigger] raw@[k]).1@ == sraw[k].1,
            out@.map_values(|c: CodeBlock| (c.language@, c.code@)) + clean_code(sraw, i as int)
                == clean_code(sraw, 0),
        decreases raw@.len() - i,
    {
        let ghost pre = out@.map_values(|c: CodeBlock| (c.language@, c.code@));
        let p = &raw[i];
        let t = trimmed_chars(p.1.as_str());
        if t.len() > 0 {
            let language = find_language(&p.0, Ghost(sraw[i as int].0));
            out.push(CodeBlock { language, code: chars_to_string(&t) });
            proof {
                assert(out@.map_values(|c: CodeBlock| (c.language@, c.code@)) =~= pre.push(
                    (lang_of(sraw[i as int].0, 0), t@),
                ));
            }
        }
        i += 1;
        proof {
            assert(out@.map_values(|c: CodeBlock| (c.language@, c.code@)) + clean_code(
                sraw,
                i as int,
            ) =~= clean_code(sraw, 0));
        }
    }
    document.code_blocks = out;
}

/// Picks the language out of a code element's class list.
fn find_language(classes: &Vec<String>, Ghost(sclasses): Ghost<Seq<Seq<char>>>) -> (r: String)
    requires
        classes@.len() == sclasses.len(),
        forall|i: int| 0 <= i < classes@.len() ==> (#[trigger] classes@[i])@ == sclasses[i],
    ensures
        r@ == lang_of(sclasses, 0),
{
    let mut i: usize = 0;
    while i < classes.len()
        invariant
            i <= classes@.len(),
            classes@.len() == sclasses.len(),
            forall|k: int| 0 <= k < classes@.len() ==> (#[trigger] classes@[k])@ == sclasses[k],
            lang_of(sclasses, 0) == lang_of(sclasses, i as int),
        decreases classes@.len() - i,
    {
        let cv = str_to_chars(classes[i].as_str());
        if starts_with_str(&cv, "language-") {
            proof {
                reveal_strlit("language-");
            }
            let tail = subvec(&cv, 9, cv.len());
            return chars_to_string(&tail);
        }
        proof {
            reveal_strlit("language-");
        }
        i += 1;
    }
    String::new()
}

/// Collects the document's blockquotes.
fn process_blockquotes(document: &mut Document, html: &str)
    ensures
        views_of(final(document).blockquotes@) == clean_texts(
            crate::dom::texts_of(html@, "blockquote"@),
            0,
        ),
        *final(document) == (Document {
            blockquotes: final(document).blockquotes,
            ..*old(document)
        }),
{
    let raw = crate::dom::html_texts(html, "blockquote");
    let out = clean_text_vec(&raw, Ghost(crate::dom::texts_of(html@, "blockquote"@)));
    document.blockquotes = out;
}

/// Fills every content section of the document.
pub(crate) fn populate_document_content(document: &mut Document, html: &str, base_url: &str, lenient: bool)
    requires
        !lenient ==> (crate::dom::parsed_url(base_url@) is Some),
        old(document).lists@.len() == 0,
    ensures
        final(document).title == old(document).title,
        final(document).base_url == old(document).base_url,
        headings_match(
            final(document).headings@,
            clean_headings(crate::dom::headings_of(html@), 0),
        ),
        views_of(final(document).paragraphs@) == clean_texts(
            crate::dom::texts_of(html@, "p"@),
            0,
        ),
        links_match(
            final(document).links@,
            clean_links(crate::dom::anchors_of(html@), base_url@, lenient, 0),
        ),
        images_match(
            final(document).images@,
            clean_images(crate::dom::images_of(html@), base_url@, lenient, 0),
        ),
        lists_match(
            final(document).lists@,
            clean_lists(crate::dom::lists_of(html@, false), false, 0) + clean_lists(
                crate::dom::lists_of(html@, true),
                true,
                0,
            ),
        ),
        codes_match(
            final(document).code_blocks@,
            clean_code(crate::dom::code_blocks_of(html@, lenient), 0),
        ),
        views_of(final(document).blockquotes@) == clean_texts(
            crate::dom::texts_of(html@, "blockquote"@),
            0,
        ),
{
    process_headings(document, html);
    process_paragraphs(document, html);
    process_links(document, html, base_url, lenient);
    process_images(document, html, base_url, lenient);
    process_lists(document, html);
    process_code_blocks(document, html, lenient);
    process_blockquotes(document, html);
}

/// Parses HTML into the document model under the given base URL, with
/// strict URL resolution and the broad code-block selector. Fails exactly
/// when the base URL does not parse.
pub fn parse_html_to_document(html: &str, base_url_str: &str) -> (r: Result<
    Document,
    MarkdownError,
>)
    ensures
        r is Ok <==> (crate::dom::parsed_url(base_url_str@) is Some),
        r is Ok ==> doc_matches(r->Ok_0, html@, base_url_str@, false),
        r is Err ==> r->Err_0 is UrlError,
{
    match crate::dom::parse_url_normalized(base_url_str) {
        None => {
            return Err(MarkdownError::UrlError(String::from_str("relative URL without a base")));
        },
        Some(_) => {},
    }
    let title = extract_document_title(html);
    let mut document = create_document_structure(title.as_str(), base_url_str);
    populate_document_content(&mut document, html, base_url_str, false);
    Ok(document)
}

/// Converts HTML to Markdown: parse into the document model, then render.
pub fn convert_to_markdown(html: &str, base_url: &str) -> (r: Result<String, MarkdownError>)
    ensures
        r is Ok <==> (crate::dom::parsed_url(base_url@) is Some),
        r is Ok ==> exists|d: Document|
            #[trigger] doc_matches(d, html@, base_url@, false) && r->Ok_0@ == markdown_of(d),
        r is Err ==> r->Err_0 is UrlError,
{
    let document = match parse_html_to_document(html, base_url) {
        Ok(d) => d,
        Err(e) => {
            return Err(e);
        },
    };
    let md = document_to_markdown(&document);
    proof {
        assert(doc_matches(document, html@, base_url@, false) && md@ == markdown_of(document));
    }
    Ok(md)
}

} // verus!
