//! The allocation-conscious conversion path: the same extraction rules with
//! lenient URL resolution and the nested code-block selector, and a renderer
//! that lays the sections out with gathered link and image sections.

use vstd::prelude::*;

use crate::markdown_converter::{
    append_str, create_document_structure, doc_matches, emit_headings, emit_images, emit_lists,
    emit_paragraphs, extract_document_title, headings_md, images_md, lists_md, paragraphs_md,
    populate_document_content, CodeBlock, Document, Image, Link, MarkdownError,
};
use crate::text::chars_to_string;

verus! {

// ---------------------------------------------------------------------------
// The buffer-reusing renderer
// ---------------------------------------------------------------------------

/// Title line of the buffer-reusing renderer: present only when the title is
/// neither empty nor the extraction fallback.
pub open spec fn title_opt_md(title: Seq<char>) -> Seq<char> {
    if title.len() > 0 && title != "No Title"@ {
        seq!['#', ' '] + title + seq!['\n', '\n']
    } else {
        Seq::empty()
    }
}

/// A code block fence that adds a closing newline only when the code lacks
/// one.
pub open spec fn code_block_opt_md(c: CodeBlock) -> Seq<char> {
    seq!['`', '`', '`'] + c.language@ + seq!['\n'] + c.code@ + (if c.code@.len() > 0
        && c.code@.last() == '\n' {
        Seq::empty()
    } else {
        seq!['\n']
    }) + seq!['`', '`', '`', '\n', '\n']
}

pub open spec fn code_blocks_opt_md(cs: Seq<CodeBlock>) -> Seq<char>
    decreases cs.len(),
{
    if cs.len() == 0 {
        Seq::empty()
    } else {
        code_blocks_opt_md(cs.drop_last()) + code_block_opt_md(cs.last())
    }
}

/// A blockquote as one `> `-prefixed paragraph.
pub open spec fn quotes_opt_md(qs: Seq<String>) -> Seq<char>
    decreases qs.len(),
{
    if qs.len() == 0 {
        Seq::empty()
    } else {
        quotes_opt_md(qs.drop_last()) + seq!['>', ' '] + qs.last()@ + seq!['\n', '\n']
    }
}

pub open spec fn link_item_md(l: Link) -> Seq<char> {
    seq!['-', ' ', '['] + l.text@ + seq![']', '('] + l.url@ + seq![')', '\n']
}

pub open spec fn link_items_md(ls: Seq<Link>) -> Seq<char>
    decreases ls.len(),
{
    if ls.len() == 0 {
        Seq::empty()
    } else {
        link_items_md(ls.drop_last()) + link_item_md(ls.last())
    }
}

/// The `## Links` section, present only when the document holds links.
pub open spec fn links_section_md(ls: Seq<Link>) -> Seq<char> {
    if ls.len() == 0 {
        Seq::empty()
    } else {
        "## Links\n\n"@ + link_items_md(ls) + seq!['\n']
    }
}

/// The `## Images` section, present only when the document holds images.
pub open spec fn images_section_md(ims: Seq<Image>) -> Seq<char> {
    if ims.len() == 0 {
        Seq::empty()
    } else {
        "## Images\n\n"@ + images_md(ims)
    }
}

/// The buffer-reusing renderer's output: a conditional title, the sections
/// in its order — lists before code blocks, links and images gathered into
/// trailing sections — and no blank-line cleanup.
pub open spec fn markdown_opt_of(d: Document) -> Seq<char> {
    title_opt_md(d.title@) + headings_md(d.headings@) + paragraphs_md(d.paragraphs@) + lists_md(
        d.lists@,
    ) + code_blocks_opt_md(d.code_blocks@) + quotes_opt_md(d.blockquotes@) + links_section_md(
        d.links@,
    ) + images_section_md(d.images@)
}

fn emit_code_blocks_opt(out: &mut Vec<char>, cs: &Vec<CodeBlock>)
    ensures
        final(out)@ == old(out)@ + code_blocks_opt_md(cs@),
{
    let mut i: usize = 0;
    proof {
        assert(cs@.subrange(0, 0) =~= Seq::<CodeBlock>::empty());
        assert(out@ + code_blocks_opt_md(cs@.subrange(0, 0)) =~= out@);
    }
    while i < cs.len()
        invariant
            i <= cs@.len(),
            out@ == old(out)@ + code_blocks_opt_md(cs@.subrange(0, i as int)),
        decreases cs@.len() - i,
    {
        let c = &cs[i];
        append_str(out, "```");
        append_str(out, c.language.as_str());
        append_str(out, "\n");
        append_str(out, c.code.as_str());
        let clen = c.code.as_str().unicode_len();
        let ends_nl = clen > 0 && c.code.as_str().get_char(clen - 1) == '\n';
        if !ends_nl {
            append_str(out, "\n");
        }
        append_str(out, "```\n\n");
        i += 1;
        proof {
            let cur = cs@.subrange(0, i as int);
            assert(cur.drop_last() =~= cs@.subrange(0, i - 1));
            assert(cur.last() == cs@[i - 1]);
            reveal_strlit("```");
            assert("```"@ =~= seq!['`', '`', '`']);
            reveal_strlit("\n");
            assert("\n"@ =~= seq!['\n']);
            reveal_strlit("```\n\n");
            assert("```\n\n"@ =~= seq!['`', '`', '`', '\n', '\n']);
            assert(out@ =~= old(out)@ + code_blocks_opt_md(cur));
        }
    }
    proof {
        assert(cs@.subrange(0, cs@.len() as int) =~= cs@);
    }
}

fn emit_quotes_opt(out: &mut Vec<char>, qs: &Vec<String>)
    ensures
        final(out)@ == old(out)@ + quotes_opt_md(qs@),
{
    let mut i: usize = 0;
    proof {
        assert(qs@.subrange(0, 0) =~= Seq::<String>::empty());
        assert(out@ + quotes_opt_md(qs@.subrange(0, 0)) =~= out@);
    }
    while i < qs.len()
        invariant
            i <= qs@.len(),
            out@ == old(out)@ + quotes_opt_md(qs@.subrange(0, i as int)),
        decreases qs@.len() - i,
    {
        append_str(out, "> ");
        append_str(out, qs[i].as_str());
        append_str(out, "\n\n");
        i += 1;
        proof {
            let cur = qs@.subrange(0, i as int);
            assert(cur.drop_last() =~= qs@.subrange(0, i - 1));
            assert(cur.last() == qs@[i - 1]);
            reveal_strlit("> ");
            assert("> "@ =~= seq!['>', ' ']);
            reveal_strlit("\n\n");
            assert("\n\n"@ =~= seq!['\n', '\n']);
            assert(out@ =~= old(out)@ + quotes_opt_md(cur));
        }
    }
    proof {
        assert(qs@.subrange(0, qs@.len() as int) =~= qs@);
    }
}

fn emit_link_items(out: &mut Vec<char>, ls: &Vec<Link>)
    ensures
        final(out)@ == old(out)@ + link_items_md(ls@),
{
    let mut i: usize = 0;
    proof {
        assert(ls@.subrange(0, 0) =~= Seq::<Link>::empty());
        assert(out@ + link_items_md(ls@.subrange(0, 0)) =~= out@);
    }
    while i < ls.len()
        invariant
            i <= ls@.len(),
            out@ == old(out)@ + link_items_md(ls@.subrange(0, i as int)),
        decreases ls@.len() - i,
    {
        let l = &ls[i];
        append_str(out, "- [");
        append_str(out, l.text.as_str());
        append_str(out, "](");
        append_str(out, l.url.as_str());
        append_str(out, ")\n");
        i += 1;
        proof {
            let cur = ls@.subrange(0, i as int);
            assert(cur.drop_last() =~= ls@.subrange(0, i - 1));
            assert(cur.last() == ls@[i - 1]);
            reveal_strlit("- [");
            assert("- ["@ =~= seq!['-', ' ', '[']);
            reveal_strlit("](");
            assert("]("@ =~= seq![']', '(']);
            reveal_strlit(")\n");
            assert(")\n"@ =~= seq![')', '\n']);
            assert(out@ =~= old(out)@ + link_items_md(cur));
        }
    }
    proof {
        assert(ls@.subrange(0, ls@.len() as int) =~= ls@);
    }
}

/// Renders a document to Markdown in the buffer-reusing layout: conditional
/// title, body sections, then gathered `## Links` and `## Images` sections,
/// with no blank-line cleanup pass.
pub fn document_to_markdown_optimized(doc: &Document) -> (r: String)
    ensures
        r@ == markdown_opt_of(*doc),
{
    let mut out: Vec<char> = Vec::new();
    let empty_title = doc.title.as_str().unicode_len() == 0;
    let fallback = String::from_str("No Title");
    let is_fallback = doc.title == fallback;
    if !empty_title && !is_fallback {
        append_str(&mut out, "# ");
        append_str(&mut out, doc.title.as_str());
        append_str(&mut out, "\n\n");
    }
    proof {
        reveal_strlit("# ");
        assert("# "@ =~= seq!['#', ' ']);
        reveal_strlit("\n\n");
        assert("\n\n"@ =~= seq!['\n', '\n']);
        assert(out@ =~= title_opt_md(doc.title@));
    }
    emit_headings(&mut out, &doc.headings);
    emit_paragraphs(&mut out, &doc.paragraphs);
    emit_lists(&mut out, &doc.lists);
    emit_code_blocks_opt(&mut out, &doc.code_blocks);
    emit_quotes_opt(&mut out, &doc.blockquotes);
    if doc.links.len() > 0 {
        append_str(&mut out, "## Links\n\n");
        emit_link_items(&mut out, &doc.links);
        append_str(&mut out, "\n");
    }
    if doc.images.len() > 0 {
        append_str(&mut out, "## Images\n\n");
        emit_images(&mut out, &doc.images);
    }
    proof {
        reveal_strlit("\n");
        assert("\n"@ =~= seq!['\n']);
        assert(out@ =~= markdown_opt_of(*doc));
    }
    chars_to_string(&out)
}

/// Parses HTML into the document model with lenient URL resolution (an
/// absolute reference stays untouched, a failed join keeps the raw
/// reference) and the `pre > code` selector. Fails exactly when the base
/// URL does not parse.
pub fn parse_html_optimized(html: &str, base_url_str: &str) -> (r: Result<Document, MarkdownError>)
    ensures
        r is Ok <==> (crate::dom::parsed_url(base_url_str@) is Some),
        r is Ok ==> doc_matches(r->Ok_0, html@, base_url_str@, true),
        r is Err ==> r->Err_0 is UrlError,
{
    match crate::dom::parse_url_normalized(base_url_str) {
        None => {
            return Err(MarkdownError::UrlError(String::from_str("relative URL without a base")));
        },
        Some(_) => {},
    }
    let title = extract_document_title(html);
    let mut document = create_document_structure(title.as_str(), base_url_str);
    populate_document_content(&mut document, html, base_url_str, true);
    Ok(document)
}

/// Converts HTML to Markdown along the allocation-conscious path.
pub fn convert_to_markdown_optimized(html: &str, base_url: &str) -> (r: Result<
    String,
    MarkdownError,
>)
    ensures
        r is Ok <==> (crate::dom::parsed_url(base_url@) is Some),
        r is Ok ==> exists|d: Document|
            #[trigger] doc_matches(d, html@, base_url@, true) && r->Ok_0@ == markdown_opt_of(d),
        r is Err ==> r->Err_0 is UrlError,
{
    let document = match parse_html_optimized(html, base_url) {
        Ok(d) => d,
        Err(e) => {
            return Err(e);
        },
    };
    let md = document_to_markdown_optimized(&document);
    proof {
        assert(doc_matches(document, html@, base_url@, true) && md@ == markdown_opt_of(document));
    }
    Ok(md)
}

} // verus!
