//! Text extraction from a parsed DOM tree.
//!
//! Extract visible text, the page title, and links.

use vstd::prelude::*;
use crate::chars::{
    from_chars, is_whitespace, is_ws, list_contains, push_all, to_chars, trim, trim_chars, vv,
};
use crate::parser::{attr_or_empty, attr_val, Document, NodeData};

verus! {

// --- Invisible/block tags ------------------------------------------------

/// Elements whose content is never shown.
pub open spec fn invisible_tags() -> Seq<Seq<char>> {
    seq!["script"@, "style"@, "noscript"@, "template"@, "head"@, "meta"@, "link"@]
}

/// Elements that start on a line of their own.
pub open spec fn block_tags() -> Seq<Seq<char>> {
    seq![
        "p"@,
        "div"@,
        "br"@,
        "hr"@,
        "h1"@,
        "h2"@,
        "h3"@,
        "h4"@,
        "h5"@,
        "h6"@,
        "li"@,
        "tr"@,
        "blockquote"@,
        "pre"@,
        "section"@,
        "article"@,
        "header"@,
        "footer"@,
        "nav"@,
        "main"@,
        "form"@,
        "fieldset"@,
        "table"@,
    ]
}

fn invisible_list() -> (res: Vec<Vec<char>>)
    ensures
        vv(res@) == invisible_tags(),
{
    let mut v: Vec<Vec<char>> = Vec::new();
    v.push(to_chars("script"));
    v.push(to_chars("style"));
    v.push(to_chars("noscript"));
    v.push(to_chars("template"));
    v.push(to_chars("head"));
    v.push(to_chars("meta"));
    v.push(to_chars("link"));
    assert(vv(v@) =~= invisible_tags());
    v
}

fn block_list() -> (res: Vec<Vec<char>>)
    ensures
        vv(res@) == block_tags(),
{
    let mut v: Vec<Vec<char>> = Vec::new();
    v.push(to_chars("p"));
    v.push(to_chars("div"));
    v.push(to_chars("br"));
    v.push(to_chars("hr"));
    v.push(to_chars("h1"));
    v.push(to_chars("h2"));
    v.push(to_chars("h3"));
    v.push(to_chars("h4"));
    v.push(to_chars("h5"));
    v.push(to_chars("h6"));
    v.push(to_chars("li"));
    v.push(to_chars("tr"));
    v.push(to_chars("blockquote"));
    v.push(to_chars("pre"));
    v.push(to_chars("section"));
    v.push(to_chars("article"));
    v.push(to_chars("header"));
    v.push(to_chars("footer"));
    v.push(to_chars("nav"));
    v.push(to_chars("main"));
    v.push(to_chars("form"));
    v.push(to_chars("fieldset"));
    v.push(to_chars("table"));
    assert(vv(v@) =~= block_tags());
    v
}

fn is_invisible(tag: &[char]) -> (res: bool)
    ensures
        res == invisible_tags().contains(tag@),
{
    list_contains(&invisible_list(), tag)
}

fn is_block(tag: &[char]) -> (res: bool)
    ensures
        res == block_tags().contains(tag@),
{
    list_contains(&block_list(), tag)
}

// --- Specification -------------------------------------------------------

/// `out`, with a space added before more text unless it is empty or already
/// ends in a space or a line break.
pub open spec fn before_text(out: Seq<char>) -> Seq<char> {
    if out.len() > 0 && out.last() != ' ' && out.last() != '\n' {
        out.push(' ')
    } else {
        out
    }
}

/// `out`, with a line break added unless it is empty or already ends in one.
pub open spec fn line_break(out: Seq<char>) -> Seq<char> {
    if out.len() > 0 && out.last() != '\n' {
        out.push('\n')
    } else {
        out
    }
}

/// `out` followed by the visible text of node `id`: text runs are separated by
/// spaces, block elements sit on lines of their own, and invisible elements
/// (scripts, styles, ...) contribute nothing.
pub open spec fn visible(doc: &Document, id: int, out: Seq<char>) -> Seq<char>
    decreases doc.len() - id, 1int, 0int,
{
    if 0 <= id < doc.len() {
        match doc.node(id).data {
            NodeData::Text(t) => before_text(out) + t@,
            NodeData::Comment(_) => out,
            NodeData::Element { tag, .. } => {
                if invisible_tags().contains(tag@) {
                    out
                } else if block_tags().contains(tag@) {
                    line_break(
                        visible_children(
                            doc,
                            id,
                            doc.node(id).children@.len() as int,
                            line_break(out),
                        ),
                    )
                } else {
                    visible_children(doc, id, doc.node(id).children@.len() as int, out)
                }
            },
        }
    } else {
        out
    }
}

/// `out` followed by the visible text of the first `k` children of node `id`.
pub open spec fn visible_children(doc: &Document, id: int, k: int, out: Seq<char>) -> Seq<char>
    decreases doc.len() - id, 0int, k,
{
    if 0 <= id < doc.len() && 0 < k <= doc.node(id).children@.len() {
        let c = doc.node(id).children@[k - 1] as int;
        let prev = visible_children(doc, id, k - 1, out);
        if id < c < doc.len() {
            visible(doc, c, prev)
        } else {
            prev
        }
    } else {
        out
    }
}

/// Collapsing the whitespace of `s`: the text so far, and whether it last
/// emitted a space or a line break.
pub open spec fn collapse(s: Seq<char>) -> (Seq<char>, bool, bool)
    decreases s.len(),
{
    if s.len() == 0 {
        (Seq::empty(), false, false)
    } else {
        let (out, sp, nl) = collapse(s.drop_last());
        let c = s.last();
        if c == '\n' {
            if !nl {
                (out.push('\n'), false, true)
            } else {
                (out, sp, nl)
            }
        } else if is_ws(c) {
            if !sp && !nl {
                (out.push(' '), true, nl)
            } else {
                (out, sp, nl)
            }
        } else {
            (out.push(c), false, false)
        }
    }
}

/// `s` with each run of line breaks made one line break, each other run of
/// whitespace made one space (none right after a line break), then trimmed.
pub open spec fn clean_whitespace_spec(s: Seq<char>) -> Seq<char> {
    trim(collapse(s).0)
}

/// The visible text of the document.
pub open spec fn extract_text_spec(doc: &Document) -> Seq<char> {
    clean_whitespace_spec(visible(doc, 0, Seq::empty()))
}

/// The first non-blank `<title>` from node `i` on, trimmed.
pub open spec fn title_from(doc: &Document, i: int) -> Option<Seq<char>>
    decreases doc.len() - i,
{
    if i < 0 || i >= doc.len() {
        None
    } else if doc.is_tag(i, "title"@) && trim(doc.text_of(i)).len() > 0 {
        Some(trim(doc.text_of(i)))
    } else {
        title_from(doc, i + 1)
    }
}

/// The `(href, text)` pairs of the links among the first `n` nodes.
pub open spec fn links_upto(doc: &Document, n: int) -> Seq<(Seq<char>, Seq<char>)>
    decreases n,
{
    if n <= 0 {
        Seq::empty()
    } else {
        let i = n - 1;
        let href = attr_or_empty(doc.attrs_of(i), "href"@);
        links_upto(doc, i) + if doc.is_tag(i, "a"@) && href.len() > 0 {
            seq![(href, trim(doc.text_of(i)))]
        } else {
            Seq::empty()
        }
    }
}

/// The views of a list of string pairs.
pub open spec fn pairs_view(v: Seq<(String, String)>) -> Seq<(Seq<char>, Seq<char>)> {
    v.map_values(|p: (String, String)| (p.0@, p.1@))
}

// --- Laws ----------------------------------------------------------------

/// `s` holds no whitespace but spaces and line breaks, never two spaces, two
/// line breaks or a space after a line break in a row, and neither starts nor
/// ends with whitespace.
pub open spec fn well_spaced(s: Seq<char>) -> bool {
    &&& forall|k: int| 0 <= k < s.len() && is_ws(#[trigger] s[k]) ==> s[k] == ' ' || s[k] == '\n'
    &&& forall|k: int|
        0 <= k < s.len() - 1 ==> !(#[trigger] s[k] == ' ' && s[k + 1] == ' ') && !(s[k] == '\n'
            && s[k + 1] == '\n') && !(s[k] == '\n' && s[k + 1] == ' ')
    &&& s.len() > 0 ==> !is_ws(s[0]) && !is_ws(s[s.len() - 1])
}

/// What holds of the collapsed text at every step.
spec fn collapse_inv(out: Seq<char>, sp: bool, nl: bool) -> bool {
    &&& forall|k: int| 0 <= k < out.len() && is_ws(#[trigger] out[k]) ==> out[k] == ' ' || out[k] == '\n'
    &&& forall|k: int|
        0 <= k < out.len() - 1 ==> !(#[trigger] out[k] == ' ' && out[k + 1] == ' ') && !(out[k]
            == '\n' && out[k + 1] == '\n') && !(out[k] == '\n' && out[k + 1] == ' ')
    &&& out.len() == 0 ==> !sp && !nl
    &&& out.len() > 0 ==> (sp <==> out.last() == ' ') && (nl <==> out.last() == '\n') && (
    !is_ws(out.last()) <==> !sp && !nl)
}

proof fn lemma_collapse_inv(s: Seq<char>)
    ensures
        collapse_inv(collapse(s).0, collapse(s).1, collapse(s).2),
    decreases s.len(),
{
    if s.len() > 0 {
        lemma_collapse_inv(s.drop_last());
        let (out, sp, nl) = collapse(s.drop_last());
        let (out2, sp2, nl2) = collapse(s);
        if out2.len() == out.len() + 1 {
            assert forall|k: int| 0 <= k < out2.len() - 1 implies !(#[trigger] out2[k] == ' ' && out2[k + 1]
                == ' ') && !(out2[k] == '\n' && out2[k + 1] == '\n') && !(out2[k] == '\n' && out2[k
                + 1] == ' ') by {
                if k < out.len() - 1 {
                    assert(out2[k] == out[k] && out2[k + 1] == out[k + 1]);
                } else {
                    assert(out2[k] == out.last());
                }
            }
            assert forall|k: int| 0 <= k < out2.len() && is_ws(#[trigger] out2[k]) implies out2[k] == ' '
                || out2[k] == '\n' by {
                if k < out.len() {
                    assert(out2[k] == out[k]);
                }
            }
        }
    }
}

/// Cleaned text holds no whitespace but single spaces and single line breaks,
/// with no space right after a line break, and neither starts nor ends with
/// whitespace.
pub proof fn lemma_clean_whitespace_shape(s: Seq<char>)
    ensures
        well_spaced(clean_whitespace_spec(s)),
{
    lemma_collapse_inv(s);
    let out = collapse(s).0;
    crate::chars::lemma_skip_ws_bounds(out, 0);
    let a = crate::chars::skip_ws(out, 0);
    crate::chars::lemma_back_ws_bounds(out, a, out.len() as int);
    let b = crate::chars::back_ws(out, a, out.len() as int);
    let t = clean_whitespace_spec(s);
    assert(t == out.subrange(a, b));
    assert forall|k: int| 0 <= k < t.len() && is_ws(#[trigger] t[k]) implies t[k] == ' ' || t[k] == '\n' by {
        assert(t[k] == out[a + k]);
    }
    assert forall|k: int| 0 <= k < t.len() - 1 implies !(#[trigger] t[k] == ' ' && t[k + 1] == ' ') && !(
    t[k] == '\n' && t[k + 1] == '\n') && !(t[k] == '\n' && t[k + 1] == ' ') by {
        assert(t[k] == out[a + k] && t[k + 1] == out[a + k + 1]);
    }
}

/// The characters of `s` that are not whitespace, in order.
pub open spec fn non_ws(s: Seq<char>) -> Seq<char>
    decreases s.len(),
{
    if s.len() == 0 {
        Seq::empty()
    } else if is_ws(s.last()) {
        non_ws(s.drop_last())
    } else {
        non_ws(s.drop_last()).push(s.last())
    }
}

proof fn lemma_non_ws_concat(a: Seq<char>, b: Seq<char>)
    ensures
        non_ws(a + b) == non_ws(a) + non_ws(b),
    decreases b.len(),
{
    if b.len() == 0 {
        assert(a + b =~= a);
        assert(non_ws(a) + non_ws(b) =~= non_ws(a));
    } else {
        lemma_non_ws_concat(a, b.drop_last());
        assert((a + b).drop_last() =~= a + b.drop_last());
        assert((a + b).last() == b.last());
        if !is_ws(b.last()) {
            assert(non_ws(a) + non_ws(b.drop_last()).push(b.last()) =~= (non_ws(a) + non_ws(
                b.drop_last(),
            )).push(b.last()));
        }
    }
}

proof fn lemma_non_ws_blank(s: Seq<char>)
    requires
        forall|k: int| 0 <= k < s.len() ==> is_ws(#[trigger] s[k]),
    ensures
        non_ws(s) == Seq::<char>::empty(),
    decreases s.len(),
{
    if s.len() > 0 {
        assert(is_ws(s[s.len() - 1]));
        lemma_non_ws_blank(s.drop_last());
    }
}

proof fn lemma_collapse_non_ws(s: Seq<char>)
    ensures
        non_ws(collapse(s).0) == non_ws(s),
    decreases s.len(),
{
    if s.len() > 0 {
        lemma_collapse_non_ws(s.drop_last());
        let out = collapse(s.drop_last()).0;
        let out2 = collapse(s).0;
        if out2.len() == out.len() + 1 {
            assert(out2.drop_last() =~= out);
        } else {
            assert(out2 == out);
        }
    }
}

proof fn lemma_trim_non_ws(s: Seq<char>)
    ensures
        non_ws(trim(s)) == non_ws(s),
{
    crate::chars::lemma_skip_ws_bounds(s, 0);
    let a = crate::chars::skip_ws(s, 0);
    crate::chars::lemma_back_ws_bounds(s, a, s.len() as int);
    let b = crate::chars::back_ws(s, a, s.len() as int);
    let x = s.subrange(0, a);
    let y = s.subrange(a, b);
    let z = s.subrange(b, s.len() as int);
    assert(s =~= x + y + z);
    assert forall|k: int| 0 <= k < x.len() implies is_ws(#[trigger] x[k]) by {
        assert(x[k] == s[k]);
    }
    assert forall|k: int| 0 <= k < z.len() implies is_ws(#[trigger] z[k]) by {
        assert(z[k] == s[b + k]);
    }
    lemma_non_ws_blank(x);
    lemma_non_ws_blank(z);
    lemma_non_ws_concat(x + y, z);
    lemma_non_ws_concat(x, y);
    assert(Seq::<char>::empty() + non_ws(y) =~= non_ws(y));
    assert(non_ws(y) + Seq::<char>::empty() =~= non_ws(y));
}

proof fn lemma_collapse_well_spaced(t: Seq<char>, k: int)
    requires
        well_spaced(t),
        0 <= k <= t.len(),
    ensures
        collapse(t.take(k)) == (t.take(k), k > 0 && t[k - 1] == ' ', k > 0 && t[k - 1] == '\n'),
    decreases k,
{
    if k > 0 {
        lemma_collapse_well_spaced(t, k - 1);
        assert(t.take(k).drop_last() =~= t.take(k - 1));
        assert(t.take(k).last() == t[k - 1]);
        assert(t.take(k - 1).push(t[k - 1]) =~= t.take(k));
        if k > 1 {
            assert(!(t[k - 2] == ' ' && t[k - 1] == ' ') && !(t[k - 2] == '\n' && t[k - 1] == '\n') && !(
            t[k - 2] == '\n' && t[k - 1] == ' '));
        }
    }
}

/// Cleaning whitespace keeps every other character, in order, and cleaning
/// cleaned text changes nothing.
pub proof fn lemma_clean_whitespace_keeps_text(s: Seq<char>)
    ensures
        non_ws(clean_whitespace_spec(s)) == non_ws(s),
        clean_whitespace_spec(clean_whitespace_spec(s)) == clean_whitespace_spec(s),
{
    lemma_collapse_non_ws(s);
    lemma_trim_non_ws(collapse(s).0);
    let t = clean_whitespace_spec(s);
    lemma_clean_whitespace_shape(s);
    lemma_collapse_well_spaced(t, t.len() as int);
    assert(t.take(t.len() as int) =~= t);
    assert(crate::chars::skip_ws(t, 0) == 0);
    assert(crate::chars::back_ws(t, 0, t.len() as int) == t.len());
    assert(trim(t) =~= t);
}

/// Comments add nothing to the visible text, whatever they hold.
pub proof fn lemma_comments_add_nothing(doc: &Document, id: int, out: Seq<char>)
    requires
        0 <= id < doc.len(),
        doc.node(id).data is Comment,
    ensures
        visible(doc, id, out) == out,
{
}

/// Scripts, styles and the other invisible elements add nothing to the visible
/// text, whatever they hold.
pub proof fn lemma_invisible_adds_nothing(doc: &Document, id: int, out: Seq<char>)
    requires
        0 <= id < doc.len(),
        doc.tag_of(id) matches Some(t) && invisible_tags().contains(t),
    ensures
        visible(doc, id, out) == out,
{
}

/// The visible text of a document is well spaced.
pub proof fn lemma_extract_text_shape(doc: &Document)
    ensures
        well_spaced(extract_text_spec(doc)),
{
    lemma_clean_whitespace_shape(visible(doc, 0, Seq::empty()));
}

proof fn lemma_title_from_trimmed(doc: &Document, i: int)
    requires
        0 <= i,
    ensures
        title_from(doc, i) matches Some(t) ==> t.len() > 0 && trim(t) == t,
    decreases doc.len() - i,
{
    if i < doc.len() {
        if doc.is_tag(i, "title"@) && trim(doc.text_of(i)).len() > 0 {
            crate::chars::lemma_trim_idempotent(doc.text_of(i));
        } else {
            lemma_title_from_trimmed(doc, i + 1);
        }
    }
}

/// A page title, when there is one, is not blank and has no surrounding whitespace.
pub proof fn lemma_title_trimmed(doc: &Document)
    ensures
        title_from(doc, 0) matches Some(t) ==> t.len() > 0 && trim(t) == t,
{
    lemma_title_from_trimmed(doc, 0);
}

/// Every link has a non-empty `href` and a link text without surrounding whitespace.
pub proof fn lemma_links_shape(doc: &Document, n: int)
    ensures
        forall|k: int|
            0 <= k < links_upto(doc, n).len() ==> (#[trigger] links_upto(doc, n)[k]).0.len() > 0
                && trim(links_upto(doc, n)[k].1) == links_upto(doc, n)[k].1,
    decreases n,
{
    if n > 0 {
        lemma_links_shape(doc, n - 1);
        let prev = links_upto(doc, n - 1);
        let cur = links_upto(doc, n);
        crate::chars::lemma_trim_idempotent(doc.text_of(n - 1));
        assert forall|k: int| 0 <= k < cur.len() implies (#[trigger] cur[k]).0.len() > 0 && trim(cur[k].1)
            == cur[k].1 by {
            if k < prev.len() {
                assert(cur[k] == prev[k]);
            }
        }
    }
}

// --- Public API ----------------------------------------------------------

/// Extract all visible text from the document, stripping tags.
/// Block-level elements produce line breaks; inline elements produce spaces.
pub fn extract_text(doc: &Document) -> (res: String)
    requires
        doc.down_wf(),
        doc.len() > 0,
    ensures
        res@ == extract_text_spec(doc),
{
    let mut out: Vec<char> = Vec::new();
    collect_visible_text(doc, 0, &mut out);
    from_chars(&clean_whitespace(&out))
}

/// Extract the page title from the `<title>` tag.
pub fn extract_title(doc: &Document) -> (res: Option<String>)
    requires
        doc.down_wf(),
    ensures
        match res {
            Some(t) => title_from(doc, 0) == Some(t@),
            None => title_from(doc, 0) is None,
        },
{
    let title = to_chars("title");
    let mut i: usize = 0;
    while i < doc.nodes.len()
        invariant
            doc.down_wf(),
            i <= doc.len(),
            title@ == "title"@,
            title_from(doc, i as int) == title_from(doc, 0),
        decreases doc.len() - i,
    {
        let node = &doc.nodes[i];
        assert(doc.node(i as int).id == i);
        if let NodeData::Element { tag, .. } = &node.data {
            if crate::chars::chars_eq(&to_chars(tag.as_str()), &title) {
                let text = to_chars(doc.inner_text(node.id).as_str());
                let trimmed = trim_chars(&text);
                if trimmed.len() > 0 {
                    return Some(from_chars(&trimmed));
                }
            }
        }
        i += 1;
    }
    None
}

/// Find all links in the document. Returns `(href, link_text)` pairs.
pub fn extract_links(doc: &Document) -> (res: Vec<(String, String)>)
    requires
        doc.down_wf(),
    ensures
        pairs_view(res@) == links_upto(doc, doc.len()),
{
    let mut links: Vec<(String, String)> = Vec::new();
    let a_tag = to_chars("a");
    let href_key = to_chars("href");
    let mut i: usize = 0;
    while i < doc.nodes.len()
        invariant
            doc.down_wf(),
            i <= doc.len(),
            a_tag@ == "a"@,
            href_key@ == "href"@,
            pairs_view(links@) == links_upto(doc, i as int),
        decreases doc.len() - i,
    {
        let node = &doc.nodes[i];
        assert(doc.node(i as int).id == i);
        let ghost before = pairs_view(links@);
        if let NodeData::Element { tag, attributes } = &node.data {
            if crate::chars::chars_eq(&to_chars(tag.as_str()), &a_tag) {
                let href = attr_val(attributes, &href_key);
                if !href.as_str().is_empty() {
                    let text = to_chars(doc.inner_text(node.id).as_str());
                    let text = trim_chars(&text);
                    links.push((href, from_chars(&text)));
                }
            }
        }
        assert(pairs_view(links@) =~= links_upto(doc, i + 1));
        i += 1;
    }
    links
}

// --- Helpers -------------------------------------------------------------

fn ends_with(out: &Vec<char>, c: char) -> (res: bool)
    ensures
        res == (out@.len() > 0 && out@.last() == c),
{
    out.len() > 0 && out[out.len() - 1] == c
}

/// Appends the visible text of node `node_id` to `out`.
fn collect_visible_text(doc: &Document, node_id: usize, out: &mut Vec<char>)
    requires
        doc.down_wf(),
        node_id < doc.len(),
    ensures
        final(out)@ == visible(doc, node_id as int, old(out)@),
    decreases doc.len() - node_id,
{
    let node = &doc.nodes[node_id];
    match &node.data {
        NodeData::Text(text) => {
            if out.len() > 0 && !ends_with(out, ' ') && !ends_with(out, '\n') {
                out.push(' ');
            }
            push_all(out, &to_chars(text.as_str()));
        },
        NodeData::Element { tag, .. } => {
            let t = to_chars(tag.as_str());
            if is_invisible(&t) {
                return;
            }
            let block = is_block(&t);
            if block && out.len() > 0 && !ends_with(out, '\n') {
                out.push('\n');
            }
            let ghost start = out@;
            let mut k: usize = 0;
            while k < node.children.len()
                invariant
                    doc.down_wf(),
                    node_id < doc.len(),
                    node == doc.node(node_id as int),
                    k <= node.children@.len(),
                    out@ == visible_children(doc, node_id as int, k as int, start),
                decreases node.children@.len() - k,
            {
                let child_id = node.children[k];
                assert(node_id < child_id < doc.len()) by {
                    assert(doc.node(node_id as int).children@[k as int] == child_id);
                }
                collect_visible_text(doc, child_id, out);
                k += 1;
            }
            if block && out.len() > 0 && !ends_with(out, '\n') {
                out.push('\n');
            }
        },
        NodeData::Comment(_) => {},
    }
}

/// Collapses whitespace runs and trims the result.
fn clean_whitespace(s: &Vec<char>) -> (res: Vec<char>)
    ensures
        res@ == clean_whitespace_spec(s@),
{
    let mut out: Vec<char> = Vec::new();
    let mut last_was_space = false;
    let mut last_was_newline = false;
    let mut i: usize = 0;
    while i < s.len()
        invariant
            i <= s@.len(),
            collapse(s@.take(i as int)) == (out@, last_was_space, last_was_newline),
        decreases s@.len() - i,
    {
        let c = s[i];
        assert(s@.take(i + 1).drop_last() =~= s@.take(i as int));
        if c == '\n' {
            if !last_was_newline {
                out.push('\n');
                last_was_newline = true;
                last_was_space = false;
            }
        } else if is_whitespace(c) {
            if !last_was_space && !last_was_newline {
                out.push(' ');
                last_was_space = true;
            }
        } else {
            out.push(c);
            last_was_space = false;
            last_was_newline = false;
        }
        i += 1;
    }
    assert(s@.take(s@.len() as int) =~= s@);
    trim_chars(&out)
}

} // verus!
