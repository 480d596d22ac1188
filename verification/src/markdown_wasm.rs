//! A small markdown-to-HTML converter.
//!
//! Supported syntax:
//! - headings: `# title` (one to six `#`)
//! - paragraphs: consecutive lines of text, joined by single spaces
//! - lists: consecutive lines starting with `- ` or `* `
//! - bold text inside a line: `**bold**`
//!
//! The document is scanned line by line with a little buffered state: the
//! lines of the paragraph being read and the items of the list being read.
//! A blank line or a change of block kind flushes the buffer into the node
//! list. Inline text is rendered with HTML escaping.
use vstd::prelude::*;

use crate::text::{
    lemma_lines_of_join, lemma_single_line, no_line_feed, trim_end,
    all_chars, all_white_space, chars_to_string, decimal, decimal_chars, is_white_space, join,
    join_strings, lemma_all_chars_subrange, lemma_all_chars_trim, lemma_join_chars,
    lemma_join_empty, lemma_lines_chars, lemma_trim_empty, lemma_trim_ends, lines, lines_of,
    str_chars, strings_view, strs_view, trim, trim_start, trim_start_str, trim_str,
};

pub mod compiler;

verus! {

/// A block of the document.
#[derive(Debug, Clone, PartialEq, Eq)]
pub enum Node {
    Heading { level: usize, text: String },
    Paragraph(String),
    List(Vec<String>),
}

/// The mathematical form of a [`Node`].
pub enum NodeModel {
    Heading { level: nat, text: Seq<char> },
    Paragraph(Seq<char>),
    List(Seq<Seq<char>>),
}

impl View for Node {
    type V = NodeModel;

    open spec fn view(&self) -> NodeModel {
        match self {
            Node::Heading { level, text } => NodeModel::Heading { level: *level as nat, text: text@ },
            Node::Paragraph(text) => NodeModel::Paragraph(text@),
            Node::List(items) => NodeModel::List(strings_view(items@)),
        }
    }
}

/// The views of a sequence of nodes.
pub open spec fn nodes_view(v: Seq<Node>) -> Seq<NodeModel> {
    v.map_values(|n: Node| n@)
}

// ---------------------------------------------------------------------------
// Block structure
// ---------------------------------------------------------------------------
/// The number of `#` characters that `s` starts with.
pub open spec fn leading_hashes(s: Seq<char>) -> nat
    decreases s.len(),
{
    if s.len() > 0 && s[0] == '#' {
        1 + leading_hashes(s.drop_first())
    } else {
        0
    }
}

/// A line that is a heading: one to six `#`, then non-blank text; the level
/// is the number of `#` and the text is what follows them without leading
/// white space.
pub open spec fn heading_spec(line: Seq<char>) -> Option<(nat, Seq<char>)> {
    let h = leading_hashes(line);
    if h == 0 || h > 6 {
        None
    } else if trim_start(line.skip(h as int)).len() == 0 {
        None
    } else {
        Some((h, trim_start(line.skip(h as int))))
    }
}

/// A line that is a list item: it starts with `- ` or `* `; the item is the
/// rest of the line.
pub open spec fn list_item_spec(line: Seq<char>) -> Option<Seq<char>> {
    if line.len() >= 2 && (line[0] == '-' || line[0] == '*') && line[1] == ' ' {
        Some(line.skip(2))
    } else {
        None
    }
}

/// The state of the line scanner: the nodes so far, the lines of the
/// paragraph being read, and the items of the list being read.
#[verifier::ext_equal]
pub struct DocState {
    pub nodes: Seq<NodeModel>,
    pub paragraph: Seq<Seq<char>>,
    pub items: Seq<Seq<char>>,
}

/// A pending paragraph becomes a node, its lines joined by single spaces.
pub open spec fn flush_paragraph_spec(st: DocState) -> DocState {
    if st.paragraph.len() == 0 {
        st
    } else {
        DocState {
            nodes: st.nodes.push(NodeModel::Paragraph(join(st.paragraph, " "@))),
            paragraph: seq![],
            items: st.items,
        }
    }
}

/// A pending list becomes a node.
pub open spec fn flush_list_spec(st: DocState) -> DocState {
    if st.items.len() == 0 {
        st
    } else {
        DocState { nodes: st.nodes.push(NodeModel::List(st.items)), paragraph: st.paragraph, items: seq![] }
    }
}

/// How one line of input (before trimming) changes the scanner's state.
pub open spec fn step_spec(st: DocState, raw: Seq<char>) -> DocState {
    let line = trim(raw);
    if line.len() == 0 {
        flush_list_spec(flush_paragraph_spec(st))
    } else if heading_spec(line) is Some {
        let s = flush_list_spec(flush_paragraph_spec(st));
        match heading_spec(line) {
            Some((level, text)) => DocState {
                nodes: s.nodes.push(NodeModel::Heading { level, text }),
                ..s
            },
            None => s,
        }
    } else if list_item_spec(line) is Some {
        let s = flush_paragraph_spec(st);
        DocState { items: s.items.push(list_item_spec(line)->0), ..s }
    } else {
        let s = flush_list_spec(st);
        DocState { paragraph: s.paragraph.push(line), ..s }
    }
}

/// The scanner's state after the given lines, from the empty state.
pub open spec fn run_spec(ls: Seq<Seq<char>>) -> DocState
    decreases ls.len(),
{
    if ls.len() == 0 {
        DocState { nodes: seq![], paragraph: seq![], items: seq![] }
    } else {
        step_spec(run_spec(ls.drop_last()), ls.last())
    }
}

/// The nodes of a document: every line is scanned, then what is pending is
/// flushed.
pub open spec fn parse_document_spec(input: Seq<char>) -> Seq<NodeModel> {
    flush_list_spec(flush_paragraph_spec(run_spec(lines(input)))).nodes
}

/// A run of `#` that ends at the end or at another character is exactly
/// the leading hashes.
pub proof fn lemma_leading_hashes_run(s: Seq<char>, n: int)
    requires
        0 <= n <= s.len(),
        forall|j: int| 0 <= j < n ==> #[trigger] s[j] == '#',
        n == s.len() || s[n] != '#',
    ensures
        leading_hashes(s) == n,
    decreases n,
{
    if n > 0 {
        lemma_leading_hashes_run(s.drop_first(), n - 1);
    }
}

/// Recognizes a heading line.
pub fn parse_heading(line: &str) -> (r: Option<(usize, &str)>)
    ensures
        match heading_spec(line@) {
            Some((level, text)) => r matches Some((l, t)) && l == level && t@ == text,
            None => r is None,
        },
{
    let chars = str_chars(line);
    let n = chars.len();
    let mut hashes: usize = 0;
    while hashes < n && chars[hashes] == '#'
        invariant
            0 <= hashes <= n,
            n == chars@.len(),
            chars@ == line@,
            forall|j: int| 0 <= j < hashes ==> #[trigger] chars@[j] == '#',
        decreases n - hashes,
    {
        hashes = hashes + 1;
    }
    proof {
        lemma_leading_hashes_run(line@, hashes as int);
    }
    if hashes == 0 || hashes > 6 {
        return None;
    }
    let rest = line.substring_char(hashes, n);
    assert(rest@ =~= line@.skip(hashes as int));
    let remainder = trim_start_str(rest);
    if remainder.is_empty() {
        None
    } else {
        Some((hashes, remainder))
    }
}

/// Recognizes a list item line.
pub fn parse_list_item(line: &str) -> (r: Option<&str>)
    ensures
        match list_item_spec(line@) {
            Some(item) => r matches Some(t) && t@ == item,
            None => r is None,
        },
{
    let n = line.unicode_len();
    if n >= 2 {
        let c0 = line.get_char(0);
        let c1 = line.get_char(1);
        if (c0 == '-' || c0 == '*') && c1 == ' ' {
            let item = line.substring_char(2, n);
            assert(item@ =~= line@.skip(2));
            return Some(item);
        }
    }
    None
}

/// Turns the pending paragraph lines, if any, into a paragraph node.
pub fn flush_paragraph(nodes: &mut Vec<Node>, paragraph_lines: &mut Vec<String>)
    ensures
        nodes_view(final(nodes)@) == flush_paragraph_spec(
            DocState {
                nodes: nodes_view(old(nodes)@),
                paragraph: strings_view(old(paragraph_lines)@),
                items: seq![],
            },
        ).nodes,
        final(paragraph_lines)@.len() == 0,
{
    if paragraph_lines.len() == 0 {
        return;
    }
    let paragraph = join_strings(paragraph_lines, " ");
    paragraph_lines.clear();
    let ghost before = nodes@;
    nodes.push(Node::Paragraph(paragraph));
    assert(nodes_view(nodes@) =~= nodes_view(before).push(NodeModel::Paragraph(paragraph@)));
}

/// Turns the pending list items, if any, into a list node.
pub fn flush_list(nodes: &mut Vec<Node>, list_items: &mut Vec<String>)
    ensures
        nodes_view(final(nodes)@) == flush_list_spec(
            DocState {
                nodes: nodes_view(old(nodes)@),
                paragraph: seq![],
                items: strings_view(old(list_items)@),
            },
        ).nodes,
        final(list_items)@.len() == 0,
{
    if list_items.len() == 0 {
        return;
    }
    let mut items: Vec<String> = Vec::new();
    std::mem::swap(&mut items, list_items);
    let ghost before = nodes@;
    nodes.push(Node::List(items));
    assert(nodes_view(nodes@) =~= nodes_view(before).push(NodeModel::List(strings_view(items@))));
}

/// Parses a whole document into its nodes.
pub fn parse_document(input: &str) -> (nodes: Vec<Node>)
    ensures
        nodes_view(nodes@) == parse_document_spec(input@),
{
    let raw_lines = lines_of(input);
    let ghost ls = strs_view(raw_lines@);
    let mut nodes: Vec<Node> = Vec::new();
    let mut paragraph_lines: Vec<String> = Vec::new();
    let mut list_items: Vec<String> = Vec::new();
    let n = raw_lines.len();
    let mut i: usize = 0;
    assert(ls.take(0) =~= Seq::<Seq<char>>::empty());
    assert(run_spec(ls.take(0)) =~= (DocState {
        nodes: nodes_view(nodes@),
        paragraph: strings_view(paragraph_lines@),
        items: strings_view(list_items@),
    }));
    while i < n
        invariant
            0 <= i <= n,
            n == ls.len(),
            ls == strs_view(raw_lines@),
            ls == lines(input@),
            run_spec(ls.take(i as int)) == (DocState {
                nodes: nodes_view(nodes@),
                paragraph: strings_view(paragraph_lines@),
                items: strings_view(list_items@),
            }),
        decreases n - i,
    {
        let ghost st = run_spec(ls.take(i as int));
        assert(ls.take(i + 1).drop_last() =~= ls.take(i as int));
        assert(ls.take(i + 1).last() == ls[i as int]);
        let raw = raw_lines[i];
        let line = trim_str(raw);
        let ghost target = step_spec(st, ls[i as int]);
        assert(raw@ == ls[i as int]);
        assert(run_spec(ls.take(i + 1)) == target);
        if line.is_empty() {
            flush_paragraph(&mut nodes, &mut paragraph_lines);
            flush_list(&mut nodes, &mut list_items);
            assert(paragraph_lines@ =~= Seq::<String>::empty());
            assert(list_items@ =~= Seq::<String>::empty());
            assert(strings_view(paragraph_lines@) =~= Seq::<Seq<char>>::empty());
            assert(strings_view(list_items@) =~= Seq::<Seq<char>>::empty());
        } else {
            match parse_heading(line) {
                Some((level, text)) => {
                    flush_paragraph(&mut nodes, &mut paragraph_lines);
                    flush_list(&mut nodes, &mut list_items);
                    assert(strings_view(paragraph_lines@) =~= Seq::<Seq<char>>::empty());
                    assert(strings_view(list_items@) =~= Seq::<Seq<char>>::empty());
                    let ghost before = nodes@;
                    nodes.push(Node::Heading { level, text: text.to_string() });
                    assert(nodes_view(nodes@) =~= nodes_view(before).push(
                        NodeModel::Heading { level: level as nat, text: text@ },
                    ));
                },
                None => {
                    match parse_list_item(line) {
                        Some(item) => {
                            flush_paragraph(&mut nodes, &mut paragraph_lines);
                            assert(strings_view(paragraph_lines@) =~= Seq::<Seq<char>>::empty());
                            let ghost before = list_items@;
                            list_items.push(item.to_string());
                            assert(strings_view(list_items@) =~= strings_view(before).push(item@));
                        },
                        None => {
                            flush_list(&mut nodes, &mut list_items);
                            assert(strings_view(list_items@) =~= Seq::<Seq<char>>::empty());
                            let ghost before = paragraph_lines@;
                            paragraph_lines.push(line.to_string());
                            assert(strings_view(paragraph_lines@) =~= strings_view(before).push(
                                line@,
                            ));
                        },
                    }
                },
            }
        }
        assert(target =~= (DocState {
            nodes: nodes_view(nodes@),
            paragraph: strings_view(paragraph_lines@),
            items: strings_view(list_items@),
        }));
        i = i + 1;
    }
    assert(ls.take(n as int) =~= ls);
    flush_paragraph(&mut nodes, &mut paragraph_lines);
    flush_list(&mut nodes, &mut list_items);
    nodes
}

// ---------------------------------------------------------------------------
// Rendering
// ---------------------------------------------------------------------------
/// How a character of text is written in HTML.
pub open spec fn escape_spec(c: char) -> Seq<char> {
    if c == '&' {
        "&amp;"@
    } else if c == '<' {
        "&lt;"@
    } else if c == '>' {
        "&gt;"@
    } else if c == '"' {
        "&quot;"@
    } else if c == '\'' {
        "&#39;"@
    } else {
        seq![c]
    }
}

/// The HTML of inline text `s`, where `open` says whether a bold span is
/// open: each `**` opens or closes a bold span, other characters are escaped,
/// and a span still open at the end is closed.
pub open spec fn render_inline_from(s: Seq<char>, open: bool) -> Seq<char>
    decreases s.len(),
{
    if s.len() == 0 {
        if open {
            "</strong>"@
        } else {
            seq![]
        }
    } else if s.len() >= 2 && s[0] == '*' && s[1] == '*' {
        (if open {
            "</strong>"@
        } else {
            "<strong>"@
        }) + render_inline_from(s.skip(2), !open)
    } else {
        escape_spec(s[0]) + render_inline_from(s.drop_first(), open)
    }
}

/// The HTML of inline text.
pub open spec fn render_inline_spec(s: Seq<char>) -> Seq<char> {
    render_inline_from(s, false)
}

/// The HTML of one list item.
pub open spec fn render_item_spec(item: Seq<char>) -> Seq<char> {
    "<li>"@ + render_inline_spec(item) + "</li>"@
}

/// The HTML of one node.
pub open spec fn render_node_spec(n: NodeModel) -> Seq<char> {
    match n {
        NodeModel::Heading { level, text } => "<h"@ + decimal(level) + ">"@ + render_inline_spec(text)
            + "</h"@ + decimal(level) + ">"@,
        NodeModel::Paragraph(text) => "<p>"@ + render_inline_spec(text) + "</p>"@,
        NodeModel::List(items) => "<ul>"@ + join(
            items.map_values(|item: Seq<char>| render_item_spec(item)),
            ""@,
        ) + "</ul>"@,
    }
}

/// The HTML of a document: its nodes, one per line.
pub open spec fn render_document_spec(nodes: Seq<NodeModel>) -> Seq<char> {
    join(nodes.map_values(|n: NodeModel| render_node_spec(n)), "\n"@)
}

/// The HTML of a markdown document.
pub open spec fn parse_markdown_spec(input: Seq<char>) -> Seq<char> {
    render_document_spec(parse_document_spec(input))
}

/// Appends the characters of `s` to `out`.
fn push_str(out: &mut Vec<char>, s: &str)
    ensures
        final(out)@ == old(out)@ + s@,
{
    let chars = str_chars(s);
    let n = chars.len();
    let mut i: usize = 0;
    let ghost start = out@;
    while i < n
        invariant
            0 <= i <= n,
            n == chars@.len(),
            chars@ == s@,
            out@ == start + s@.take(i as int),
        decreases n - i,
    {
        out.push(chars[i]);
        assert(s@.take(i + 1) =~= s@.take(i as int).push(s@[i as int]));
        i = i + 1;
    }
    assert(s@.take(n as int) =~= s@);
}

/// Renders inline text: bold spans and HTML escaping.
pub fn render_inline(input: &str) -> (html: String)
    ensures
        html@ == render_inline_spec(input@),
{
    let chars = str_chars(input);
    let ghost s = chars@;
    let n = chars.len();
    let mut out: Vec<char> = Vec::new();
    let mut strong_open = false;
    let mut i: usize = 0;
    assert(s.skip(0) =~= s);
    while i < n
        invariant
            0 <= i <= n,
            n == s.len(),
            s == chars@,
            s == input@,
            render_inline_spec(s) == out@ + render_inline_from(s.skip(i as int), strong_open),
        decreases n - i,
    {
        let ghost t = s.skip(i as int);
        let ghost before = out@;
        let ghost old_open = strong_open;
        let ch = chars[i];
        if ch == '*' && i + 1 < n && chars[i + 1] == '*' {
            if strong_open {
                push_str(&mut out, "</strong>");
            } else {
                push_str(&mut out, "<strong>");
            }
            assert(t[0] == s[i as int] && t[1] == s[i + 1]);
            assert(t.skip(2) =~= s.skip(i + 2));
            strong_open = !strong_open;
            i = i + 2;
        } else {
            if ch == '&' {
                push_str(&mut out, "&amp;");
            } else if ch == '<' {
                push_str(&mut out, "&lt;");
            } else if ch == '>' {
                push_str(&mut out, "&gt;");
            } else if ch == '"' {
                push_str(&mut out, "&quot;");
            } else if ch == '\'' {
                push_str(&mut out, "&#39;");
            } else {
                out.push(ch);
                assert(out@ =~= before + seq![ch]);
            }
            assert(t[0] == ch);
            assert(!(t.len() >= 2 && t[0] == '*' && t[1] == '*')) by {
                if t.len() >= 2 {
                    assert(t[1] == s[i + 1]);
                }
            }
            assert(t.drop_first() =~= s.skip(i + 1));
            i = i + 1;
        }
        assert(before + render_inline_from(t, old_open) =~= out@ + render_inline_from(
            s.skip(i as int),
            strong_open,
        ));
    }
    if strong_open {
        push_str(&mut out, "</strong>");
    }
    assert(s.skip(n as int) =~= Seq::<char>::empty());
    chars_to_string(out.as_slice())
}

/// Renders one node.
pub fn render_node(node: &Node) -> (html: String)
    ensures
        html@ == render_node_spec(node@),
{
    match node {
        Node::Heading { level, text } => {
            let digits = decimal_chars(*level as u64);
            let mut out: Vec<char> = Vec::new();
            push_str(&mut out, "<h");
            let ghost a = out@;
            let mut i: usize = 0;
            while i < digits.len()
                invariant
                    0 <= i <= digits.len(),
                    out@ == a + digits@.take(i as int),
                decreases digits.len() - i,
            {
                out.push(digits[i]);
                assert(digits@.take(i + 1) =~= digits@.take(i as int).push(digits@[i as int]));
                i = i + 1;
            }
            assert(digits@.take(digits.len() as int) =~= digits@);
            push_str(&mut out, ">");
            let inner = render_inline(text.as_str());
            push_str(&mut out, inner.as_str());
            push_str(&mut out, "</h");
            let ghost b = out@;
            let mut j: usize = 0;
            while j < digits.len()
                invariant
                    0 <= j <= digits.len(),
                    out@ == b + digits@.take(j as int),
                decreases digits.len() - j,
            {
                out.push(digits[j]);
                assert(digits@.take(j + 1) =~= digits@.take(j as int).push(digits@[j as int]));
                j = j + 1;
            }
            push_str(&mut out, ">");
            assert(out@ =~= render_node_spec(node@));
            chars_to_string(out.as_slice())
        },
        Node::Paragraph(text) => {
            let mut out = "<p>".to_string();
            let inner = render_inline(text.as_str());
            out.append(inner.as_str());
            out.append("</p>");
            out
        },
        Node::List(items) => {
            let ghost v = strings_view(items@);
            let mut rendered: Vec<String> = Vec::new();
            let mut i: usize = 0;
            while i < items.len()
                invariant
                    0 <= i <= items.len(),
                    v == strings_view(items@),
                    strings_view(rendered@) == v.take(i as int).map_values(
                        |item: Seq<char>| render_item_spec(item),
                    ),
                decreases items.len() - i,
            {
                let mut li = "<li>".to_string();
                let inner = render_inline(items[i].as_str());
                li.append(inner.as_str());
                li.append("</li>");
                let ghost before = rendered@;
                rendered.push(li);
                assert(strings_view(rendered@) =~= v.take(i + 1).map_values(
                    |item: Seq<char>| render_item_spec(item),
                )) by {
                    assert(strings_view(rendered@) =~= strings_view(before).push(li@));
                }
                i = i + 1;
            }
            assert(v.take(items.len() as int) =~= v);
            let body = join_strings(&rendered, "");
            let mut out = "<ul>".to_string();
            out.append(body.as_str());
            out.append("</ul>");
            out
        },
    }
}

/// Renders a sequence of nodes, one per line.
pub fn render_document(nodes: &[Node]) -> (html: String)
    ensures
        html@ == render_document_spec(nodes_view(nodes@)),
{
    let ghost v = nodes_view(nodes@);
    let mut rendered: Vec<String> = Vec::new();
    let mut i: usize = 0;
    while i < nodes.len()
        invariant
            0 <= i <= nodes.len(),
            v == nodes_view(nodes@),
            strings_view(rendered@) == v.take(i as int).map_values(
                |n: NodeModel| render_node_spec(n),
            ),
        decreases nodes.len() - i,
    {
        let html = render_node(&nodes[i]);
        let ghost before = rendered@;
        rendered.push(html);
        assert(strings_view(rendered@) =~= v.take(i + 1).map_values(
            |n: NodeModel| render_node_spec(n),
        )) by {
            assert(strings_view(rendered@) =~= strings_view(before).push(html@));
        }
        i = i + 1;
    }
    assert(v.take(nodes.len() as int) =~= v);
    join_strings(&rendered, "\n")
}

/// Converts a markdown document to HTML.
pub fn parse_markdown(input: &str) -> (html: String)
    ensures
        html@ == parse_markdown_spec(input@),
{
    let nodes = parse_document(input);
    render_document(nodes.as_slice())
}

// ---------------------------------------------------------------------------
// Laws
// ---------------------------------------------------------------------------
/// A node as the scanner builds it: a heading has a level from one to six and
/// text that starts with a visible character; a paragraph has text; a list
/// has items, none of them empty.
pub open spec fn node_well_formed(n: NodeModel) -> bool {
    match n {
        NodeModel::Heading { level, text } => 1 <= level <= 6 && text.len() > 0 && !is_white_space(
            text[0],
        ),
        NodeModel::Paragraph(text) => text.len() > 0,
        NodeModel::List(items) => items.len() > 0 && forall|i: int|
            0 <= i < items.len() ==> #[trigger] items[i].len() > 0,
    }
}

/// What holds of the scanner's state between lines.
pub open spec fn state_well_formed(st: DocState) -> bool {
    &&& forall|i: int| 0 <= i < st.nodes.len() ==> node_well_formed(#[trigger] st.nodes[i])
    &&& forall|i: int| 0 <= i < st.paragraph.len() ==> #[trigger] st.paragraph[i].len() > 0
    &&& forall|i: int| 0 <= i < st.items.len() ==> #[trigger] st.items[i].len() > 0
}

proof fn lemma_flushes_well_formed(st: DocState)
    requires
        state_well_formed(st),
    ensures
        state_well_formed(flush_paragraph_spec(st)),
        state_well_formed(flush_list_spec(st)),
{
    if st.paragraph.len() > 0 {
        lemma_join_empty(st.paragraph, " "@);
        let t = flush_paragraph_spec(st);
        assert forall|i: int| 0 <= i < t.nodes.len() implies node_well_formed(#[trigger] t.nodes[i]) by {
            if i < st.nodes.len() {
                assert(t.nodes[i] == st.nodes[i]);
            }
        }
    }
    if st.items.len() > 0 {
        let t = flush_list_spec(st);
        assert forall|i: int| 0 <= i < t.nodes.len() implies node_well_formed(#[trigger] t.nodes[i]) by {
            if i < st.nodes.len() {
                assert(t.nodes[i] == st.nodes[i]);
            }
        }
    }
}

proof fn lemma_step_well_formed(st: DocState, raw: Seq<char>)
    requires
        state_well_formed(st),
    ensures
        state_well_formed(step_spec(st, raw)),
{
    let line = trim(raw);
    lemma_flushes_well_formed(st);
    lemma_flushes_well_formed(flush_paragraph_spec(st));
    lemma_trim_ends(trim_start(raw));
    if line.len() == 0 {
    } else if heading_spec(line) is Some {
        let s = flush_list_spec(flush_paragraph_spec(st));
        let h = leading_hashes(line);
        lemma_trim_ends(line.skip(h as int));
        let t = step_spec(st, raw);
        assert forall|i: int| 0 <= i < t.nodes.len() implies node_well_formed(#[trigger] t.nodes[i]) by {
            if i < s.nodes.len() {
                assert(t.nodes[i] == s.nodes[i]);
            }
        }
    } else if list_item_spec(line) is Some {
        let s = flush_paragraph_spec(st);
        assert(line.len() > 2) by {
            if line.len() == 2 {
                assert(line.last() == line[1]);
            }
        }
        let t = step_spec(st, raw);
        assert forall|i: int| 0 <= i < t.items.len() implies #[trigger] t.items[i].len() > 0 by {
            if i < s.items.len() {
                assert(t.items[i] == s.items[i]);
            }
        }
    } else {
        let s = flush_list_spec(st);
        let t = step_spec(st, raw);
        assert forall|i: int| 0 <= i < t.paragraph.len() implies #[trigger] t.paragraph[i].len() > 0 by {
            if i < s.paragraph.len() {
                assert(t.paragraph[i] == s.paragraph[i]);
            }
        }
    }
}

proof fn lemma_run_well_formed(ls: Seq<Seq<char>>)
    ensures
        state_well_formed(run_spec(ls)),
    decreases ls.len(),
{
    if ls.len() > 0 {
        lemma_run_well_formed(ls.drop_last());
        lemma_step_well_formed(run_spec(ls.drop_last()), ls.last());
    }
}

/// Every node that a document parses to is well formed: headings have a level
/// from one to six and visible text, paragraphs are not empty, and lists hold
/// at least one item, none of them empty.
pub proof fn law_parsed_nodes_well_formed(input: Seq<char>)
    ensures
        forall|i: int|
            0 <= i < parse_document_spec(input).len() ==> node_well_formed(
                #[trigger] parse_document_spec(input)[i],
            ),
{
    let st = run_spec(lines(input));
    lemma_run_well_formed(lines(input));
    lemma_flushes_well_formed(st);
    lemma_flushes_well_formed(flush_paragraph_spec(st));
}

/// Whether every character of every text that `n` holds satisfies `p`.
pub open spec fn node_chars(n: NodeModel, p: spec_fn(char) -> bool) -> bool {
    match n {
        NodeModel::Heading { text, .. } => all_chars(text, p),
        NodeModel::Paragraph(text) => all_chars(text, p),
        NodeModel::List(items) => forall|i: int|
            0 <= i < items.len() ==> all_chars(#[trigger] items[i], p),
    }
}

/// Whether the texts of `n` (heading, paragraph, list items) hold no line
/// feed.
pub open spec fn node_single_line(n: NodeModel) -> bool {
    node_chars(n, |c: char| c != '\n')
}

/// Every text of the scanner's state is made of characters satisfying `p`.
spec fn state_chars(st: DocState, p: spec_fn(char) -> bool) -> bool {
    &&& forall|i: int| 0 <= i < st.nodes.len() ==> node_chars(#[trigger] st.nodes[i], p)
    &&& forall|i: int| 0 <= i < st.paragraph.len() ==> all_chars(#[trigger] st.paragraph[i], p)
    &&& forall|i: int| 0 <= i < st.items.len() ==> all_chars(#[trigger] st.items[i], p)
}

proof fn lemma_leading_hashes_bound(s: Seq<char>)
    ensures
        leading_hashes(s) <= s.len(),
    decreases s.len(),
{
    if s.len() > 0 && s[0] == '#' {
        lemma_leading_hashes_bound(s.drop_first());
    }
}

proof fn lemma_flushes_chars(st: DocState, p: spec_fn(char) -> bool)
    requires
        state_chars(st, p),
        p(' '),
    ensures
        state_chars(flush_paragraph_spec(st), p),
        state_chars(flush_list_spec(st), p),
{
    if st.paragraph.len() > 0 {
        reveal_strlit(" ");
        assert(all_chars(" "@, p)) by {
            assert(" "@[0] == ' ');
        }
        lemma_join_chars(st.paragraph, " "@, p);
        let t = flush_paragraph_spec(st);
        assert forall|i: int| 0 <= i < t.nodes.len() implies node_chars(#[trigger] t.nodes[i], p) by {
            if i < st.nodes.len() {
                assert(t.nodes[i] == st.nodes[i]);
            }
        }
    }
    if st.items.len() > 0 {
        let t = flush_list_spec(st);
        assert forall|i: int| 0 <= i < t.nodes.len() implies node_chars(#[trigger] t.nodes[i], p) by {
            if i < st.nodes.len() {
                assert(t.nodes[i] == st.nodes[i]);
            }
        }
    }
}

proof fn lemma_step_chars(st: DocState, raw: Seq<char>, p: spec_fn(char) -> bool)
    requires
        state_chars(st, p),
        p(' '),
        all_chars(raw, p),
    ensures
        state_chars(step_spec(st, raw), p),
{
    let line = trim(raw);
    lemma_all_chars_trim(raw, p);
    lemma_flushes_chars(st, p);
    lemma_flushes_chars(flush_paragraph_spec(st), p);
    let t = step_spec(st, raw);
    if line.len() == 0 {
    } else if heading_spec(line) is Some {
        let s = flush_list_spec(flush_paragraph_spec(st));
        let h = leading_hashes(line) as int;
        lemma_leading_hashes_bound(line);
        lemma_all_chars_subrange(line, p, h, line.len() as int);
        assert(line.skip(h) =~= line.subrange(h, line.len() as int));
        lemma_all_chars_trim(line.skip(h), p);
        assert forall|i: int| 0 <= i < t.nodes.len() implies node_chars(#[trigger] t.nodes[i], p) by {
            if i < s.nodes.len() {
                assert(t.nodes[i] == s.nodes[i]);
            }
        }
    } else if list_item_spec(line) is Some {
        let s = flush_paragraph_spec(st);
        lemma_all_chars_subrange(line, p, 2, line.len() as int);
        assert(line.skip(2) =~= line.subrange(2, line.len() as int));
        assert forall|i: int| 0 <= i < t.items.len() implies all_chars(#[trigger] t.items[i], p) by {
            if i < s.items.len() {
                assert(t.items[i] == s.items[i]);
            }
        }
    } else {
        let s = flush_list_spec(st);
        assert forall|i: int| 0 <= i < t.paragraph.len() implies all_chars(
            #[trigger] t.paragraph[i],
            p,
        ) by {
            if i < s.paragraph.len() {
                assert(t.paragraph[i] == s.paragraph[i]);
            }
        }
    }
}

proof fn lemma_run_chars(ls: Seq<Seq<char>>, p: spec_fn(char) -> bool)
    requires
        p(' '),
        forall|i: int| 0 <= i < ls.len() ==> all_chars(#[trigger] ls[i], p),
    ensures
        state_chars(run_spec(ls), p),
    decreases ls.len(),
{
    if ls.len() > 0 {
        let init = ls.drop_last();
        assert forall|i: int| 0 <= i < init.len() implies all_chars(#[trigger] init[i], p) by {
            assert(init[i] == ls[i]);
        }
        lemma_run_chars(init, p);
        assert(all_chars(ls.last(), p)) by {
            assert(ls.last() == ls[ls.len() - 1]);
        }
        lemma_step_chars(run_spec(init), ls.last(), p);
    }
}

/// Every block stays on one line: no heading, paragraph or list item that a
/// document parses to holds a line feed (a paragraph's lines are joined by
/// spaces).
pub proof fn law_node_texts_single_line(input: Seq<char>)
    ensures
        forall|i: int|
            0 <= i < parse_document_spec(input).len() ==> node_single_line(
                #[trigger] parse_document_spec(input)[i],
            ),
{
    let p = |c: char| c != '\n';
    lemma_lines_chars(input, p);
    lemma_run_chars(lines(input), p);
    let st = run_spec(lines(input));
    lemma_flushes_chars(st, p);
    lemma_flushes_chars(flush_paragraph_spec(st), p);
}

proof fn lemma_run_blank(ls: Seq<Seq<char>>)
    requires
        forall|i: int| 0 <= i < ls.len() ==> #[trigger] trim(ls[i]).len() == 0,
    ensures
        run_spec(ls) == (DocState { nodes: seq![], paragraph: seq![], items: seq![] }),
    decreases ls.len(),
{
    if ls.len() > 0 {
        let init = ls.drop_last();
        assert forall|i: int| 0 <= i < init.len() implies #[trigger] trim(init[i]).len() == 0 by {
            assert(init[i] == ls[i]);
        }
        lemma_run_blank(init);
        assert(trim(ls.last()).len() == 0) by {
            assert(ls.last() == ls[ls.len() - 1]);
        }
    }
}

/// A document that is blank (empty, or white space alone) parses to no
/// node.
pub proof fn law_blank_document_has_no_nodes(input: Seq<char>)
    requires
        trim(input).len() == 0,
    ensures
        parse_document_spec(input).len() == 0,
{
    lemma_trim_empty(input);
    lemma_lines_chars(input, |c: char| is_white_space(c));
    let ls = lines(input);
    assert forall|i: int| 0 <= i < ls.len() implies #[trigger] trim(ls[i]).len() == 0 by {
        assert(all_white_space(ls[i]));
        lemma_trim_empty(ls[i]);
    }
    lemma_run_blank(ls);
}

/// Whether `tag` occurs in `out` at position `i`.
pub open spec fn occurs_at(out: Seq<char>, i: int, tag: Seq<char>) -> bool {
    0 <= i && i + tag.len() <= out.len() && out.subrange(i, i + tag.len()) == tag
}

/// Whether a bold tag begins at position `i` of `out`.
pub open spec fn tag_at(out: Seq<char>, i: int) -> bool {
    occurs_at(out, i, "<strong>"@) || occurs_at(out, i, "</strong>"@)
}

/// Whether a bold tag ends at position `i` of `out`.
pub open spec fn tag_ends_at(out: Seq<char>, i: int) -> bool {
    occurs_at(out, i + 1 - "<strong>"@.len(), "<strong>"@) || occurs_at(
        out,
        i + 1 - "</strong>"@.len(),
        "</strong>"@,
    )
}

/// Whether a character entity begins at position `i` of `out`.
pub open spec fn entity_at(out: Seq<char>, i: int) -> bool {
    ||| occurs_at(out, i, "&amp;"@)
    ||| occurs_at(out, i, "&lt;"@)
    ||| occurs_at(out, i, "&gt;"@)
    ||| occurs_at(out, i, "&quot;"@)
    ||| occurs_at(out, i, "&#39;"@)
}

/// HTML in which markup can only come from the renderer: no quote
/// characters, every `<` begins and every `>` ends a `<strong>` or
/// `</strong>` tag, and every `&` begins a character entity.
pub open spec fn markup_safe(out: Seq<char>) -> bool {
    &&& forall|i: int| 0 <= i < out.len() ==> #[trigger] out[i] != '"' && out[i] != '\''
    &&& forall|i: int| 0 <= i < out.len() && #[trigger] out[i] == '<' ==> tag_at(out, i)
    &&& forall|i: int| 0 <= i < out.len() && #[trigger] out[i] == '>' ==> tag_ends_at(out, i)
    &&& forall|i: int| 0 <= i < out.len() && #[trigger] out[i] == '&' ==> entity_at(out, i)
}

/// What occurs in a part occurs in the whole, shifted by what comes before.
proof fn lemma_occurs_concat(a: Seq<char>, b: Seq<char>, i: int, tag: Seq<char>)
    ensures
        occurs_at(a, i, tag) ==> occurs_at(a + b, i, tag),
        occurs_at(b, i, tag) ==> occurs_at(a + b, i + a.len(), tag),
{
    if occurs_at(a, i, tag) {
        assert((a + b).subrange(i, i + tag.len()) =~= a.subrange(i, i + tag.len()));
    }
    if occurs_at(b, i, tag) {
        assert((a + b).subrange(i + a.len(), i + a.len() + tag.len()) =~= b.subrange(
            i,
            i + tag.len(),
        ));
    }
}

proof fn lemma_tags_concat(a: Seq<char>, b: Seq<char>, i: int)
    ensures
        tag_at(a, i) ==> tag_at(a + b, i),
        tag_at(b, i) ==> tag_at(a + b, i + a.len()),
        tag_ends_at(a, i) ==> tag_ends_at(a + b, i),
        tag_ends_at(b, i) ==> tag_ends_at(a + b, i + a.len()),
        entity_at(a, i) ==> entity_at(a + b, i),
        entity_at(b, i) ==> entity_at(a + b, i + a.len()),
{
    lemma_occurs_concat(a, b, i, "<strong>"@);
    lemma_occurs_concat(a, b, i, "</strong>"@);
    lemma_occurs_concat(a, b, i + 1 - "<strong>"@.len(), "<strong>"@);
    lemma_occurs_concat(a, b, i + 1 - "</strong>"@.len(), "</strong>"@);
    lemma_occurs_concat(a, b, i, "&amp;"@);
    lemma_occurs_concat(a, b, i, "&lt;"@);
    lemma_occurs_concat(a, b, i, "&gt;"@);
    lemma_occurs_concat(a, b, i, "&quot;"@);
    lemma_occurs_concat(a, b, i, "&#39;"@);
}

proof fn lemma_markup_safe_concat(a: Seq<char>, b: Seq<char>)
    requires
        markup_safe(a),
        markup_safe(b),
    ensures
        markup_safe(a + b),
{
    let c = a + b;
    assert forall|i: int| 0 <= i < c.len() implies #[trigger] c[i] != '"' && c[i] != '\''
        && (c[i] == '<' ==> tag_at(c, i)) && (c[i] == '>' ==> tag_ends_at(c, i)) && (c[i] == '&'
        ==> entity_at(c, i)) by {
        if i < a.len() {
            assert(c[i] == a[i]);
            lemma_tags_concat(a, b, i);
        } else {
            let j = i - a.len();
            assert(c[i] == b[j]);
            lemma_tags_concat(a, b, j);
        }
    }
}

proof fn lemma_tag_safe(t: Seq<char>)
    requires
        t == "<strong>"@ || t == "</strong>"@,
    ensures
        markup_safe(t),
{
    reveal_strlit("<strong>");
    reveal_strlit("</strong>");
    assert(t.subrange(0, t.len() as int) =~= t);
    assert forall|i: int| 0 <= i < t.len() && #[trigger] t[i] == '<' implies i == 0 by {}
    assert forall|i: int| 0 <= i < t.len() && #[trigger] t[i] == '>' implies i == t.len() - 1 by {}
    assert forall|i: int| 0 <= i < t.len() implies #[trigger] t[i] != '&' by {}
}

proof fn lemma_entity_safe(t: Seq<char>)
    requires
        t == "&amp;"@ || t == "&lt;"@ || t == "&gt;"@ || t == "&quot;"@ || t == "&#39;"@,
    ensures
        markup_safe(t),
{
    reveal_strlit("&amp;");
    reveal_strlit("&lt;");
    reveal_strlit("&gt;");
    reveal_strlit("&quot;");
    reveal_strlit("&#39;");
    assert(t.subrange(0, t.len() as int) =~= t);
    assert forall|i: int| 0 <= i < t.len() && #[trigger] t[i] == '&' implies i == 0 by {}
    assert forall|i: int| 0 <= i < t.len() implies #[trigger] t[i] != '<' && t[i] != '>' by {}
}

proof fn lemma_pieces_safe(c: char)
    ensures
        markup_safe("<strong>"@),
        markup_safe("</strong>"@),
        markup_safe(escape_spec(c)),
{
    lemma_tag_safe("<strong>"@);
    lemma_tag_safe("</strong>"@);
    if c == '&' || c == '<' || c == '>' || c == '"' || c == '\'' {
        lemma_entity_safe(escape_spec(c));
    } else {
        let e = escape_spec(c);
        assert(e.len() == 1 && e[0] == c);
    }
}

proof fn lemma_render_inline_safe(s: Seq<char>, open: bool)
    ensures
        markup_safe(render_inline_from(s, open)),
    decreases s.len(),
{
    lemma_pieces_safe(if s.len() > 0 { s[0] } else { ' ' });
    if s.len() == 0 {
        if !open {
            assert(markup_safe(Seq::<char>::empty()));
        }
    } else if s.len() >= 2 && s[0] == '*' && s[1] == '*' {
        lemma_render_inline_safe(s.skip(2), !open);
        lemma_markup_safe_concat(
            if open {
                "</strong>"@
            } else {
                "<strong>"@
            },
            render_inline_from(s.skip(2), !open),
        );
    } else {
        lemma_render_inline_safe(s.drop_first(), open);
        lemma_markup_safe_concat(escape_spec(s[0]), render_inline_from(s.drop_first(), open));
    }
}

/// Inline text is escaped: whatever the input, its HTML holds no quote
/// characters, every `<` in it begins and every `>` ends a `<strong>` or
/// `</strong>` tag that the renderer wrote, and every `&` begins one of the
/// entities `&amp;`, `&lt;`, `&gt;`, `&quot;`, `&#39;`.
pub proof fn law_inline_html_escaped(s: Seq<char>)
    ensures
        markup_safe(render_inline_spec(s)),
{
    lemma_render_inline_safe(s, false);
}

/// Whether `out` starts with `tag`.
pub open spec fn starts_with(out: Seq<char>, tag: Seq<char>) -> bool {
    out.len() >= tag.len() && out.subrange(0, tag.len() as int) == tag
}

/// Whether the bold tags of `out` alternate, opening first when no span is
/// open (`open` says whether one is), and every span is closed at the end.
pub open spec fn strong_balanced(out: Seq<char>, open: bool) -> bool
    decreases out.len(),
{
    proof {
        lemma_tags_start_with_lt();
    }
    if out.len() == 0 {
        !open
    } else if starts_with(out, "<strong>"@) {
        !open && strong_balanced(out.skip(8), true)
    } else if starts_with(out, "</strong>"@) {
        open && strong_balanced(out.skip(9), false)
    } else {
        strong_balanced(out.drop_first(), open)
    }
}

/// The lengths and first characters of the bold tags.
pub proof fn lemma_tags_start_with_lt()
    ensures
        "<strong>"@.len() == 8,
        "</strong>"@.len() == 9,
        "<strong>"@[0] == '<',
        "</strong>"@[0] == '<',
{
    reveal_strlit("<strong>");
    reveal_strlit("</strong>");
}

/// Text without `<` does not change whether the tags after it balance.
proof fn lemma_balanced_skip_plain(p: Seq<char>, rest: Seq<char>, open: bool)
    requires
        forall|i: int| 0 <= i < p.len() ==> #[trigger] p[i] != '<',
    ensures
        strong_balanced(p + rest, open) == strong_balanced(rest, open),
    decreases p.len(),
{
    lemma_tags_start_with_lt();
    if p.len() > 0 {
        let q = p + rest;
        assert(q[0] == p[0]);
        assert(!starts_with(q, "<strong>"@)) by {
            if starts_with(q, "<strong>"@) {
                assert(q.subrange(0, 8)[0] == q[0]);
            }
        }
        assert(!starts_with(q, "</strong>"@)) by {
            if starts_with(q, "</strong>"@) {
                assert(q.subrange(0, 9)[0] == q[0]);
            }
        }
        assert(q.drop_first() =~= p.drop_first() + rest);
        lemma_balanced_skip_plain(p.drop_first(), rest, open);
    } else {
        assert(p + rest =~= rest);
    }
}

proof fn lemma_render_inline_balanced(s: Seq<char>, open: bool)
    ensures
        strong_balanced(render_inline_from(s, open), open),
    decreases s.len(),
{
    lemma_tags_start_with_lt();
    if s.len() == 0 {
        if open {
            let out = "</strong>"@;
            assert(out.subrange(0, 9) =~= out);
            assert(!starts_with(out, "<strong>"@)) by {
                reveal_strlit("<strong>");
                reveal_strlit("</strong>");
                assert(out[1] != "<strong>"@[1]);
                if starts_with(out, "<strong>"@) {
                    assert(out.subrange(0, 8)[1] == out[1]);
                }
            }
            assert(out.skip(9) =~= Seq::<char>::empty());
            assert(strong_balanced(out.skip(9), false));
        }
    } else if s.len() >= 2 && s[0] == '*' && s[1] == '*' {
        lemma_render_inline_balanced(s.skip(2), !open);
        let rest = render_inline_from(s.skip(2), !open);
        if open {
            let tag = "</strong>"@;
            let out = tag + rest;
            assert(out.subrange(0, 9) =~= tag);
            assert(!starts_with(out, "<strong>"@)) by {
                reveal_strlit("<strong>");
                reveal_strlit("</strong>");
                if starts_with(out, "<strong>"@) {
                    assert(out.subrange(0, 8)[1] == out[1]);
                    assert(out[1] == tag[1]);
                }
            }
            assert(out.skip(9) =~= rest);
        } else {
            let tag = "<strong>"@;
            let out = tag + rest;
            assert(out.subrange(0, 8) =~= tag);
            assert(out.skip(8) =~= rest);
        }
    } else {
        lemma_render_inline_balanced(s.drop_first(), open);
        let c = s[0];
        let e = escape_spec(c);
        assert forall|i: int| 0 <= i < e.len() implies #[trigger] e[i] != '<' by {
            reveal_strlit("&amp;");
            reveal_strlit("&lt;");
            reveal_strlit("&gt;");
            reveal_strlit("&quot;");
            reveal_strlit("&#39;");
        }
        lemma_balanced_skip_plain(e, render_inline_from(s.drop_first(), open), open);
    }
}

/// Bold spans in rendered inline text are balanced: `<strong>` and
/// `</strong>` alternate, starting with `<strong>`, and a span left open by
/// an unpaired `**` is closed at the end.
pub proof fn law_inline_bold_balanced(s: Seq<char>)
    ensures
        strong_balanced(render_inline_spec(s), false),
{
    lemma_render_inline_balanced(s, false);
}

/// The number of occurrences of `tag` in `out` that do not overlap, found
/// from left to right (what `str::matches` counts).
pub open spec fn count_matches(out: Seq<char>, tag: Seq<char>) -> nat
    decreases out.len(),
{
    if tag.len() > 0 && starts_with(out, tag) {
        1 + count_matches(out.skip(tag.len() as int), tag)
    } else if out.len() == 0 {
        0
    } else {
        count_matches(out.drop_first(), tag)
    }
}

/// Text without `<` holds no occurrence of a tag.
proof fn lemma_count_skip_plain(p: Seq<char>, rest: Seq<char>, tag: Seq<char>)
    requires
        tag.len() > 0,
        tag[0] == '<',
        forall|j: int| 0 <= j < p.len() ==> #[trigger] p[j] != '<',
    ensures
        count_matches(p + rest, tag) == count_matches(rest, tag),
    decreases p.len(),
{
    let o = p + rest;
    if p.len() == 0 {
        assert(o =~= rest);
    } else {
        assert(o[0] == p[0]);
        assert(!starts_with(o, tag)) by {
            if starts_with(o, tag) {
                assert(o.subrange(0, tag.len() as int)[0] == o[0]);
            }
        }
        assert(o.drop_first() =~= p.drop_first() + rest);
        assert forall|j: int| 0 <= j < p.drop_first().len() implies #[trigger] p.drop_first()[j]
            != '<' by {
            assert(p.drop_first()[j] == p[j + 1]);
        }
        lemma_count_skip_plain(p.drop_first(), rest, tag);
    }
}

/// A tag at the start is counted once, and the other tag not at all.
proof fn lemma_count_tags(rest: Seq<char>)
    ensures
        count_matches("<strong>"@ + rest, "<strong>"@) == 1 + count_matches(rest, "<strong>"@),
        count_matches("</strong>"@ + rest, "</strong>"@) == 1 + count_matches(rest, "</strong>"@),
        count_matches("</strong>"@ + rest, "<strong>"@) == count_matches(rest, "<strong>"@),
        count_matches("<strong>"@ + rest, "</strong>"@) == count_matches(rest, "</strong>"@),
{
    reveal_strlit("<strong>");
    reveal_strlit("</strong>");
    let o = "<strong>"@;
    let c = "</strong>"@;
    assert((o + rest).subrange(0, 8) =~= o);
    assert((o + rest).skip(8) =~= rest);
    assert((c + rest).subrange(0, 9) =~= c);
    assert((c + rest).skip(9) =~= rest);
    assert(!starts_with(c + rest, o)) by {
        assert((c + rest).subrange(0, 8)[1] == '/');
    }
    assert((c + rest).drop_first() =~= c.drop_first() + rest);
    assert forall|j: int| 0 <= j < c.drop_first().len() implies #[trigger] c.drop_first()[j]
        != '<' by {}
    lemma_count_skip_plain(c.drop_first(), rest, o);
    assert(!starts_with(o + rest, c)) by {
        if starts_with(o + rest, c) {
            assert((o + rest).subrange(0, 9)[1] == 's');
        }
    }
    assert((o + rest).drop_first() =~= o.drop_first() + rest);
    assert forall|j: int| 0 <= j < o.drop_first().len() implies #[trigger] o.drop_first()[j]
        != '<' by {}
    lemma_count_skip_plain(o.drop_first(), rest, c);
}

proof fn lemma_render_inline_counts(s: Seq<char>, open: bool)
    ensures
        count_matches(render_inline_from(s, open), "<strong>"@) + (if open {
            1int
        } else {
            0int
        }) == count_matches(render_inline_from(s, open), "</strong>"@),
    decreases s.len(),
{
    reveal_strlit("<strong>");
    reveal_strlit("</strong>");
    let r = render_inline_from(s, open);
    if s.len() == 0 {
        if open {
            lemma_count_tags(Seq::<char>::empty());
            assert("</strong>"@ + Seq::<char>::empty() =~= "</strong>"@);
        } else {
            assert(count_matches(r, "<strong>"@) == 0);
            assert(count_matches(r, "</strong>"@) == 0);
        }
    } else if s.len() >= 2 && s[0] == '*' && s[1] == '*' {
        lemma_render_inline_counts(s.skip(2), !open);
        lemma_count_tags(render_inline_from(s.skip(2), !open));
    } else {
        let rest = render_inline_from(s.drop_first(), open);
        lemma_render_inline_counts(s.drop_first(), open);
        let e = escape_spec(s[0]);
        reveal_strlit("&amp;");
        reveal_strlit("&lt;");
        reveal_strlit("&gt;");
        reveal_strlit("&quot;");
        reveal_strlit("&#39;");
        assert forall|j: int| 0 <= j < e.len() implies #[trigger] e[j] != '<' by {}
        lemma_count_skip_plain(e, rest, "<strong>"@);
        lemma_count_skip_plain(e, rest, "</strong>"@);
    }
}

/// Rendered inline text holds as many `<strong>` tags as `</strong>` tags,
/// counted as `str::matches` counts them.
pub proof fn law_inline_bold_counts(s: Seq<char>)
    ensures
        count_matches(render_inline_spec(s), "<strong>"@) == count_matches(
            render_inline_spec(s),
            "</strong>"@,
        ),
{
    lemma_render_inline_counts(s, false);
}

/// Every rendered node wraps the inline rendering of its text (bold spans
/// and escaping) in its tags: a heading of level `n` is `<hn>`, its rendered
/// text and `</hn>`; a paragraph is `<p>`, its rendered text and `</p>`; a
/// list is `<ul>`, each item as `<li>`, its rendered text and `</li>`, then
/// `</ul>`. What stands between the tags is escaped markup whose bold tags
/// balance.
pub proof fn law_node_html(n: NodeModel)
    ensures
        match n {
            NodeModel::Heading { level, text } => {
                &&& render_node_spec(n) == "<h"@ + decimal(level) + ">"@ + render_inline_spec(text)
                    + "</h"@ + decimal(level) + ">"@
                &&& markup_safe(render_inline_spec(text))
                &&& strong_balanced(render_inline_spec(text), false)
            },
            NodeModel::Paragraph(text) => {
                &&& render_node_spec(n) == "<p>"@ + render_inline_spec(text) + "</p>"@
                &&& markup_safe(render_inline_spec(text))
                &&& strong_balanced(render_inline_spec(text), false)
            },
            NodeModel::List(items) => {
                &&& render_node_spec(n) == "<ul>"@ + join(
                    items.map_values(|item: Seq<char>| render_item_spec(item)),
                    ""@,
                ) + "</ul>"@
                &&& forall|i: int|
                    0 <= i < items.len() ==> {
                        &&& #[trigger] render_item_spec(items[i]) == "<li>"@ + render_inline_spec(
                            items[i],
                        ) + "</li>"@
                        &&& markup_safe(render_inline_spec(items[i]))
                        &&& strong_balanced(render_inline_spec(items[i]), false)
                    }
            },
        },
{
    match n {
        NodeModel::Heading { level, text } => {
            law_inline_html_escaped(text);
            law_inline_bold_balanced(text);
        },
        NodeModel::Paragraph(text) => {
            law_inline_html_escaped(text);
            law_inline_bold_balanced(text);
        },
        NodeModel::List(items) => {
            assert forall|i: int| 0 <= i < items.len() implies markup_safe(
                render_inline_spec(#[trigger] items[i]),
            ) && strong_balanced(render_inline_spec(items[i]), false) by {
                law_inline_html_escaped(items[i]);
                law_inline_bold_balanced(items[i]);
            }
        },
    }
}

/// A document of one heading line, `n` `#` (one to six), a space and text
/// that is its own trim, renders as that heading: `<hn>`, the inline
/// rendering of the text, `</hn>`.
pub proof fn law_heading_document(n: nat, text: Seq<char>)
    requires
        1 <= n <= 6,
        text.len() > 0,
        trim(text) == text,
        no_line_feed(text),
    ensures
        parse_document_spec(Seq::new(n, |i: int| '#') + seq![' '] + text) == seq![
            NodeModel::Heading { level: n, text },
        ],
        parse_markdown_spec(Seq::new(n, |i: int| '#') + seq![' '] + text) == "<h"@ + decimal(n)
            + ">"@ + render_inline_spec(text) + "</h"@ + decimal(n) + ">"@,
{
    let line = Seq::new(n, |i: int| '#') + seq![' '] + text;
    lemma_heading_line(n, text);
    lemma_single_line(line);
    let st0 = DocState { nodes: seq![], paragraph: seq![], items: seq![] };
    assert(lines(line) == seq![line]);
    assert(seq![line].drop_last() =~= Seq::<Seq<char>>::empty());
    assert(seq![line].last() == line);
    assert(run_spec(Seq::<Seq<char>>::empty()) =~= st0);
    assert(run_spec(seq![line]) == step_spec(run_spec(seq![line].drop_last()), line));
    assert(run_spec(seq![line]) == step_spec(st0, line));
    let nodes = seq![NodeModel::Heading { level: n, text }];
    assert(parse_document_spec(line) =~= nodes);
    let parts = nodes.map_values(|m: NodeModel| render_node_spec(m));
    assert(parts.len() == 1);
    assert(parts[0] == render_node_spec(nodes[0]));
}

proof fn lemma_heading_line(n: nat, text: Seq<char>)
    requires
        1 <= n <= 6,
        text.len() > 0,
        trim(text) == text,
    ensures
        trim(Seq::new(n, |i: int| '#') + seq![' '] + text) == Seq::new(n, |i: int| '#') + seq![' ']
            + text,
        heading_spec(Seq::new(n, |i: int| '#') + seq![' '] + text) == Some((n, text)),
{
    let line = Seq::new(n, |i: int| '#') + seq![' '] + text;
    lemma_trim_ends(text);
    lemma_trim_ends(trim_start(text));
    assert(text[0] == trim_start(text)[0]);
    assert(!is_white_space(text[0]));
    assert(!is_white_space(text.last()));
    assert(line[0] == '#');
    assert(line.last() == text.last());
    assert(trim_start(line) == line);
    assert(trim_end(line) == line);
    assert(line[n as int] == ' ');
    lemma_leading_hashes_run(line, n as int);
    assert(line.skip(n as int) =~= seq![' '] + text);
    assert((seq![' '] + text).drop_first() =~= text);
    assert(trim_start(seq![' '] + text) == trim_start(text));
}

/// The scanner's state after the given lines, from state `st`.
pub open spec fn run_from(st: DocState, ls: Seq<Seq<char>>) -> DocState
    decreases ls.len(),
{
    if ls.len() == 0 {
        st
    } else {
        step_spec(run_from(st, ls.drop_last()), ls.last())
    }
}

proof fn lemma_run_from_start(ls: Seq<Seq<char>>)
    ensures
        run_spec(ls) == run_from(DocState { nodes: seq![], paragraph: seq![], items: seq![] }, ls),
    decreases ls.len(),
{
    if ls.len() > 0 {
        lemma_run_from_start(ls.drop_last());
    }
}

proof fn lemma_run_from_concat(st: DocState, a: Seq<Seq<char>>, b: Seq<Seq<char>>)
    ensures
        run_from(st, a + b) == run_from(run_from(st, a), b),
    decreases b.len(),
{
    if b.len() == 0 {
        assert(a + b =~= a);
    } else {
        lemma_run_from_concat(st, a, b.drop_last());
        assert((a + b).drop_last() =~= a + b.drop_last());
        assert((a + b).last() == b.last());
    }
}

/// Whether `l` is a list item line: `- ` or `* ` once trimmed.
pub open spec fn is_item_line(l: Seq<char>) -> bool {
    list_item_spec(trim(l)) is Some
}

/// The item of a list item line.
pub open spec fn item_of(l: Seq<char>) -> Seq<char> {
    list_item_spec(trim(l))->0
}

/// Whether `l` is a line of paragraph text: not blank, not a heading, not
/// a list item.
pub open spec fn is_text_line(l: Seq<char>) -> bool {
    trim(l).len() > 0 && heading_spec(trim(l)) is None && list_item_spec(trim(l)) is None
}

proof fn lemma_run_from_items(st: DocState, ls: Seq<Seq<char>>)
    requires
        ls.len() > 0,
        forall|i: int| 0 <= i < ls.len() ==> is_item_line(#[trigger] ls[i]),
    ensures
        run_from(st, ls) == (DocState {
            nodes: flush_paragraph_spec(st).nodes,
            paragraph: seq![],
            items: st.items + ls.map_values(|l: Seq<char>| item_of(l)),
        }),
    decreases ls.len(),
{
    let last = ls.last();
    assert(is_item_line(last)) by {
        assert(last == ls[ls.len() - 1]);
    }
    let line = trim(last);
    assert(line.len() >= 2);
    assert(leading_hashes(line) == 0);
    assert(heading_spec(line) is None);
    let init = ls.drop_last();
    let prev = run_from(st, init);
    let f = flush_paragraph_spec(prev);
    if ls.len() == 1 {
        assert(prev == st);
        assert(init.map_values(|l: Seq<char>| item_of(l)) =~= Seq::<Seq<char>>::empty());
        assert(st.items + init.map_values(|l: Seq<char>| item_of(l)) =~= st.items);
    } else {
        assert forall|i: int| 0 <= i < init.len() implies is_item_line(#[trigger] init[i]) by {
            assert(init[i] == ls[i]);
        }
        lemma_run_from_items(st, init);
    }
    assert(f.nodes == flush_paragraph_spec(st).nodes);
    assert(f.items == st.items + init.map_values(|l: Seq<char>| item_of(l)));
    assert(run_from(st, ls) == step_spec(prev, last));
    assert(step_spec(prev, last) == DocState { items: f.items.push(item_of(last)), ..f });
    assert(st.items + ls.map_values(|l: Seq<char>| item_of(l)) =~= f.items.push(item_of(last)));
    assert(run_from(st, ls) =~= (DocState {
        nodes: flush_paragraph_spec(st).nodes,
        paragraph: seq![],
        items: st.items + ls.map_values(|l: Seq<char>| item_of(l)),
    }));
}

proof fn lemma_run_from_texts(st: DocState, ls: Seq<Seq<char>>)
    requires
        ls.len() > 0,
        forall|i: int| 0 <= i < ls.len() ==> is_text_line(#[trigger] ls[i]),
    ensures
        run_from(st, ls) == (DocState {
            nodes: flush_list_spec(st).nodes,
            paragraph: st.paragraph + ls.map_values(|l: Seq<char>| trim(l)),
            items: seq![],
        }),
    decreases ls.len(),
{
    let last = ls.last();
    assert(is_text_line(last)) by {
        assert(last == ls[ls.len() - 1]);
    }
    let init = ls.drop_last();
    let prev = run_from(st, init);
    let f = flush_list_spec(prev);
    if ls.len() == 1 {
        assert(prev == st);
        assert(init.map_values(|l: Seq<char>| trim(l)) =~= Seq::<Seq<char>>::empty());
        assert(st.paragraph + init.map_values(|l: Seq<char>| trim(l)) =~= st.paragraph);
    } else {
        assert forall|i: int| 0 <= i < init.len() implies is_text_line(#[trigger] init[i]) by {
            assert(init[i] == ls[i]);
        }
        lemma_run_from_texts(st, init);
    }
    assert(f.nodes == flush_list_spec(st).nodes);
    assert(f.paragraph == st.paragraph + init.map_values(|l: Seq<char>| trim(l)));
    assert(run_from(st, ls) == step_spec(prev, last));
    assert(step_spec(prev, last) == DocState { paragraph: f.paragraph.push(trim(last)), ..f });
    assert(st.paragraph + ls.map_values(|l: Seq<char>| trim(l)) =~= f.paragraph.push(trim(last)));
    assert(run_from(st, ls) =~= (DocState {
        nodes: flush_list_spec(st).nodes,
        paragraph: st.paragraph + ls.map_values(|l: Seq<char>| trim(l)),
        items: seq![],
    }));
}

/// Blocks come out in document order, a change of block kind closing the
/// block before it: list item lines followed by lines of text parse to the
/// list of the items, then one paragraph of the trimmed text lines joined by
/// spaces.
pub proof fn law_list_then_text(items: Seq<Seq<char>>, texts: Seq<Seq<char>>)
    requires
        items.len() > 0,
        texts.len() > 0,
        forall|i: int| 0 <= i < items.len() ==> is_item_line(#[trigger] items[i]),
        forall|i: int| 0 <= i < texts.len() ==> is_text_line(#[trigger] texts[i]),
        forall|i: int| 0 <= i < items.len() ==> no_line_feed(#[trigger] items[i]),
        forall|i: int| 0 <= i < texts.len() ==> no_line_feed(#[trigger] texts[i]),
    ensures
        parse_document_spec(join(items + texts, "\n"@)) == seq![
            NodeModel::List(items.map_values(|l: Seq<char>| item_of(l))),
            NodeModel::Paragraph(join(texts.map_values(|l: Seq<char>| trim(l)), " "@)),
        ],
{
    let ls = items + texts;
    lemma_doc_lines(items, texts);
    let st0 = DocState { nodes: seq![], paragraph: seq![], items: seq![] };
    lemma_run_from_start(ls);
    lemma_run_from_concat(st0, items, texts);
    lemma_run_from_items(st0, items);
    let st1 = run_from(st0, items);
    assert(st0.items + items.map_values(|l: Seq<char>| item_of(l)) =~= items.map_values(
        |l: Seq<char>| item_of(l),
    ));
    lemma_run_from_texts(st1, texts);
    assert(st1.paragraph + texts.map_values(|l: Seq<char>| trim(l)) =~= texts.map_values(
        |l: Seq<char>| trim(l),
    ));
    assert(parse_document_spec(join(ls, "\n"@)) =~= seq![
        NodeModel::List(items.map_values(|l: Seq<char>| item_of(l))),
        NodeModel::Paragraph(join(texts.map_values(|l: Seq<char>| trim(l)), " "@)),
    ]);
}

/// Blocks come out in document order, a change of block kind closing the
/// block before it: lines of text followed by list item lines parse to one
/// paragraph of the trimmed text lines joined by spaces, then the list of the
/// items.
pub proof fn law_text_then_list(texts: Seq<Seq<char>>, items: Seq<Seq<char>>)
    requires
        items.len() > 0,
        texts.len() > 0,
        forall|i: int| 0 <= i < items.len() ==> is_item_line(#[trigger] items[i]),
        forall|i: int| 0 <= i < texts.len() ==> is_text_line(#[trigger] texts[i]),
        forall|i: int| 0 <= i < items.len() ==> no_line_feed(#[trigger] items[i]),
        forall|i: int| 0 <= i < texts.len() ==> no_line_feed(#[trigger] texts[i]),
    ensures
        parse_document_spec(join(texts + items, "\n"@)) == seq![
            NodeModel::Paragraph(join(texts.map_values(|l: Seq<char>| trim(l)), " "@)),
            NodeModel::List(items.map_values(|l: Seq<char>| item_of(l))),
        ],
{
    let ls = texts + items;
    lemma_doc_lines(texts, items);
    let st0 = DocState { nodes: seq![], paragraph: seq![], items: seq![] };
    lemma_run_from_start(ls);
    lemma_run_from_concat(st0, texts, items);
    lemma_run_from_texts(st0, texts);
    let st1 = run_from(st0, texts);
    assert(st0.paragraph + texts.map_values(|l: Seq<char>| trim(l)) =~= texts.map_values(
        |l: Seq<char>| trim(l),
    ));
    lemma_run_from_items(st1, items);
    assert(st1.items + items.map_values(|l: Seq<char>| item_of(l)) =~= items.map_values(
        |l: Seq<char>| item_of(l),
    ));
    assert(parse_document_spec(join(ls, "\n"@)) =~= seq![
        NodeModel::Paragraph(join(texts.map_values(|l: Seq<char>| trim(l)), " "@)),
        NodeModel::List(items.map_values(|l: Seq<char>| item_of(l))),
    ]);
}

/// The lines of two runs of lines joined by line feeds are those lines,
/// when the last one is not blank.
proof fn lemma_doc_lines(a: Seq<Seq<char>>, b: Seq<Seq<char>>)
    requires
        a.len() > 0,
        b.len() > 0,
        trim(b.last()).len() > 0,
        forall|i: int| 0 <= i < a.len() ==> no_line_feed(#[trigger] a[i]),
        forall|i: int| 0 <= i < b.len() ==> no_line_feed(#[trigger] b[i]),
    ensures
        lines(join(a + b, "\n"@)) == a + b,
{
    let ls = a + b;
    assert forall|i: int| 0 <= i < ls.len() implies no_line_feed(#[trigger] ls[i]) by {
        if i < a.len() {
            assert(ls[i] == a[i]);
        } else {
            assert(ls[i] == b[i - a.len()]);
        }
    }
    assert(ls.last() == b.last());
    assert(b.last().len() > 0) by {
        if b.last().len() == 0 {
            assert(trim_start(b.last()) == b.last());
            assert(trim(b.last()) == b.last());
        }
    }
    lemma_lines_of_join(ls);
}

/// The heading of a heading line (and, for a line that is no heading, an
/// empty paragraph).
pub open spec fn heading_of(l: Seq<char>) -> NodeModel {
    match heading_spec(trim(l)) {
        Some((level, text)) => NodeModel::Heading { level, text },
        None => NodeModel::Paragraph(seq![]),
    }
}

proof fn lemma_one_line(st: DocState, l: Seq<char>)
    ensures
        run_from(st, seq![l]) == step_spec(st, l),
{
    assert(seq![l].drop_last() =~= Seq::<Seq<char>>::empty());
    assert(seq![l].last() == l);
    assert(run_from(st, seq![l].drop_last()) == st);
    assert(run_from(st, seq![l]) == step_spec(run_from(st, seq![l].drop_last()), seq![l].last()));
}

proof fn lemma_heading_nonblank(l: Seq<char>)
    requires
        heading_spec(trim(l)) is Some,
    ensures
        trim(l).len() > 0,
{
}

/// A heading line closes the paragraph before it: lines of text followed by
/// a heading line parse to one paragraph of the trimmed text lines joined by
/// spaces, then the heading.
pub proof fn law_text_then_heading(texts: Seq<Seq<char>>, h: Seq<char>)
    requires
        texts.len() > 0,
        forall|i: int| 0 <= i < texts.len() ==> is_text_line(#[trigger] texts[i]),
        forall|i: int| 0 <= i < texts.len() ==> no_line_feed(#[trigger] texts[i]),
        heading_spec(trim(h)) is Some,
        no_line_feed(h),
    ensures
        parse_document_spec(join(texts.push(h), "\n"@)) == seq![
            NodeModel::Paragraph(join(texts.map_values(|l: Seq<char>| trim(l)), " "@)),
            heading_of(h),
        ],
{
    lemma_heading_nonblank(h);
    assert(texts + seq![h] =~= texts.push(h));
    lemma_doc_lines(texts, seq![h]);
    let st0 = DocState { nodes: seq![], paragraph: seq![], items: seq![] };
    lemma_run_from_start(texts.push(h));
    lemma_run_from_concat(st0, texts, seq![h]);
    lemma_run_from_texts(st0, texts);
    let st1 = run_from(st0, texts);
    assert(st0.paragraph + texts.map_values(|l: Seq<char>| trim(l)) =~= texts.map_values(
        |l: Seq<char>| trim(l),
    ));
    lemma_one_line(st1, h);
    assert(parse_document_spec(join(texts.push(h), "\n"@)) =~= seq![
        NodeModel::Paragraph(join(texts.map_values(|l: Seq<char>| trim(l)), " "@)),
        heading_of(h),
    ]);
}

/// A heading line closes the list before it: list item lines followed by a
/// heading line parse to the list of the items, then the heading.
pub proof fn law_list_then_heading(items: Seq<Seq<char>>, h: Seq<char>)
    requires
        items.len() > 0,
        forall|i: int| 0 <= i < items.len() ==> is_item_line(#[trigger] items[i]),
        forall|i: int| 0 <= i < items.len() ==> no_line_feed(#[trigger] items[i]),
        heading_spec(trim(h)) is Some,
        no_line_feed(h),
    ensures
        parse_document_spec(join(items.push(h), "\n"@)) == seq![
            NodeModel::List(items.map_values(|l: Seq<char>| item_of(l))),
            heading_of(h),
        ],
{
    lemma_heading_nonblank(h);
    assert(items + seq![h] =~= items.push(h));
    lemma_doc_lines(items, seq![h]);
    let st0 = DocState { nodes: seq![], paragraph: seq![], items: seq![] };
    lemma_run_from_start(items.push(h));
    lemma_run_from_concat(st0, items, seq![h]);
    lemma_run_from_items(st0, items);
    let st1 = run_from(st0, items);
    assert(st0.items + items.map_values(|l: Seq<char>| item_of(l)) =~= items.map_values(
        |l: Seq<char>| item_of(l),
    ));
    lemma_one_line(st1, h);
    assert(parse_document_spec(join(items.push(h), "\n"@)) =~= seq![
        NodeModel::List(items.map_values(|l: Seq<char>| item_of(l))),
        heading_of(h),
    ]);
}

/// A blank line ends a paragraph: two runs of text lines with a blank line
/// between them parse to two paragraphs, in order.
pub proof fn law_blank_line_splits_paragraphs(
    first: Seq<Seq<char>>,
    blank: Seq<char>,
    second: Seq<Seq<char>>,
)
    requires
        first.len() > 0,
        second.len() > 0,
        forall|i: int| 0 <= i < first.len() ==> is_text_line(#[trigger] first[i]),
        forall|i: int| 0 <= i < second.len() ==> is_text_line(#[trigger] second[i]),
        forall|i: int| 0 <= i < first.len() ==> no_line_feed(#[trigger] first[i]),
        forall|i: int| 0 <= i < second.len() ==> no_line_feed(#[trigger] second[i]),
        trim(blank).len() == 0,
        no_line_feed(blank),
    ensures
        parse_document_spec(join(first.push(blank) + second, "\n"@)) == seq![
            NodeModel::Paragraph(join(first.map_values(|l: Seq<char>| trim(l)), " "@)),
            NodeModel::Paragraph(join(second.map_values(|l: Seq<char>| trim(l)), " "@)),
        ],
{
    let a = first.push(blank);
    assert forall|i: int| 0 <= i < a.len() implies no_line_feed(#[trigger] a[i]) by {
        if i < first.len() {
            assert(a[i] == first[i]);
        }
    }
    assert(second.last() == second[second.len() - 1]);
    lemma_doc_lines(a, second);
    let st0 = DocState { nodes: seq![], paragraph: seq![], items: seq![] };
    lemma_run_from_start(a + second);
    lemma_run_from_concat(st0, a, second);
    assert(first + seq![blank] =~= a);
    lemma_run_from_concat(st0, first, seq![blank]);
    lemma_run_from_texts(st0, first);
    let st1 = run_from(st0, first);
    assert(st0.paragraph + first.map_values(|l: Seq<char>| trim(l)) =~= first.map_values(
        |l: Seq<char>| trim(l),
    ));
    lemma_one_line(st1, blank);
    let st2 = run_from(st0, a);
    lemma_run_from_texts(st2, second);
    assert(st2.paragraph + second.map_values(|l: Seq<char>| trim(l)) =~= second.map_values(
        |l: Seq<char>| trim(l),
    ));
    assert(parse_document_spec(join(a + second, "\n"@)) =~= seq![
        NodeModel::Paragraph(join(first.map_values(|l: Seq<char>| trim(l)), " "@)),
        NodeModel::Paragraph(join(second.map_values(|l: Seq<char>| trim(l)), " "@)),
    ]);
}

} // verus!
