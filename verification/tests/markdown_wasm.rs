use rs_practice::markdown_wasm::{parse_document, render_inline, Node};
use rs_practice::parse_markdown;

#[test]
fn parses_heading_and_paragraph() {
    let html = parse_markdown("# Hello Rust\n\nRust is fast.");
    assert_eq!(html, "<h1>Hello Rust</h1>\n<p>Rust is fast.</p>");
}

#[test]
fn parses_list_and_bold_text() {
    let html = parse_markdown("- **safe**\n- fast");
    assert_eq!(html, "<ul><li><strong>safe</strong></li><li>fast</li></ul>");
}

#[test]
fn escapes_html() {
    let html = parse_markdown("<script>");
    assert_eq!(html, "<p>&lt;script&gt;</p>");
}

#[test]
fn paragraph_lines_are_joined_and_blocks_flushed() {
    let nodes = parse_document("one\n  two  \n* a\n- b\n### Deep   title\nthree\n\n\nfour");
    assert_eq!(
        nodes,
        vec![
            Node::Paragraph("one two".to_string()),
            Node::List(vec!["a".to_string(), "b".to_string()]),
            Node::Heading { level: 3, text: "Deep   title".to_string() },
            Node::Paragraph("three".to_string()),
            Node::Paragraph("four".to_string()),
        ]
    );
}

#[test]
fn heading_limits() {
    assert_eq!(parse_markdown("###### six"), "<h6>six</h6>");
    assert_eq!(parse_markdown("####### seven"), "<p>####### seven</p>");
    assert_eq!(parse_markdown("#"), "<p>#</p>");
    assert_eq!(parse_markdown("#tight"), "<h1>tight</h1>");
}

#[test]
fn empty_document_renders_nothing() {
    assert_eq!(parse_markdown(""), "");
    assert_eq!(parse_markdown("\n \n\t\n"), "");
}

#[test]
fn inline_escaping_and_unclosed_bold() {
    assert_eq!(
        render_inline("a & b < c > d \" e ' f"),
        "a &amp; b &lt; c &gt; d &quot; e &#39; f"
    );
    assert_eq!(render_inline("**open"), "<strong>open</strong>");
    assert_eq!(render_inline("*single*"), "*single*");
    assert_eq!(render_inline("***"), "<strong>*</strong>");
}

#[test]
fn crlf_lines_are_trimmed() {
    assert_eq!(parse_markdown("# Title\r\nbody\r\n"), "<h1>Title</h1>\n<p>body</p>");
}

#[test]
fn bold_tags_alternate_and_close() {
    assert_eq!(
        render_inline("**a**b**"),
        "<strong>a</strong>b<strong></strong>"
    );
    assert_eq!(
        parse_markdown("* **x\n- <b>**y**"),
        "<ul><li><strong>x</strong></li><li>&lt;b&gt;<strong>y</strong></li></ul>"
    );
}

#[test]
fn blank_documents_have_no_nodes() {
    assert_eq!(parse_document(""), vec![]);
    assert_eq!(parse_document(" \t\n\r\n\u{a0}\n"), vec![]);
}

#[test]
fn node_texts_hold_no_line_feed() {
    let nodes = parse_document("a\nb\r\nc\n- x\n# h\n");
    assert_eq!(
        nodes,
        vec![
            Node::Paragraph("a b c".to_string()),
            Node::List(vec!["x".to_string()]),
            Node::Heading { level: 1, text: "h".to_string() },
        ]
    );
}

#[test]
fn entities_are_not_reescaped_as_markup() {
    assert_eq!(render_inline("&amp; <b>"), "&amp;amp; &lt;b&gt;");
    assert_eq!(render_inline("x**>**"), "x<strong>&gt;</strong>");
}

#[test]
fn strong_tags_are_counted_alike() {
    let html = render_inline("**a** **b** **c");
    assert_eq!(html, "<strong>a</strong> <strong>b</strong> <strong>c</strong>");
    assert_eq!(html.matches("<strong>").count(), html.matches("</strong>").count());
}
