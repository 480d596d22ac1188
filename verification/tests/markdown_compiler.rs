use rs_practice::markdown_wasm::compiler::block_parser::parse_block;
use rs_practice::markdown_wasm::compiler::common::{Inline, LineType};
use rs_practice::markdown_wasm::compiler::inline_parser::{handle_link_like, parse_inline};
use rs_practice::markdown_wasm::compiler::line_scanner::scan_line;
use rs_practice::markdown_wasm::compiler::md2html::generate_html;

#[test]
fn scan_line_classifies_each_line() {
    let doc = "# Title\n\n- item\n> quote\n1.\n1. text\n---\n#x\n| a |\n plain \n##  two";
    assert_eq!(
        scan_line(doc),
        vec![
            LineType::Heading { level: 1, text: " Title" },
            LineType::BlankLine,
            LineType::UnorderedList { text: "item", indent: 0 },
            LineType::Quote { text: " quote" },
            LineType::OrderedList { text: "" },
            LineType::OrderedList { text: " text" },
            LineType::HorizontalRule,
            LineType::Other { text: "#x" },
            LineType::Other { text: "| a |" },
            LineType::Other { text: "plain" },
            LineType::Heading { level: 2, text: "  two" },
        ]
    );
    assert_eq!(scan_line(""), vec![]);
    assert_eq!(scan_line("12.3.\n>x"), vec![LineType::OrderedList { text: "3." }, LineType::Other { text: ">x" }]);
    assert_eq!(scan_line("---\n- - -"), vec![LineType::HorizontalRule, LineType::HorizontalRule]);
    assert_eq!(
        scan_line("1. first\n12. twelfth\n1x. no"),
        vec![
            LineType::OrderedList { text: " first" },
            LineType::OrderedList { text: " twelfth" },
            LineType::Other { text: "1x. no" },
        ]
    );
    assert_eq!(
        scan_line("--\n- -x"),
        vec![LineType::Other { text: "--" }, LineType::UnorderedList { text: "-x", indent: 0 }]
    );
}

#[test]
fn parse_inline_plain_and_links() {
    assert_eq!(parse_inline("abc"), vec![Inline::Text { text: "abc" }]);
    assert_eq!(parse_inline("x*y"), vec![Inline::Text { text: "x*y" }]);
    assert_eq!(parse_inline("*ab"), vec![Inline::Text { text: "*ab" }]);
    assert_eq!(parse_inline(""), vec![]);
    assert_eq!(parse_inline("é"), vec![Inline::Text { text: "é" }]);
    assert_eq!(
        parse_inline("[a](b)"),
        vec![Inline::Link { children: vec![Inline::Text { text: "a" }], url: "b" }]
    );
    assert_eq!(
        parse_inline("[a](u)x"),
        vec![
            Inline::Link { children: vec![Inline::Text { text: "a" }], url: "u" },
            Inline::Text { text: "x" },
        ]
    );
    assert_eq!(parse_inline("![i](u)"), vec![Inline::Image { alt: "i", url: "u" }]);
    assert_eq!(
        parse_inline("see ![i](u) and [**b**](v)"),
        vec![
            Inline::Text { text: "see " },
            Inline::Image { alt: "i", url: "u" },
            Inline::Text { text: " and " },
            Inline::Link { children: vec![Inline::Bold { children: vec![Inline::Text { text: "b" }] }], url: "v" },
        ]
    );
}

#[test]
fn parse_inline_spans() {
    assert_eq!(
        parse_inline("a**b**"),
        vec![Inline::Text { text: "a" }, Inline::Bold { children: vec![Inline::Text { text: "b" }] }]
    );
    assert_eq!(
        parse_inline("a ~~b~~ `c`"),
        vec![
            Inline::Text { text: "a " },
            Inline::Strikethrough { children: vec![Inline::Text { text: "b" }] },
            Inline::Text { text: " " },
            Inline::InlineCode { text: "c" },
        ]
    );
    assert_eq!(parse_inline("*ab*"), vec![Inline::Italic { children: vec![Inline::Text { text: "ab" }] }]);
    assert_eq!(
        parse_inline("**a *b* c**!"),
        vec![
            Inline::Bold {
                children: vec![
                    Inline::Text { text: "a " },
                    Inline::Italic { children: vec![Inline::Text { text: "b" }] },
                    Inline::Text { text: " c" },
                ]
            },
            Inline::Text { text: "!" },
        ]
    );
    assert_eq!(parse_inline("**open"), vec![Inline::Text { text: "**open" }]);
    assert_eq!(parse_inline("`é`"), vec![Inline::InlineCode { text: "é" }]);
}

#[test]
fn handle_link_like_lengths() {
    assert_eq!(
        handle_link_like("[ab](cd) tail", true),
        (Some(Inline::Link { children: vec![Inline::Text { text: "ab" }], url: "cd" }), 8)
    );
    assert_eq!(
        handle_link_like("[a](u)x", true),
        (Some(Inline::Link { children: vec![Inline::Text { text: "a" }], url: "u" }), 6)
    );
    assert_eq!(
        handle_link_like("[*a*](u)", false),
        (Some(Inline::Link { children: vec![Inline::Text { text: "*a*" }], url: "u" }), 8)
    );
    assert_eq!(handle_link_like("[ab] (cd)", true), (None, 0));
    assert_eq!(handle_link_like("ab](cd)", false), (None, 0));
    assert_eq!(handle_link_like("[ab](cd", false), (None, 0));
}

#[test]
fn block_parser_is_empty_and_generator_gives_placeholder() {
    assert!(parse_block(scan_line("# a\ntext")).children.is_empty());
    assert_eq!(generate_html("# a"), "<p>TODO: implement markdown parser by hand</p>");
    assert_eq!(generate_html(""), generate_html("- x\n1. y"));
}

#[test]
fn returns_placeholder_html() {
    let html = generate_html("# Hello Rust");
    assert!(html.contains("TODO"));
}

#[test]
fn link_like_takes_text_and_url_up_to_first_brackets() {
    assert_eq!(
        handle_link_like("[a](b)c)", true),
        (Some(Inline::Link { children: vec![Inline::Text { text: "a" }], url: "b" }), 6)
    );
    assert_eq!(
        handle_link_like("[a]](b)", true),
        (None, 0)
    );
}
