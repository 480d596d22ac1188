//! The syntax tree of the markdown front end. Text is borrowed from the
//! document (`'a`).
//!
//! | syntax          | markdown       |
//! |-----------------|----------------|
//! | heading         | `#` `##` `###` |
//! | paragraph       | plain text     |
//! | bold            | `**text**`     |
//! | inline code     | `` `code` ``   |
//! | code block      | ` ``` `        |
//! | unordered list  | `-`            |
//! | ordered list    | `1.`           |
//! | quote           | `>`            |
//! | link            | `[text](url)`  |
//! | horizontal rule | `---`          |
//! | italic          | `*text*`       |
//! | image           | `![]()`        |
//! | strike-through  | `~~text~~`     |
//! | table           | `\|`           |
use vstd::prelude::*;

verus! {

/// What a single line of a document is.
#[derive(Debug, PartialEq, Eq)]
pub enum LineType<'a> {
    Heading { level: u64, text: &'a str },
    CodeBlockStart { language: &'a str },
    CodeBlockEnd,
    UnorderedList { text: &'a str, indent: u64 },
    OrderedList { text: &'a str },
    Quote { text: &'a str },
    HorizontalRule,
    /// Cells separated by `|`; whether this is a table depends on the lines
    /// around it.
    TableRowLike { columns: Vec<&'a str> },
    BlankLine,
    Other { text: &'a str },
}

/// An item of a list, with the items nested under it.
pub struct ListItem<'a> {
    pub children: Vec<Inline<'a>>,
    pub nested: Vec<ListItem<'a>>,
}

/// A cell of a table.
pub struct TableCell<'a> {
    pub children: Vec<Inline<'a>>,
}

/// A row of a table.
pub struct TableRow<'a> {
    pub cells: Vec<TableCell<'a>>,
}

/// An inline element.
#[derive(Debug, PartialEq, Eq)]
pub enum Inline<'a> {
    Bold { children: Vec<Inline<'a>> },
    Italic { children: Vec<Inline<'a>> },
    Text { text: &'a str },
    Strikethrough { children: Vec<Inline<'a>> },
    InlineCode { text: &'a str },
    Image { alt: &'a str, url: &'a str },
    Link { children: Vec<Inline<'a>>, url: &'a str },
}

/// A block of a document.
pub enum Block<'a> {
    Heading { level: u64, text: &'a str },
    Paragraph { children: Vec<Inline<'a>> },
    CodeBlock { language: &'a str, code: &'a str },
    List { order: bool, children: Vec<ListItem<'a>> },
    Quote { children: Vec<Inline<'a>> },
    HorizontalRule,
    Table { children: Vec<TableRow<'a>> },
}

/// A whole document.
pub struct Ast<'a> {
    pub children: Vec<Block<'a>>,
}

/// The mathematical form of a [`LineType`].
pub enum LineModel {
    Heading { level: nat, text: Seq<char> },
    CodeBlockStart { language: Seq<char> },
    CodeBlockEnd,
    UnorderedList { text: Seq<char>, indent: nat },
    OrderedList { text: Seq<char> },
    Quote { text: Seq<char> },
    HorizontalRule,
    TableRowLike { columns: Seq<Seq<char>> },
    BlankLine,
    Other { text: Seq<char> },
}

impl<'a> View for LineType<'a> {
    type V = LineModel;

    open spec fn view(&self) -> LineModel {
        match self {
            LineType::Heading { level, text } => LineModel::Heading { level: *level as nat, text: text@ },
            LineType::CodeBlockStart { language } => LineModel::CodeBlockStart { language: language@ },
            LineType::CodeBlockEnd => LineModel::CodeBlockEnd,
            LineType::UnorderedList { text, indent } => LineModel::UnorderedList {
                text: text@,
                indent: *indent as nat,
            },
            LineType::OrderedList { text } => LineModel::OrderedList { text: text@ },
            LineType::Quote { text } => LineModel::Quote { text: text@ },
            LineType::HorizontalRule => LineModel::HorizontalRule,
            LineType::TableRowLike { columns } => LineModel::TableRowLike {
                columns: columns@.map_values(|c: &str| c@),
            },
            LineType::BlankLine => LineModel::BlankLine,
            LineType::Other { text } => LineModel::Other { text: text@ },
        }
    }
}

/// The mathematical form of an [`Inline`].
pub enum InlineModel {
    Bold { children: Seq<InlineModel> },
    Italic { children: Seq<InlineModel> },
    Text { text: Seq<char> },
    Strikethrough { children: Seq<InlineModel> },
    InlineCode { text: Seq<char> },
    Image { alt: Seq<char>, url: Seq<char> },
    Link { children: Seq<InlineModel>, url: Seq<char> },
}

/// The mathematical form of an inline element.
pub open spec fn inline_view(i: Inline) -> InlineModel
    decreases i,
{
    match i {
        Inline::Bold { children } => InlineModel::Bold { children: inlines_view(children@) },
        Inline::Italic { children } => InlineModel::Italic { children: inlines_view(children@) },
        Inline::Text { text } => InlineModel::Text { text: text@ },
        Inline::Strikethrough { children } => InlineModel::Strikethrough {
            children: inlines_view(children@),
        },
        Inline::InlineCode { text } => InlineModel::InlineCode { text: text@ },
        Inline::Image { alt, url } => InlineModel::Image { alt: alt@, url: url@ },
        Inline::Link { children, url } => InlineModel::Link {
            children: inlines_view(children@),
            url: url@,
        },
    }
}

/// The mathematical form of a sequence of inline elements.
pub open spec fn inlines_view(v: Seq<Inline>) -> Seq<InlineModel>
    decreases v,
{
    if v.len() == 0 {
        seq![]
    } else {
        inlines_view(v.drop_last()).push(inline_view(v.last()))
    }
}

} // verus!
