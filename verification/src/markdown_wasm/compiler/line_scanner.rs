//! The line classifier: each line of a document, without surrounding white
//! space, is given a [`LineType`].
use vstd::prelude::*;

use super::common::{LineModel, LineType};
use crate::markdown_wasm::{leading_hashes, lemma_leading_hashes_run};
use crate::text::{lines, lines_of, str_chars, strs_view, trim, trim_str};

verus! {

/// Whether `c` is one of `0` to `9`.
pub open spec fn is_ascii_digit(c: char) -> bool {
    '0' <= c && c <= '9'
}

/// The number of digits that `s` starts with.
pub open spec fn leading_digits(s: Seq<char>) -> nat
    decreases s.len(),
{
    if s.len() > 0 && is_ascii_digit(s[0]) {
        1 + leading_digits(s.drop_first())
    } else {
        0
    }
}

/// The number of `-` in `s`.
pub open spec fn dash_count(s: Seq<char>) -> nat
    decreases s.len(),
{
    if s.len() == 0 {
        0
    } else {
        dash_count(s.drop_last()) + if s.last() == '-' {
            1nat
        } else {
            0nat
        }
    }
}

/// A horizontal rule: only dashes and spaces, at least three dashes.
pub open spec fn is_rule(line: Seq<char>) -> bool {
    &&& forall|j: int| 0 <= j < line.len() ==> #[trigger] line[j] == '-' || line[j] == ' '
    &&& dash_count(line) >= 3
}

proof fn lemma_leading_digits_run(s: Seq<char>, n: int)
    requires
        0 <= n <= s.len(),
        forall|j: int| 0 <= j < n ==> is_ascii_digit(#[trigger] s[j]),
        n == s.len() || !is_ascii_digit(s[n]),
    ensures
        leading_digits(s) == n,
    decreases n,
{
    if n > 0 {
        lemma_leading_digits_run(s.drop_first(), n - 1);
    }
}

/// What a trimmed line is.
/// - empty: a blank line;
/// - `#` followed by more `#` and then a space: a heading whose level is the
///   number of `#` and whose text starts at that space;
/// - `-`, then only dashes and spaces with at least three dashes in all: a
///   horizontal rule;
/// - otherwise `- ` and text: an unordered list item;
/// - `> `: a quote whose text starts at the space;
/// - digits then `.`: an ordered list item whose text is what follows the
///   `.`;
/// - anything else: other text, the whole line.
pub open spec fn classify_line(line: Seq<char>) -> LineModel {
    if line.len() == 0 {
        LineModel::BlankLine
    } else if line[0] == '#' {
        if leading_hashes(line) < line.len() && line[leading_hashes(line) as int] == ' ' {
            LineModel::Heading {
                level: leading_hashes(line),
                text: line.skip(leading_hashes(line) as int),
            }
        } else {
            LineModel::Other { text: line }
        }
    } else if line[0] == '-' {
        if is_rule(line) {
            LineModel::HorizontalRule
        } else if line.len() >= 2 && line[1] == ' ' {
            LineModel::UnorderedList { text: line.skip(2), indent: 0 }
        } else {
            LineModel::Other { text: line }
        }
    } else if line[0] == '>' {
        if line.len() >= 2 && line[1] == ' ' {
            LineModel::Quote { text: line.skip(1) }
        } else {
            LineModel::Other { text: line }
        }
    } else if is_ascii_digit(line[0]) {
        if leading_digits(line) < line.len() && line[leading_digits(line) as int] == '.' {
            LineModel::OrderedList { text: line.skip(leading_digits(line) as int + 1) }
        } else {
            LineModel::Other { text: line }
        }
    } else {
        LineModel::Other { text: line }
    }
}

/// The classification of every line of a document.
pub open spec fn scan_spec(md: Seq<char>) -> Seq<LineModel> {
    lines(md).map_values(|l: Seq<char>| classify_line(trim(l)))
}

/// The views of a sequence of line classifications.
pub open spec fn line_types_view(v: Seq<LineType>) -> Seq<LineModel> {
    v.map_values(|l: LineType| l@)
}

/// Classifies one trimmed line.
pub fn classify<'a>(line: &'a str) -> (t: LineType<'a>)
    ensures
        t@ == classify_line(line@),
{
    let chars = str_chars(line);
    let n = chars.len();
    if n == 0 {
        return LineType::BlankLine;
    }
    let first = chars[0];
    if first == '#' {
        let mut h: usize = 1;
        while h < n && chars[h] == '#'
            invariant
                1 <= h <= n,
                n == chars@.len(),
                chars@ == line@,
                forall|j: int| 0 <= j < h ==> #[trigger] chars@[j] == '#',
            decreases n - h,
        {
            h = h + 1;
        }
        proof {
            lemma_leading_hashes_run(line@, h as int);
        }
        if h < n && chars[h] == ' ' {
            let text = line.substring_char(h, n);
            assert(text@ =~= line@.skip(h as int));
            LineType::Heading { level: h as u64, text }
        } else {
            LineType::Other { text: line }
        }
    } else if first == '-' {
        let mut only = true;
        let mut dashes: usize = 0;
        let mut k: usize = 0;
        while k < n
            invariant
                0 <= k <= n,
                n == chars@.len(),
                chars@ == line@,
                dashes == dash_count(line@.take(k as int)),
                dashes <= k,
                only == (forall|j: int| 0 <= j < k ==> #[trigger] line@[j] == '-' || line@[j] == ' '),
            decreases n - k,
        {
            let c = chars[k];
            assert(line@.take(k + 1).drop_last() =~= line@.take(k as int));
            assert(line@.take(k + 1).last() == c);
            if c == '-' {
                dashes = dashes + 1;
            } else if c != ' ' {
                only = false;
            }
            k = k + 1;
        }
        assert(line@.take(n as int) =~= line@);
        if only && dashes >= 3 {
            LineType::HorizontalRule
        } else if n >= 2 && chars[1] == ' ' {
            let text = line.substring_char(2, n);
            assert(text@ =~= line@.skip(2));
            LineType::UnorderedList { indent: 0, text }
        } else {
            LineType::Other { text: line }
        }
    } else if first == '>' {
        if n >= 2 && chars[1] == ' ' {
            let text = line.substring_char(1, n);
            assert(text@ =~= line@.skip(1));
            LineType::Quote { text }
        } else {
            LineType::Other { text: line }
        }
    } else if '0' <= first && first <= '9' {
        let mut d: usize = 1;
        while d < n && '0' <= chars[d] && chars[d] <= '9'
            invariant
                1 <= d <= n,
                n == chars@.len(),
                chars@ == line@,
                forall|j: int| 0 <= j < d ==> is_ascii_digit(#[trigger] line@[j]),
            decreases n - d,
        {
            d = d + 1;
        }
        proof {
            lemma_leading_digits_run(line@, d as int);
        }
        if d < n && chars[d] == '.' {
            let text = line.substring_char(d + 1, n);
            assert(text@ =~= line@.skip(d + 1));
            LineType::OrderedList { text }
        } else {
            LineType::Other { text: line }
        }
    } else {
        LineType::Other { text: line }
    }
}

/// Classifies every line of a document.
pub fn scan_line(md: &str) -> (tokens: Vec<LineType<'_>>)
    ensures
        line_types_view(tokens@) == scan_spec(md@),
{
    let raw_lines = lines_of(md);
    let ghost ls = strs_view(raw_lines@);
    let mut tokens: Vec<LineType> = Vec::new();
    let mut i: usize = 0;
    while i < raw_lines.len()
        invariant
            0 <= i <= raw_lines.len(),
            ls == strs_view(raw_lines@),
            ls == lines(md@),
            line_types_view(tokens@) == ls.take(i as int).map_values(
                |l: Seq<char>| classify_line(trim(l)),
            ),
        decreases raw_lines.len() - i,
    {
        let line = trim_str(raw_lines[i]);
        let t = classify(line);
        let ghost before = tokens@;
        tokens.push(t);
        assert(line_types_view(tokens@) =~= ls.take(i + 1).map_values(
            |l: Seq<char>| classify_line(trim(l)),
        )) by {
            assert(line_types_view(tokens@) =~= line_types_view(before).push(t@));
        }
        i = i + 1;
    }
    assert(ls.take(raw_lines.len() as int) =~= ls);
    tokens
}

// ---------------------------------------------------------------------------
// Laws
// ---------------------------------------------------------------------------
/// A line of `n` `#` (any `n` from one up), a space and text is a heading of
/// level `n` whose text starts at the space.
pub proof fn law_heading_any_level(n: nat, rest: Seq<char>)
    requires
        n >= 1,
    ensures
        classify_line(Seq::new(n, |i: int| '#') + seq![' '] + rest) == (LineModel::Heading {
            level: n,
            text: seq![' '] + rest,
        }),
{
    let line = Seq::new(n, |i: int| '#') + seq![' '] + rest;
    assert(line[n as int] == ' ');
    lemma_leading_hashes_run(line, n as int);
    assert(line.skip(n as int) =~= seq![' '] + rest);
}

/// A line of `n` `#` followed by something other than `#` or a space is
/// other text.
pub proof fn law_heading_needs_space(n: nat, rest: Seq<char>)
    requires
        n >= 1,
        rest.len() == 0 || (rest[0] != '#' && rest[0] != ' '),
    ensures
        classify_line(Seq::new(n, |i: int| '#') + rest) == (LineModel::Other {
            text: Seq::new(n, |i: int| '#') + rest,
        }),
{
    let line = Seq::new(n, |i: int| '#') + rest;
    if rest.len() > 0 {
        assert(line[n as int] == rest[0]);
    }
    lemma_leading_hashes_run(line, n as int);
}

/// Digits, a `.` and text make an ordered list item whose text is what
/// follows the `.`.
pub proof fn law_ordered_item(digits: Seq<char>, rest: Seq<char>)
    requires
        digits.len() >= 1,
        forall|j: int| 0 <= j < digits.len() ==> is_ascii_digit(#[trigger] digits[j]),
    ensures
        classify_line(digits + seq!['.'] + rest) == (LineModel::OrderedList { text: rest }),
{
    let line = digits + seq!['.'] + rest;
    assert forall|j: int| 0 <= j < digits.len() implies is_ascii_digit(#[trigger] line[j]) by {
        assert(line[j] == digits[j]);
    }
    assert(line[digits.len() as int] == '.');
    lemma_leading_digits_run(line, digits.len() as int);
    assert(line.skip(digits.len() as int + 1) =~= rest);
}

/// `- ` and text is an unordered list item with that text, unless the line
/// is a horizontal rule.
pub proof fn law_unordered_item(rest: Seq<char>)
    requires
        !is_rule(seq!['-', ' '] + rest),
    ensures
        classify_line(seq!['-', ' '] + rest) == (LineModel::UnorderedList { text: rest, indent: 0 }),
{
    assert((seq!['-', ' '] + rest).skip(2) =~= rest);
}

/// Three or more dashes, with any spaces among them, make a horizontal rule.
pub proof fn law_rule(line: Seq<char>)
    requires
        line.len() > 0,
        line[0] == '-',
        forall|j: int| 0 <= j < line.len() ==> #[trigger] line[j] == '-' || line[j] == ' ',
        dash_count(line) >= 3,
    ensures
        classify_line(line) == LineModel::HorizontalRule,
{
}

/// `> ` and text is a quote whose text starts at the space.
pub proof fn law_quote(rest: Seq<char>)
    ensures
        classify_line(seq!['>', ' '] + rest) == (LineModel::Quote { text: seq![' '] + rest }),
{
    assert((seq!['>', ' '] + rest).skip(1) =~= seq![' '] + rest);
}

} // verus!
