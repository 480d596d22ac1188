//! The inline parser of the markdown front end.
//!
//! | element        | markdown    |
//! |----------------|-------------|
//! | bold           | `**xx**`    |
//! | italic         | `*xx*`      |
//! | text           |             |
//! | strike-through | `~~xx~~`    |
//! | inline code    | `` `xx` ``  |
//! | image          | `![alt](u)` |
//! | link           | `[text](u)` |
//!
//! Inline text is the text up to the first element, that element, then the
//! inline text of the rest. An element starts at a marker and ends at the
//! first closing marker after it; a marker without its closing marker is
//! plain text. The bodies of bold, italic, strike-through spans and of link
//! texts are parsed as inline text in turn; code, alt texts and URLs are kept
//! as they are. Positions are those of characters.
use vstd::prelude::*;

use super::common::{inline_view, inlines_view, Inline, InlineModel};
use crate::text::str_chars;

verus! {

// ---------------------------------------------------------------------------
// Searching
// ---------------------------------------------------------------------------
/// The first position at or after `i` where `p` occurs in `s` (`str::find`
/// when `i` is 0).
pub open spec fn find_from(s: Seq<char>, p: Seq<char>, i: int) -> Option<int>
    decreases s.len() + 1 - i,
{
    if i < 0 || i + p.len() > s.len() {
        None
    } else if s.subrange(i, i + p.len()) == p {
        Some(i)
    } else {
        find_from(s, p, i + 1)
    }
}

/// A found position lies in `s`, at or after the start, and `p` occurs
/// there.
pub proof fn lemma_find_bounds(s: Seq<char>, p: Seq<char>, i: int)
    ensures
        find_from(s, p, i) matches Some(k) ==> i <= k && 0 <= k && k + p.len() <= s.len()
            && s.subrange(k, k + p.len()) == p,
    decreases s.len() + 1 - i,
{
    if !(i < 0 || i + p.len() > s.len()) && s.subrange(i, i + p.len()) != p {
        lemma_find_bounds(s, p, i + 1);
    }
}

/// The first position at or after `from` where `pat` occurs in `hay`.
fn find_chars(hay: &Vec<char>, pat: &Vec<char>, from: usize) -> (r: Option<usize>)
    ensures
        r matches Some(k) ==> find_from(hay@, pat@, from as int) == Some(k as int),
        r is None ==> find_from(hay@, pat@, from as int) is None,
{
    let n = hay.len();
    let m = pat.len();
    if m > n {
        return None;
    }
    let mut i: usize = from;
    while i <= n - m
        invariant
            n == hay@.len(),
            m == pat@.len(),
            m <= n,
            from <= i,
            find_from(hay@, pat@, from as int) == find_from(hay@, pat@, i as int),
        decreases n - i,
    {
        let mut j: usize = 0;
        let mut same = true;
        while j < m
            invariant
                n == hay@.len(),
                m == pat@.len(),
                i + m <= n,
                0 <= j <= m,
                same == (forall|k: int| 0 <= k < j ==> hay@[i + k] == pat@[k]),
            decreases m - j,
        {
            if hay[i + j] != pat[j] {
                same = false;
            }
            j = j + 1;
        }
        if same {
            assert(hay@.subrange(i as int, i + m) =~= pat@);
            return Some(i);
        }
        assert(hay@.subrange(i as int, i + m) != pat@) by {
            let k = choose|k: int| 0 <= k < m && hay@[i + k] != pat@[k];
            assert(hay@.subrange(i as int, i + m)[k] == hay@[i + k]);
        }
        i = i + 1;
    }
    None
}

/// The characters `a` and, when given, `b`.
fn pattern(a: char, b: Option<char>) -> (v: Vec<char>)
    ensures
        v@ == match b {
            Some(b) => seq![a, b],
            None => seq![a],
        },
{
    let mut v: Vec<char> = Vec::new();
    v.push(a);
    if let Some(b) = b {
        v.push(b);
    }
    assert(v@ =~= match b {
        Some(b) => seq![a, b],
        None => seq![a],
    });
    v
}

// ---------------------------------------------------------------------------
// The grammar
// ---------------------------------------------------------------------------
/// Where the parts of a link-like element at the start of `t` end: the
/// position of the first `]`, which `(` must follow at once, and of the
/// first `)` after that.
pub open spec fn link_parts(t: Seq<char>) -> Option<(int, int)> {
    if t.len() >= 1 && t[0] == '[' {
        match find_from(t, seq![']'], 1) {
            Some(rsq) => if rsq + 1 < t.len() && t[rsq + 1] == '(' {
                match find_from(t, seq![')'], rsq + 2) {
                    Some(rr) => Some((rsq, rr)),
                    None => None,
                }
            } else {
                None
            },
            None => None,
        }
    } else {
        None
    }
}

/// A link-like element `[text](url)` at the start of `t`, with its length.
/// With `link` the text is parsed as inline text; otherwise it is kept as
/// one text element (an image's alt text).
pub open spec fn link_like_spec(t: Seq<char>, link: bool) -> Option<(InlineModel, int)>
    decreases t.len(), 0int, 0int,
{
    match link_parts(t) {
        Some((rsq, rr)) => {
            proof {
                lemma_link_parts_bounds(t);
            }
            let content = t.subrange(1, rsq);
            let url = t.subrange(rsq + 2, rr);
            if link {
                Some((InlineModel::Link { children: parse_inline_spec(content), url }, rr + 1))
            } else {
                Some(
                    (
                        InlineModel::Link {
                            children: seq![InlineModel::Text { text: content }],
                            url,
                        },
                        rr + 1,
                    ),
                )
            }
        },
        None => None,
    }
}

/// The element that starts at the start of `t`, with its length.
pub open spec fn element_at(t: Seq<char>) -> Option<(InlineModel, int)>
    decreases t.len(), 1int, 0int,
{
    if t.len() == 0 {
        None
    } else if t[0] == '*' && t.len() >= 2 && t[1] == '*' {
        match find_from(t, seq!['*', '*'], 2) {
            Some(e) => {
                proof {
                    lemma_find_bounds(t, seq!['*', '*'], 2);
                }
                Some((InlineModel::Bold { children: parse_inline_spec(t.subrange(2, e)) }, e + 2))
            },
            None => None,
        }
    } else if t[0] == '*' && t.len() >= 2 {
        match find_from(t, seq!['*'], 1) {
            Some(e) => {
                proof {
                    lemma_find_bounds(t, seq!['*'], 1);
                }
                Some((InlineModel::Italic { children: parse_inline_spec(t.subrange(1, e)) }, e + 1))
            },
            None => None,
        }
    } else if t[0] == '~' && t.len() >= 2 && t[1] == '~' {
        match find_from(t, seq!['~', '~'], 2) {
            Some(e) => {
                proof {
                    lemma_find_bounds(t, seq!['~', '~'], 2);
                }
                Some(
                    (
                        InlineModel::Strikethrough { children: parse_inline_spec(t.subrange(2, e)) },
                        e + 2,
                    ),
                )
            },
            None => None,
        }
    } else if t[0] == '`' {
        match find_from(t, seq!['`'], 1) {
            Some(e) => Some((InlineModel::InlineCode { text: t.subrange(1, e) }, e + 1)),
            None => None,
        }
    } else if t[0] == '!' {
        match link_parts(t.skip(1)) {
            Some((rsq, rr)) => Some(
                (
                    InlineModel::Image {
                        alt: t.skip(1).subrange(1, rsq),
                        url: t.skip(1).subrange(rsq + 2, rr),
                    },
                    rr + 2,
                ),
            ),
            None => None,
        }
    } else if t[0] == '[' {
        link_like_spec(t, true)
    } else {
        None
    }
}

/// The first element of `t` that starts at or after position `k`, with its
/// position and length.
pub open spec fn first_element(t: Seq<char>, k: int) -> Option<(int, InlineModel, int)>
    decreases t.len(), 2int, t.len() - k,
{
    if k < 0 || k >= t.len() {
        None
    } else {
        match element_at(t.skip(k)) {
            Some((el, len)) => Some((k, el, len)),
            None => first_element(t, k + 1),
        }
    }
}

/// The inline elements of `t`: the text before the first element (when
/// there is some), that element, then the elements of the rest; all of `t`
/// as one text when no element occurs; nothing for empty `t`.
pub open spec fn parse_inline_spec(t: Seq<char>) -> Seq<InlineModel>
    decreases t.len(), 3int, 0int,
{
    match first_element(t, 0) {
        Some((k, el, len)) => if 0 <= k && 1 <= len && k + len <= t.len() {
            (if k > 0 {
                seq![InlineModel::Text { text: t.take(k) }]
            } else {
                seq![]
            }) + seq![el] + parse_inline_spec(t.skip(k + len))
        } else {
            seq![]
        },
        None => if t.len() == 0 {
            seq![]
        } else {
            seq![InlineModel::Text { text: t }]
        },
    }
}

// ---------------------------------------------------------------------------
// Bounds
// ---------------------------------------------------------------------------
/// The parts of a link lie inside it, in order.
pub proof fn lemma_link_parts_bounds(t: Seq<char>)
    ensures
        link_parts(t) matches Some((rsq, rr)) ==> 1 <= rsq && rsq + 2 <= rr && rr < t.len() && t[rsq]
            == ']' && t[rsq + 1] == '(' && t[rr] == ')',
{
    lemma_find_bounds(t, seq![']'], 1);
    if let Some(rsq) = find_from(t, seq![']'], 1) {
        lemma_find_bounds(t, seq![')'], rsq + 2);
        assert(t.subrange(rsq, rsq + 1)[0] == t[rsq]);
        if let Some(rr) = find_from(t, seq![')'], rsq + 2) {
            assert(t.subrange(rr, rr + 1)[0] == t[rr]);
        }
    }
}

/// An element is at least two characters long and lies inside `t`.
pub proof fn lemma_element_bounds(t: Seq<char>)
    ensures
        element_at(t) matches Some((_, len)) ==> 2 <= len <= t.len(),
        link_like_spec(t, true) matches Some((_, len)) ==> 2 <= len <= t.len(),
{
    lemma_link_parts_bounds(t);
    lemma_link_parts_bounds(t.skip(1));
    lemma_find_bounds(t, seq!['*', '*'], 2);
    lemma_find_bounds(t, seq!['*'], 1);
    lemma_find_bounds(t, seq!['~', '~'], 2);
    lemma_find_bounds(t, seq!['`'], 1);
}

/// The first element found lies inside `t`.
pub proof fn lemma_first_element_bounds(t: Seq<char>, k: int)
    ensures
        first_element(t, k) matches Some((pos, _, len)) ==> k <= pos && 0 <= pos && 2 <= len && pos
            + len <= t.len(),
    decreases t.len() - k,
{
    if !(k < 0 || k >= t.len()) {
        lemma_element_bounds(t.skip(k));
        if element_at(t.skip(k)) is None {
            lemma_first_element_bounds(t, k + 1);
        }
    }
}

// ---------------------------------------------------------------------------
// Laws
// ---------------------------------------------------------------------------
/// Whether `c` can start an element.
pub open spec fn is_marker(c: char) -> bool {
    c == '*' || c == '~' || c == '`' || c == '!' || c == '['
}

proof fn lemma_no_element(t: Seq<char>, k: int)
    requires
        forall|j: int| 0 <= j < t.len() ==> !is_marker(#[trigger] t[j]),
    ensures
        first_element(t, k) is None,
    decreases t.len() - k,
{
    if !(k < 0 || k >= t.len()) {
        assert(t.skip(k)[0] == t[k]);
        assert(!is_marker(t[k]));
        assert(element_at(t.skip(k)) is None);
        lemma_no_element(t, k + 1);
    }
}

/// Text without any marker character is one text element (none when
/// empty).
pub proof fn law_plain_text(t: Seq<char>)
    requires
        forall|j: int| 0 <= j < t.len() ==> !is_marker(#[trigger] t[j]),
    ensures
        parse_inline_spec(t) == (if t.len() == 0 {
            Seq::<InlineModel>::empty()
        } else {
            seq![InlineModel::Text { text: t }]
        }),
{
    lemma_no_element(t, 0);
}

/// Nothing before the first occurrence of the character `c` found from `i`
/// is `c`.
proof fn lemma_find_first(s: Seq<char>, c: char, i: int)
    ensures
        find_from(s, seq![c], i) matches Some(k) ==> forall|j: int| i <= j < k ==> #[trigger] s[j] != c,
    decreases s.len() + 1 - i,
{
    if !(i < 0 || i + 1 > s.len()) && s.subrange(i, i + 1) != seq![c] {
        assert(s[i] != c) by {
            if s[i] == c {
                assert(s.subrange(i, i + 1) =~= seq![c]);
            }
        }
        lemma_find_first(s, c, i + 1);
    }
}

/// Whether the first `len` characters of `t` are the link-like element `el`
/// written out: `[`, `text`, `](`, `url`, `)`, where the text holds no `]`
/// and the URL no `)`; a link's children are its text parsed as inline text,
/// an image's alt text is one text element.
pub open spec fn written_as_link(
    t: Seq<char>,
    len: int,
    el: InlineModel,
    link: bool,
    text: Seq<char>,
    url: Seq<char>,
) -> bool {
    &&& 0 <= len <= t.len()
    &&& t.take(len) == seq!['['] + text + seq![']', '('] + url + seq![')']
    &&& !text.contains(']')
    &&& !url.contains(')')
    &&& el == InlineModel::Link {
        children: if link {
            parse_inline_spec(text)
        } else {
            seq![InlineModel::Text { text }]
        },
        url,
    }
}

/// A link-like element is found exactly where `t` starts with `[`, a `]`
/// comes later, `(` follows it at once and a `)` comes after that; what it
/// takes from `t` is then `[text](url)`, up to the first `]` and the first
/// `)` after it.
pub proof fn law_link_like_shape(t: Seq<char>, link: bool)
    ensures
        (link_like_spec(t, link) is Some) <==> (link_parts(t) is Some),
        link_like_spec(t, link) matches Some((el, len)) ==> exists|text: Seq<char>, url: Seq<char>|
            #[trigger] written_as_link(t, len, el, link, text, url),
{
    lemma_link_parts_bounds(t);
    if let Some((rsq, rr)) = link_parts(t) {
        lemma_find_first(t, ']', 1);
        lemma_find_first(t, ')', rsq + 2);
        let text = t.subrange(1, rsq);
        let url = t.subrange(rsq + 2, rr);
        assert(t.take(rr + 1) =~= seq!['['] + text + seq![']', '('] + url + seq![')']);
        assert(!text.contains(']')) by {
            if text.contains(']') {
                let j = choose|j: int| 0 <= j < text.len() && text[j] == ']';
                assert(t[1 + j] == ']');
            }
        }
        assert(!url.contains(')')) by {
            if url.contains(')') {
                let j = choose|j: int| 0 <= j < url.len() && url[j] == ')';
                assert(t[rsq + 2 + j] == ')');
            }
        }
        let (el, len) = link_like_spec(t, link)->0;
        assert(written_as_link(t, len, el, link, text, url));
    }
}

/// The search finds the first occurrence.
proof fn lemma_find_at(s: Seq<char>, p: Seq<char>, i: int, e: int)
    requires
        0 <= i <= e,
        e + p.len() <= s.len(),
        s.subrange(e, e + p.len()) == p,
        forall|j: int| i <= j < e ==> #[trigger] s.subrange(j, j + p.len()) != p,
    ensures
        find_from(s, p, i) == Some(e),
    decreases e - i,
{
    if i < e {
        lemma_find_at(s, p, i + 1, e);
    }
}

/// Whether every `c` in `b` is followed, inside `b`, by another character
/// (so that `b` holds no `cc` and does not end with `c`).
pub open spec fn lone_marks(b: Seq<char>, c: char) -> bool {
    forall|j: int| 0 <= j < b.len() && #[trigger] b[j] == c ==> j + 1 < b.len() && b[j + 1] != c
}

/// Whether `c` does not occur in `b`.
pub open spec fn free_of(b: Seq<char>, c: char) -> bool {
    forall|j: int| 0 <= j < b.len() ==> #[trigger] b[j] != c
}

proof fn lemma_pair_span(b: Seq<char>, c: char)
    requires
        lone_marks(b, c),
    ensures
        find_from(seq![c, c] + b + seq![c, c], seq![c, c], 2) == Some(b.len() + 2int),
        (seq![c, c] + b + seq![c, c]).subrange(2, b.len() + 2int) == b,
{
    let t = seq![c, c] + b + seq![c, c];
    let e: int = b.len() + 2int;
    assert(t.subrange(e, e + 2) =~= seq![c, c]);
    assert forall|j: int| 2 <= j < e implies #[trigger] t.subrange(j, j + 2) != seq![c, c] by {
        assert(t[j] == b[j - 2]);
        if t.subrange(j, j + 2) == seq![c, c] {
            assert(t.subrange(j, j + 2)[0] == t[j]);
            assert(t.subrange(j, j + 2)[1] == t[j + 1]);
            assert(t[j + 1] == b[j - 1]);
        }
    }
    lemma_find_at(t, seq![c, c], 2, e);
    assert(t.subrange(2, e) =~= b);
}

proof fn lemma_single_span(b: Seq<char>, c: char)
    requires
        free_of(b, c),
    ensures
        find_from(seq![c] + b + seq![c], seq![c], 1) == Some(b.len() + 1int),
        (seq![c] + b + seq![c]).subrange(1, b.len() + 1int) == b,
{
    let t = seq![c] + b + seq![c];
    let e: int = b.len() + 1int;
    assert(t.subrange(e, e + 1) =~= seq![c]);
    assert forall|j: int| 1 <= j < e implies #[trigger] t.subrange(j, j + 1) != seq![c] by {
        assert(t[j] == b[j - 1]);
        if t.subrange(j, j + 1) == seq![c] {
            assert(t.subrange(j, j + 1)[0] == t[j]);
        }
    }
    lemma_find_at(t, seq![c], 1, e);
    assert(t.subrange(1, e) =~= b);
}

/// A text that is one element is parsed to that element alone.
proof fn lemma_whole_element(t: Seq<char>, el: InlineModel)
    requires
        element_at(t) == Some((el, t.len() as int)),
    ensures
        parse_inline_spec(t) == seq![el],
{
    assert(t.skip(0) =~= t);
    assert(t.len() > 0);
    assert(first_element(t, 0) == Some((0int, el, t.len() as int)));
    assert(t.skip(t.len() as int) =~= Seq::<char>::empty());
    assert(first_element(Seq::<char>::empty(), 0) is None);
    assert(parse_inline_spec(Seq::<char>::empty()) =~= Seq::<InlineModel>::empty());
    assert(seq![el] + Seq::<InlineModel>::empty() =~= seq![el]);
    assert(Seq::<InlineModel>::empty() + seq![el] =~= seq![el]);
}

/// The bodies of spans: `**b**`, `~~b~~` and `*b*` are one bold,
/// strike-through or italic element whose children are the inline parse of
/// `b`, and `` `b` `` is one code element holding `b` as it is, when `b`
/// holds no closing marker (nor a marker that would make the span another
/// one).
pub proof fn law_span_bodies(b: Seq<char>)
    ensures
        lone_marks(b, '*') ==> {
            let t = seq!['*', '*'] + b + seq!['*', '*'];
            let el = InlineModel::Bold { children: parse_inline_spec(b) };
            element_at(t) == Some((el, b.len() + 4int)) && parse_inline_spec(t) == seq![el]
        },
        lone_marks(b, '~') ==> {
            let t = seq!['~', '~'] + b + seq!['~', '~'];
            let el = InlineModel::Strikethrough { children: parse_inline_spec(b) };
            element_at(t) == Some((el, b.len() + 4int)) && parse_inline_spec(t) == seq![el]
        },
        b.len() > 0 && free_of(b, '*') ==> {
            let t = seq!['*'] + b + seq!['*'];
            let el = InlineModel::Italic { children: parse_inline_spec(b) };
            element_at(t) == Some((el, b.len() + 2int)) && parse_inline_spec(t) == seq![el]
        },
        free_of(b, '`') ==> {
            let t = seq!['`'] + b + seq!['`'];
            let el = InlineModel::InlineCode { text: b };
            element_at(t) == Some((el, b.len() + 2int)) && parse_inline_spec(t) == seq![el]
        },
{
    if lone_marks(b, '*') {
        lemma_pair_span(b, '*');
        lemma_whole_element(
            seq!['*', '*'] + b + seq!['*', '*'],
            InlineModel::Bold { children: parse_inline_spec(b) },
        );
    }
    if lone_marks(b, '~') {
        lemma_pair_span(b, '~');
        lemma_whole_element(
            seq!['~', '~'] + b + seq!['~', '~'],
            InlineModel::Strikethrough { children: parse_inline_spec(b) },
        );
    }
    if b.len() > 0 && free_of(b, '*') {
        let t = seq!['*'] + b + seq!['*'];
        assert(t[1] == b[0]);
        lemma_single_span(b, '*');
        lemma_whole_element(t, InlineModel::Italic { children: parse_inline_spec(b) });
    }
    if free_of(b, '`') {
        lemma_single_span(b, '`');
        lemma_whole_element(seq!['`'] + b + seq!['`'], InlineModel::InlineCode { text: b });
    }
}

proof fn lemma_element_after_text(p: Seq<char>, t: Seq<char>, el: InlineModel, len: int, k: int)
    requires
        0 <= k <= p.len(),
        forall|j: int| 0 <= j < p.len() ==> !is_marker(#[trigger] p[j]),
        element_at(t) == Some((el, len)),
    ensures
        first_element(p + t, k) == Some((p.len() as int, el, len)),
    decreases p.len() - k,
{
    let s = p + t;
    assert(t.len() > 0);
    if k == p.len() {
        assert(s.skip(k) =~= t);
    } else {
        assert(s.skip(k)[0] == p[k]);
        assert(!is_marker(p[k]));
        assert(element_at(s.skip(k)) is None);
        lemma_element_after_text(p, t, el, len, k + 1);
    }
}

/// Text without markers before an element is one text element, followed by
/// the elements of the rest.
pub proof fn law_text_before_element(p: Seq<char>, t: Seq<char>)
    requires
        p.len() > 0,
        forall|j: int| 0 <= j < p.len() ==> !is_marker(#[trigger] p[j]),
        element_at(t) is Some,
    ensures
        parse_inline_spec(p + t) == seq![InlineModel::Text { text: p }] + parse_inline_spec(t),
{
    let (el, len) = element_at(t)->0;
    lemma_element_bounds(t);
    lemma_element_after_text(p, t, el, len, 0);
    assert(t.skip(0) =~= t);
    assert(first_element(t, 0) == Some((0int, el, len)));
    let s = p + t;
    assert(s.take(p.len() as int) =~= p);
    assert(s.skip(p.len() + len) =~= t.skip(len));
    assert(parse_inline_spec(t) == Seq::<InlineModel>::empty() + seq![el] + parse_inline_spec(
        t.skip(len),
    ));
    assert(parse_inline_spec(s) == seq![InlineModel::Text { text: p }] + seq![el]
        + parse_inline_spec(t.skip(len)));
    assert(parse_inline_spec(s) =~= seq![InlineModel::Text { text: p }] + parse_inline_spec(t));
}

// ---------------------------------------------------------------------------
// The parser
// ---------------------------------------------------------------------------
proof fn lemma_inlines_view_push(v: Seq<Inline>, x: Inline)
    ensures
        inlines_view(v.push(x)) == inlines_view(v).push(inline_view(x)),
{
    assert(v.push(x).drop_last() =~= v);
}

proof fn lemma_inlines_view_len(v: Seq<Inline>)
    ensures
        inlines_view(v).len() == v.len(),
    decreases v.len(),
{
    if v.len() > 0 {
        lemma_inlines_view_len(v.drop_last());
    }
}

/// The mathematical form of what [`handle_link_like`] returns.
pub open spec fn link_result_view(r: (Option<Inline>, usize)) -> Option<(InlineModel, int)> {
    match r.0 {
        Some(i) => Some((inline_view(i), r.1 as int)),
        None => None,
    }
}

/// Parses a link-like element `[text](url)` at the start of `link_like`:
/// the element and its length in characters, or `(None, 0)` when there is
/// none.
pub fn handle_link_like(link_like: &str, link: bool) -> (r: (Option<Inline<'_>>, usize))
    ensures
        link_result_view(r) == link_like_spec(link_like@, link),
        r.0 is None ==> r.1 == 0,
    decreases link_like@.len(), 0int, 0int,
{
    let t = str_chars(link_like);
    let n = t.len();
    proof {
        lemma_link_parts_bounds(t@);
    }
    if n >= 1 && t[0] == '[' {
        match find_chars(&t, &pattern(']', None), 1) {
            Some(rsq) => {
                proof {
                    lemma_find_bounds(t@, seq![']'], 1);
                }
                if rsq + 1 < n && t[rsq + 1] == '(' {
                    match find_chars(&t, &pattern(')', None), rsq + 2) {
                        Some(rr) => {
                            proof {
                                lemma_find_bounds(t@, seq![')'], rsq + 2);
                            }
                            let content = link_like.substring_char(1, rsq);
                            let url = link_like.substring_char(rsq + 2, rr);
                            assert(content@ =~= t@.subrange(1, rsq as int));
                            assert(url@ =~= t@.subrange(rsq + 2, rr as int));
                            if link {
                                let children = parse_inline(content);
                                (Some(Inline::Link { children, url }), rr + 1)
                            } else {
                                let mut children: Vec<Inline> = Vec::new();
                                children.push(Inline::Text { text: content });
                                proof {
                                    lemma_inlines_view_push(
                                        Seq::<Inline>::empty(),
                                        Inline::Text { text: content },
                                    );
                                    assert(Seq::<Inline>::empty().push(Inline::Text { text: content })
                                        =~= children@);
                                    assert(inlines_view(Seq::<Inline>::empty())
                                        =~= Seq::<InlineModel>::empty());
                                }
                                (Some(Inline::Link { children, url }), rr + 1)
                            }
                        },
                        None => (None, 0),
                    }
                } else {
                    (None, 0)
                }
            },
            None => (None, 0),
        }
    } else {
        (None, 0)
    }
}

/// The element that starts at position `i` of `inline`, with its length.
fn element_at_exec<'a>(inline: &'a str, chars: &Vec<char>, i: usize) -> (r: Option<
    (Inline<'a>, usize),
>)
    requires
        chars@ == inline@,
        i < chars@.len(),
    ensures
        match r {
            Some((el, len)) => element_at(inline@.skip(i as int)) == Some(
                (inline_view(el), len as int),
            ),
            None => element_at(inline@.skip(i as int)) is None,
        },
    decreases inline@.len() - i, 1int, 0int,
{
    let c = chars[i];
    let ghost t = inline@.skip(i as int);
    assert(t[0] == c);
    if !(c == '*' || c == '~' || c == '`' || c == '!' || c == '[') {
        return None;
    }
    let n = chars.len();
    let rest = inline.substring_char(i, n);
    assert(rest@ =~= t);
    let tc = str_chars(rest);
    let m = tc.len();
    if c == '*' && m >= 2 && tc[1] == '*' {
        match find_chars(&tc, &pattern('*', Some('*')), 2) {
            Some(e) => {
                proof {
                    lemma_find_bounds(t, seq!['*', '*'], 2);
                }
                let body = rest.substring_char(2, e);
                assert(body@ =~= t.subrange(2, e as int));
                let children = parse_inline(body);
                Some((Inline::Bold { children }, e + 2))
            },
            None => None,
        }
    } else if c == '*' && m >= 2 {
        match find_chars(&tc, &pattern('*', None), 1) {
            Some(e) => {
                proof {
                    lemma_find_bounds(t, seq!['*'], 1);
                }
                let body = rest.substring_char(1, e);
                assert(body@ =~= t.subrange(1, e as int));
                let children = parse_inline(body);
                Some((Inline::Italic { children }, e + 1))
            },
            None => None,
        }
    } else if c == '~' && m >= 2 && tc[1] == '~' {
        match find_chars(&tc, &pattern('~', Some('~')), 2) {
            Some(e) => {
                proof {
                    lemma_find_bounds(t, seq!['~', '~'], 2);
                }
                let body = rest.substring_char(2, e);
                assert(body@ =~= t.subrange(2, e as int));
                let children = parse_inline(body);
                Some((Inline::Strikethrough { children }, e + 2))
            },
            None => None,
        }
    } else if c == '`' {
        match find_chars(&tc, &pattern('`', None), 1) {
            Some(e) => {
                proof {
                    lemma_find_bounds(t, seq!['`'], 1);
                }
                let body = rest.substring_char(1, e);
                assert(body@ =~= t.subrange(1, e as int));
                Some((Inline::InlineCode { text: body }, e + 1))
            },
            None => None,
        }
    } else if c == '!' {
        let after = rest.substring_char(1, m);
        assert(after@ =~= t.skip(1));
        let (found, len) = handle_link_like(after, false);
        match found {
            Some(Inline::Link { children, url }) => {
                proof {
                    lemma_link_parts_bounds(t.skip(1));
                    lemma_inlines_view_len(children@);
                    lemma_element_bounds(t);
                }
                assert(inlines_view(children@)[0] == inline_view(children@[0])) by {
                    assert(children@.drop_last() =~= Seq::<Inline>::empty());
                }
                match &children[0] {
                    Inline::Text { text } => Some((Inline::Image { alt: *text, url }, len + 1)),
                    _ => None,
                }
            },
            _ => {
                proof {
                    lemma_link_parts_bounds(t.skip(1));
                }
                None
            },
        }
    } else if c == '[' {
        let (found, len) = handle_link_like(rest, true);
        match found {
            Some(el) => Some((el, len)),
            None => None,
        }
    } else {
        None
    }
}

/// Parses inline text into its elements.
pub fn parse_inline(inline: &str) -> (result: Vec<Inline<'_>>)
    ensures
        inlines_view(result@) == parse_inline_spec(inline@),
    decreases inline@.len(), 3int, 0int,
{
    let chars = str_chars(inline);
    let ghost s = inline@;
    let n = chars.len();
    let mut result: Vec<Inline> = Vec::new();
    let mut start: usize = 0;
    let mut i: usize = 0;
    assert(inlines_view(result@) =~= Seq::<InlineModel>::empty());
    assert(s.skip(0) =~= s);
    while i < n
        invariant
            n == s.len(),
            chars@ == s,
            s == inline@,
            0 <= start <= i <= n,
            parse_inline_spec(s) == inlines_view(result@) + parse_inline_spec(s.skip(start as int)),
            first_element(s.skip(start as int), 0) == first_element(
                s.skip(start as int),
                i - start,
            ),
        decreases n - i,
    {
        let ghost u = s.skip(start as int);
        let ghost before = result@;
        assert(u.skip(i - start) =~= s.skip(i as int));
        match element_at_exec(inline, &chars, i) {
            Some((el, len)) => {
                proof {
                    lemma_element_bounds(s.skip(i as int));
                    lemma_first_element_bounds(u, 0);
                    assert(first_element(u, 0) == Some((i - start, inline_view(el), len as int)));
                    assert(u.skip(i - start + len) =~= s.skip(i + len));
                }
                if start < i {
                    let text = inline.substring_char(start, i);
                    assert(text@ =~= u.take(i - start));
                    let x = Inline::Text { text };
                    result.push(x);
                    proof {
                        lemma_inlines_view_push(before, x);
                    }
                }
                let ghost mid = result@;
                result.push(el);
                proof {
                    lemma_inlines_view_push(mid, el);
                    assert(inlines_view(result@) + parse_inline_spec(s.skip(i + len)) =~= inlines_view(
                        before,
                    ) + parse_inline_spec(u));
                }
                i = i + len;
                start = i;
                assert(s.skip(start as int).skip(0) =~= s.skip(start as int));
            },
            None => {
                assert(first_element(u, i - start) == first_element(u, i - start + 1));
                i = i + 1;
            },
        }
    }
    let ghost u = s.skip(start as int);
    assert(first_element(u, 0) is None);
    if start < n {
        let text = inline.substring_char(start, n);
        assert(text@ =~= u);
        let x = Inline::Text { text };
        let ghost before = result@;
        result.push(x);
        proof {
            lemma_inlines_view_push(before, x);
        }
    } else {
        assert(u.len() == 0);
    }
    result
}

} // verus!
