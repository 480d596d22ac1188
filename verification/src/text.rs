//! Character-level text handling shared by the command parser, the markdown
//! renderer and the todo validation: Unicode white space, words, trimming,
//! line splitting, joining and decimal numerals.
use vstd::prelude::*;

verus! {

/// Unicode `White_Space`: the characters for which `char::is_whitespace` holds.
pub open spec fn is_white_space(c: char) -> bool {
    ||| ('\u{9}' <= c && c <= '\u{d}')
    ||| c == ' '
    ||| c == '\u{85}'
    ||| c == '\u{a0}'
    ||| c == '\u{1680}'
    ||| ('\u{2000}' <= c && c <= '\u{200a}')
    ||| c == '\u{2028}'
    ||| c == '\u{2029}'
    ||| c == '\u{202f}'
    ||| c == '\u{205f}'
    ||| c == '\u{3000}'
}

/// Whether `c` is Unicode white space.
pub fn is_whitespace(c: char) -> (b: bool)
    ensures
        b == is_white_space(c),
{
    ('\u{9}' <= c && c <= '\u{d}') || c == ' ' || c == '\u{85}' || c == '\u{a0}' || c
        == '\u{1680}' || ('\u{2000}' <= c && c <= '\u{200a}') || c == '\u{2028}' || c
        == '\u{2029}' || c == '\u{202f}' || c == '\u{205f}' || c == '\u{3000}'
}

/// The characters of `s`, in order.
pub fn str_chars(s: &str) -> (v: Vec<char>)
    ensures
        v@ == s@,
{
    let mut v: Vec<char> = Vec::new();
    for c in it: s.chars()
        invariant
            v@ == it.seq().take(it.index() as int),
            it.seq() == s@,
    {
        v.push(c);
    }
    v
}

/// Collects characters into a `String` (`FromIterator<char> for String`).
#[verifier::external_body]
pub(crate) fn chars_to_string(chars: &[char]) -> (s: String)
    ensures
        s@ == chars@,
{
    chars.iter().collect()
}

/// The views of a sequence of strings.
pub open spec fn strings_view(v: Seq<String>) -> Seq<Seq<char>> {
    v.map_values(|s: String| s@)
}

/// The views of a sequence of character vectors.
pub open spec fn char_vecs_view(v: Seq<Vec<char>>) -> Seq<Seq<char>> {
    v.map_values(|s: Vec<char>| s@)
}

// ---------------------------------------------------------------------------
// Words
// ---------------------------------------------------------------------------
/// The number of leading characters of `s` that are not white space.
pub open spec fn word_len(s: Seq<char>) -> nat
    decreases s.len(),
{
    if s.len() == 0 || is_white_space(s[0]) {
        0
    } else {
        1 + word_len(s.drop_first())
    }
}

/// The first word fits in `s`, and is not empty when `s` starts with a
/// visible character.
pub proof fn lemma_word_len_bound(s: Seq<char>)
    ensures
        word_len(s) <= s.len(),
        s.len() > 0 && !is_white_space(s[0]) ==> word_len(s) >= 1,
    decreases s.len(),
{
    if s.len() > 0 && !is_white_space(s[0]) {
        lemma_word_len_bound(s.drop_first());
    }
}

/// The maximal runs of non-white-space characters of `s`, in order
/// (what `str::split_whitespace` yields).
pub open spec fn words(s: Seq<char>) -> Seq<Seq<char>>
    decreases s.len(),
{
    if s.len() == 0 {
        seq![]
    } else if is_white_space(s[0]) {
        words(s.drop_first())
    } else {
        proof {
            lemma_word_len_bound(s);
        }
        seq![s.take(word_len(s) as int)] + words(s.skip(word_len(s) as int))
    }
}

/// A run of non-white-space characters that ends at white space or at the end
/// is exactly the first word.
proof fn lemma_word_len_run(s: Seq<char>, n: int)
    requires
        0 <= n <= s.len(),
        forall|j: int| 0 <= j < n ==> !is_white_space(#[trigger] s[j]),
        n == s.len() || is_white_space(s[n]),
    ensures
        word_len(s) == n,
    decreases n,
{
    if n > 0 {
        lemma_word_len_run(s.drop_first(), n - 1);
    }
}

/// Every word is non-empty and holds no white space.
pub proof fn lemma_words_nonempty(s: Seq<char>)
    ensures
        forall|i: int| 0 <= i < words(s).len() ==> #[trigger] words(s)[i].len() > 0,
        forall|i: int, j: int|
            0 <= i < words(s).len() && 0 <= j < words(s)[i].len() ==> !is_white_space(
                #[trigger] words(s)[i][j],
            ),
    decreases s.len(),
{
    if s.len() == 0 {
    } else if is_white_space(s[0]) {
        lemma_words_nonempty(s.drop_first());
        assert(words(s) == words(s.drop_first()));
    } else {
        lemma_word_len_bound(s);
        let n = word_len(s) as int;
        lemma_words_nonempty(s.skip(n));
        assert(words(s) == seq![s.take(n)] + words(s.skip(n)));
        assert forall|j: int| 0 <= j < n implies !is_white_space(s[j]) by {
            lemma_word_len_prefix(s, j);
        }
        let w = words(s);
        assert forall|i: int| 0 <= i < w.len() implies #[trigger] w[i].len() > 0 by {
            if i > 0 {
                assert(w[i] == words(s.skip(n))[i - 1]);
            } else {
                assert(w[0] == s.take(n));
            }
        }
        assert forall|i: int, j: int| 0 <= i < w.len() && 0 <= j < w[i].len() implies
            !is_white_space(#[trigger] w[i][j]) by {
            if i > 0 {
                assert(w[i] == words(s.skip(n))[i - 1]);
            } else {
                assert(w[0] == s.take(n));
                assert(w[0][j] == s[j]);
            }
        }
    }
}

/// The characters inside the first word are not white space.
proof fn lemma_word_len_prefix(s: Seq<char>, j: int)
    requires
        0 <= j < word_len(s),
    ensures
        !is_white_space(s[j]),
    decreases j,
{
    lemma_word_len_bound(s);
    if j > 0 {
        assert(s.drop_first()[j - 1] == s[j]);
        lemma_word_len_prefix(s.drop_first(), j - 1);
    }
}

/// Whether `s` holds no words, i.e. only white space.
pub proof fn lemma_words_empty(s: Seq<char>)
    ensures
        words(s).len() == 0 <==> (forall|j: int| 0 <= j < s.len() ==> is_white_space(#[trigger] s[j])),
    decreases s.len(),
{
    if s.len() > 0 {
        lemma_words_empty(s.drop_first());
        if is_white_space(s[0]) {
            assert forall|j: int| 0 <= j < s.len() && (forall|k: int| 0 <= k < s.len() - 1 ==> is_white_space(#[trigger] s.drop_first()[k])) implies is_white_space(s[j]) by {
                if j > 0 {
                    assert(s.drop_first()[j - 1] == s[j]);
                }
            }
            assert forall|k: int| 0 <= k < s.len() - 1 && (forall|j: int| 0 <= j < s.len() ==> is_white_space(#[trigger] s[j])) implies is_white_space(#[trigger] s.drop_first()[k]) by {
                assert(s.drop_first()[k] == s[k + 1]);
            }
        } else {
            lemma_word_len_bound(s);
        }
    }
}

/// Whether `w` is one word: not empty, and without white space.
pub open spec fn is_word(w: Seq<char>) -> bool {
    w.len() > 0 && forall|j: int| 0 <= j < w.len() ==> !is_white_space(#[trigger] w[j])
}

/// Texts that meet at white space (or where one is empty) split into the
/// words of the first followed by the words of the second.
pub proof fn lemma_words_concat(a: Seq<char>, b: Seq<char>)
    requires
        a.len() == 0 || b.len() == 0 || is_white_space(a.last()) || is_white_space(b[0]),
    ensures
        words(a + b) == words(a) + words(b),
    decreases a.len(),
{
    let s = a + b;
    if a.len() == 0 {
        assert(s =~= b);
        assert(words(a) =~= Seq::<Seq<char>>::empty());
        assert(words(a) + words(b) =~= words(b));
    } else if is_white_space(a[0]) {
        assert(s[0] == a[0]);
        assert(s.drop_first() =~= a.drop_first() + b);
        if a.len() > 1 {
            assert(a.drop_first().last() == a.last());
        }
        lemma_words_concat(a.drop_first(), b);
    } else {
        lemma_word_len_bound(a);
        let n = word_len(a) as int;
        assert forall|j: int| 0 <= j < n implies !is_white_space(#[trigger] s[j]) by {
            lemma_word_len_prefix(a, j);
            assert(s[j] == a[j]);
        }
        if n < a.len() {
            lemma_word_len_end(a);
            assert(s[n] == a[n]);
            lemma_word_len_run(s, n);
            assert(s.take(n) =~= a.take(n));
            assert(s.skip(n) =~= a.skip(n) + b);
            assert(a.skip(n).last() == a.last());
            lemma_words_concat(a.skip(n), b);
            assert(words(a) == seq![a.take(n)] + words(a.skip(n)));
            assert(words(s) == seq![s.take(n)] + words(s.skip(n)));
            assert(words(s) =~= words(a) + words(b));
        } else {
            assert(!is_white_space(a.last())) by {
                lemma_word_len_prefix(a, a.len() - 1);
            }
            if b.len() == 0 {
                assert(s =~= a);
                assert(words(a) + words(b) =~= words(a));
            } else {
                assert(s[n] == b[0]);
                lemma_word_len_run(s, n);
                assert(s.take(n) =~= a);
                assert(s.skip(n) =~= b);
                assert(a.take(n) =~= a);
                assert(a.skip(n) =~= Seq::<char>::empty());
                assert(words(a) == seq![a.take(n)] + words(a.skip(n)));
                assert(words(a) =~= seq![a]);
                assert(words(s) == seq![s.take(n)] + words(s.skip(n)));
            }
        }
    }
}

/// The first word of `a` ends at white space when it ends before `a` does.
proof fn lemma_word_len_end(a: Seq<char>)
    requires
        word_len(a) < a.len(),
    ensures
        is_white_space(a[word_len(a) as int]),
    decreases a.len(),
{
    if a.len() > 0 && !is_white_space(a[0]) {
        lemma_word_len_end(a.drop_first());
    }
}

/// A word is its own only word.
pub proof fn lemma_words_of_word(w: Seq<char>)
    requires
        is_word(w),
    ensures
        words(w) == seq![w],
{
    lemma_word_len_run(w, w.len() as int);
    assert(!is_white_space(w[0]));
    let n = w.len() as int;
    assert(w.take(n) =~= w);
    assert(w.skip(n) =~= Seq::<char>::empty());
    assert(words(w) == seq![w.take(n)] + words(w.skip(n)));
    assert(words(w.skip(n)) =~= Seq::<Seq<char>>::empty());
    assert(seq![w] + Seq::<Seq<char>>::empty() =~= seq![w]);
}

/// White space alone holds no word.
pub proof fn lemma_words_of_space(s: Seq<char>)
    requires
        all_white_space(s),
    ensures
        words(s) == Seq::<Seq<char>>::empty(),
{
    lemma_words_empty(s);
}

/// Words joined by single spaces split back into those words.
pub proof fn lemma_words_join(ws: Seq<Seq<char>>)
    requires
        forall|i: int| 0 <= i < ws.len() ==> is_word(#[trigger] ws[i]),
    ensures
        words(join(ws, " "@)) == ws,
    decreases ws.len(),
{
    reveal_strlit(" ");
    if ws.len() == 0 {
        assert(words(Seq::<char>::empty()) =~= ws);
    } else if ws.len() == 1 {
        assert(is_word(ws[0]));
        lemma_words_of_word(ws[0]);
        assert(seq![ws[0]] =~= ws);
    } else {
        let init = ws.drop_last();
        assert forall|i: int| 0 <= i < init.len() implies is_word(#[trigger] init[i]) by {
            assert(init[i] == ws[i]);
        }
        lemma_words_join(init);
        let last = ws.last();
        assert(is_word(last)) by {
            assert(last == ws[ws.len() - 1]);
        }
        lemma_words_of_word(last);
        let j = join(init, " "@);
        assert((j + " "@).last() == ' ');
        lemma_words_concat(j + " "@, last);
        assert(" "@[0] == ' ');
        lemma_words_concat(j, " "@);
        lemma_words_of_space(" "@);
        assert(words(join(ws, " "@)) =~= init + seq![last]);
        assert(init + seq![last] =~= ws);
    }
}

/// Splits `chars` into its words.
pub fn split_words(chars: &Vec<char>) -> (out: Vec<Vec<char>>)
    ensures
        char_vecs_view(out@) == words(chars@),
{
    let ghost s = chars@;
    let n = chars.len();
    let mut out: Vec<Vec<char>> = Vec::new();
    let mut i: usize = 0;
    assert(s.skip(0) =~= s);
    while i < n
        invariant
            n == s.len(),
            s == chars@,
            0 <= i <= n,
            words(s) == char_vecs_view(out@) + words(s.skip(i as int)),
        decreases n - i,
    {
        if is_whitespace(chars[i]) {
            assert(s.skip(i as int).drop_first() =~= s.skip(i + 1));
            i = i + 1;
        } else {
            let start = i;
            let mut w: Vec<char> = Vec::new();
            while i < n && !is_whitespace(chars[i])
                invariant
                    n == s.len(),
                    s == chars@,
                    start <= i <= n,
                    start < n,
                    !is_white_space(s[start as int]),
                    w@ == s.subrange(start as int, i as int),
                    forall|j: int| start <= j < i ==> !is_white_space(#[trigger] s[j]),
                decreases n - i,
            {
                w.push(chars[i]);
                i = i + 1;
            }
            proof {
                let t = s.skip(start as int);
                let m = i - start;
                assert forall|j: int| 0 <= j < m implies !is_white_space(#[trigger] t[j]) by {
                    assert(t[j] == s[start + j]);
                }
                if m < t.len() {
                    assert(t[m] == s[i as int]);
                }
                lemma_word_len_run(t, m);
                assert(t.take(m) =~= w@);
                assert(t.skip(m) =~= s.skip(i as int));
                assert(char_vecs_view(out@.push(w)) =~= char_vecs_view(out@).push(w@));
            }
            out.push(w);
        }
    }
    assert(s.skip(n as int) =~= Seq::<char>::empty());
    assert(char_vecs_view(out@) + words(s.skip(n as int)) =~= char_vecs_view(out@));
    out
}

// ---------------------------------------------------------------------------
// Trimming
// ---------------------------------------------------------------------------
/// `s` without its leading white space.
pub open spec fn trim_start(s: Seq<char>) -> Seq<char>
    decreases s.len(),
{
    if s.len() > 0 && is_white_space(s[0]) {
        trim_start(s.drop_first())
    } else {
        s
    }
}

/// `s` without its trailing white space.
pub open spec fn trim_end(s: Seq<char>) -> Seq<char>
    decreases s.len(),
{
    if s.len() > 0 && is_white_space(s.last()) {
        trim_end(s.drop_last())
    } else {
        s
    }
}

/// `s` without leading and trailing white space (`str::trim`).
pub open spec fn trim(s: Seq<char>) -> Seq<char> {
    trim_end(trim_start(s))
}

proof fn lemma_trim_start_skip(s: Seq<char>, i: int)
    requires
        0 <= i <= s.len(),
        forall|j: int| 0 <= j < i ==> is_white_space(#[trigger] s[j]),
    ensures
        trim_start(s) == trim_start(s.skip(i)),
    decreases i,
{
    if i > 0 {
        assert(s.drop_first().skip(i - 1) =~= s.skip(i));
        assert forall|j: int| 0 <= j < i - 1 implies is_white_space(#[trigger] s.drop_first()[j]) by {
            assert(s.drop_first()[j] == s[j + 1]);
        }
        lemma_trim_start_skip(s.drop_first(), i - 1);
    } else {
        assert(s.skip(0) =~= s);
    }
}

proof fn lemma_trim_end_take(s: Seq<char>, i: int)
    requires
        0 <= i <= s.len(),
        forall|j: int| i <= j < s.len() ==> is_white_space(#[trigger] s[j]),
    ensures
        trim_end(s) == trim_end(s.take(i)),
    decreases s.len() - i,
{
    if i < s.len() {
        assert(s.drop_last().take(i) =~= s.take(i));
        assert forall|j: int| i <= j < s.len() - 1 implies is_white_space(#[trigger] s.drop_last()[j]) by {
            assert(s.drop_last()[j] == s[j]);
        }
        lemma_trim_end_take(s.drop_last(), i);
    } else {
        assert(s.take(i) =~= s);
    }
}

/// The trimmed form of a sequence has no white space at either end.
pub proof fn lemma_trim_ends(s: Seq<char>)
    ensures
        trim_start(s).len() > 0 ==> !is_white_space(trim_start(s)[0]),
        trim_end(s).len() > 0 ==> !is_white_space(trim_end(s).last()),
        trim_end(s).len() <= s.len(),
        forall|j: int| 0 <= j < trim_end(s).len() ==> #[trigger] trim_end(s)[j] == s[j],
    decreases s.len(),
{
    if s.len() > 0 && is_white_space(s[0]) {
        lemma_trim_ends(s.drop_first());
    }
    if s.len() > 0 && is_white_space(s.last()) {
        lemma_trim_ends(s.drop_last());
    }
}

/// `s` without leading and trailing white space (`str::trim`).
pub fn trim_str(s: &str) -> (r: &str)
    ensures
        r@ == trim(s@),
{
    let chars = str_chars(s);
    let ghost c = chars@;
    let n = chars.len();
    let mut lo: usize = 0;
    while lo < n && is_whitespace(chars[lo])
        invariant
            0 <= lo <= n,
            n == c.len(),
            c == chars@,
            forall|j: int| 0 <= j < lo ==> is_white_space(#[trigger] c[j]),
        decreases n - lo,
    {
        lo = lo + 1;
    }
    proof {
        lemma_trim_start_skip(c, lo as int);
    }
    let ghost t = c.skip(lo as int);
    assert(lo == n || !is_white_space(t[0]));
    assert(trim_start(t) == t);
    let mut hi: usize = n;
    while hi > lo && is_whitespace(chars[hi - 1])
        invariant
            lo <= hi <= n,
            n == c.len(),
            c == chars@,
            t == c.skip(lo as int),
            forall|j: int| hi <= j < n ==> is_white_space(#[trigger] c[j]),
        decreases hi,
    {
        hi = hi - 1;
    }
    proof {
        let m = hi - lo;
        assert forall|j: int| m <= j < t.len() implies is_white_space(#[trigger] t[j]) by {
            assert(t[j] == c[lo + j]);
        }
        lemma_trim_end_take(t, m);
        let u = t.take(m);
        if m > 0 {
            assert(u.last() == c[hi - 1]);
        }
        assert(trim_end(u) == u);
        assert(u =~= c.subrange(lo as int, hi as int));
    }
    s.substring_char(lo, hi)
}

/// `s` without leading white space (`str::trim_start`).
pub fn trim_start_str(s: &str) -> (r: &str)
    ensures
        r@ == trim_start(s@),
{
    let chars = str_chars(s);
    let ghost c = chars@;
    let n = chars.len();
    let mut lo: usize = 0;
    while lo < n && is_whitespace(chars[lo])
        invariant
            0 <= lo <= n,
            n == c.len(),
            c == chars@,
            forall|j: int| 0 <= j < lo ==> is_white_space(#[trigger] c[j]),
        decreases n - lo,
    {
        lo = lo + 1;
    }
    proof {
        lemma_trim_start_skip(c, lo as int);
        assert(c.skip(lo as int) =~= c.subrange(lo as int, n as int));
    }
    s.substring_char(lo, n)
}

// ---------------------------------------------------------------------------
// Lines
// ---------------------------------------------------------------------------
/// The number of leading characters of `s` before the first line feed.
pub open spec fn line_len(s: Seq<char>) -> nat
    decreases s.len(),
{
    if s.len() == 0 || s[0] == '\n' {
        0
    } else {
        1 + line_len(s.drop_first())
    }
}

/// The first line fits in `s`, and a line feed follows it when it ends
/// before `s` does.
pub proof fn lemma_line_len_bound(s: Seq<char>)
    ensures
        line_len(s) <= s.len(),
        line_len(s) < s.len() ==> s[line_len(s) as int] == '\n',
    decreases s.len(),
{
    if s.len() > 0 && s[0] != '\n' {
        lemma_line_len_bound(s.drop_first());
    }
}

/// The pieces of `s` between line feeds (there is always at least one).
pub open spec fn segments(s: Seq<char>) -> Seq<Seq<char>>
    decreases s.len(),
{
    proof {
        lemma_line_len_bound(s);
    }
    if line_len(s) >= s.len() {
        seq![s]
    } else {
        seq![s.take(line_len(s) as int)] + segments(s.skip(line_len(s) as int + 1))
    }
}

/// The lines of `s` (`str::lines`, up to a carriage return before a line
/// feed, which every caller removes by trimming): the pieces between line
/// feeds, where a final empty piece is not a line.
pub open spec fn lines(s: Seq<char>) -> Seq<Seq<char>> {
    if s.len() == 0 {
        seq![]
    } else if segments(s).last().len() == 0 {
        segments(s).drop_last()
    } else {
        segments(s)
    }
}

proof fn lemma_line_len_run(s: Seq<char>, n: int)
    requires
        0 <= n <= s.len(),
        forall|j: int| 0 <= j < n ==> #[trigger] s[j] != '\n',
        n == s.len() || s[n] == '\n',
    ensures
        line_len(s) == n,
    decreases n,
{
    if n > 0 {
        lemma_line_len_run(s.drop_first(), n - 1);
    }
}

/// The views of a sequence of string slices.
pub open spec fn strs_view(v: Seq<&str>) -> Seq<Seq<char>> {
    v.map_values(|s: &str| s@)
}

/// The lines of `s`, as slices of it.
pub fn lines_of(s: &str) -> (out: Vec<&str>)
    ensures
        strs_view(out@) == lines(s@),
{
    let chars = str_chars(s);
    let ghost c = chars@;
    let n = chars.len();
    let mut out: Vec<&str> = Vec::new();
    let mut i: usize = 0;
    let mut start: usize = 0;
    assert(c.skip(0) =~= c);
    while i < n
        invariant
            n == c.len(),
            c == chars@,
            c == s@,
            start <= i <= n,
            forall|j: int| start <= j < i ==> #[trigger] c[j] != '\n',
            segments(c) == strs_view(out@) + segments(c.skip(start as int)),
        decreases n - i,
    {
        if chars[i] == '\n' {
            let piece = s.substring_char(start, i);
            proof {
                let t = c.skip(start as int);
                let m = i - start;
                assert forall|j: int| 0 <= j < m implies #[trigger] t[j] != '\n' by {
                    assert(t[j] == c[start + j]);
                }
                assert(t[m] == c[i as int]);
                lemma_line_len_run(t, m);
                assert(t.take(m) =~= piece@);
                assert(t.skip(m + 1) =~= c.skip(i + 1));
                assert(strs_view(out@.push(piece)) =~= strs_view(out@).push(piece@));
            }
            out.push(piece);
            i = i + 1;
            start = i;
        } else {
            i = i + 1;
        }
    }
    let piece = s.substring_char(start, n);
    proof {
        let t = c.skip(start as int);
        let m = n - start;
        assert forall|j: int| 0 <= j < m implies #[trigger] t[j] != '\n' by {
            assert(t[j] == c[start + j]);
        }
        lemma_line_len_run(t, m);
        assert(t =~= piece@);
        assert(segments(t) == seq![t]);
        assert(strs_view(out@.push(piece)) =~= strs_view(out@).push(piece@));
    }
    out.push(piece);
    assert(segments(c) =~= strs_view(out@));
    if n == 0 {
        return Vec::new();
    }
    let last = out.len() - 1;
    if out[last].is_empty() {
        let _ = out.pop();
        assert(strs_view(out@) =~= segments(c).drop_last());
    }
    out
}

// ---------------------------------------------------------------------------
// Joining
// ---------------------------------------------------------------------------
/// The concatenation of `parts` with `sep` between neighbours (`join`).
pub open spec fn join(parts: Seq<Seq<char>>, sep: Seq<char>) -> Seq<char>
    decreases parts.len(),
{
    if parts.len() == 0 {
        seq![]
    } else if parts.len() == 1 {
        parts[0]
    } else {
        join(parts.drop_last(), sep) + sep + parts.last()
    }
}

/// The join of non-empty parts is empty exactly when there are none.
pub proof fn lemma_join_empty(parts: Seq<Seq<char>>, sep: Seq<char>)
    requires
        forall|i: int| 0 <= i < parts.len() ==> #[trigger] parts[i].len() > 0,
    ensures
        join(parts, sep).len() == 0 <==> parts.len() == 0,
    decreases parts.len(),
{
    if parts.len() > 1 {
        assert(parts.last() == parts[parts.len() - 1]);
    } else if parts.len() == 1 {
        assert(parts[0].len() > 0);
    }
}

/// Non-empty parts joined begin with the first part's first character and
/// end with the last part's last character.
pub proof fn lemma_join_ends(parts: Seq<Seq<char>>, sep: Seq<char>)
    requires
        parts.len() > 0,
        forall|i: int| 0 <= i < parts.len() ==> #[trigger] parts[i].len() > 0,
    ensures
        join(parts, sep).len() > 0,
        join(parts, sep)[0] == parts[0][0],
        join(parts, sep).last() == parts.last().last(),
    decreases parts.len(),
{
    if parts.len() > 1 {
        let init = parts.drop_last();
        assert forall|i: int| 0 <= i < init.len() implies #[trigger] init[i].len() > 0 by {
            assert(init[i] == parts[i]);
        }
        lemma_join_ends(init, sep);
        assert(parts.last() == parts[parts.len() - 1]);
        assert(init[0] == parts[0]);
        let j = join(init, sep) + sep;
        assert((j + parts.last())[0] == j[0]);
        assert((j + parts.last()).last() == parts.last().last());
    } else {
        assert(parts[0].len() > 0);
    }
}

/// Text that begins and ends with a visible character is its own trim.
pub proof fn lemma_trim_visible_ends(s: Seq<char>)
    requires
        s.len() > 0,
        !is_white_space(s[0]),
        !is_white_space(s.last()),
    ensures
        trim(s) == s,
{
    assert(trim_start(s) == s);
}

/// Joins the strings of `parts` with `sep` between neighbours.
pub fn join_strings(parts: &Vec<String>, sep: &str) -> (res: String)
    ensures
        res@ == join(strings_view(parts@), sep@),
{
    let ghost v = strings_view(parts@);
    let mut res = String::new();
    let n = parts.len();
    let mut i: usize = 0;
    while i < n
        invariant
            n == parts@.len(),
            v == strings_view(parts@),
            0 <= i <= n,
            res@ == join(v.take(i as int), sep@),
        decreases n - i,
    {
        assert(v.take(i + 1).drop_last() =~= v.take(i as int));
        if i != 0 {
            res.append(sep);
        } else {
            assert(res@ =~= Seq::<char>::empty());
        }
        res.append(parts[i].as_str());
        i = i + 1;
    }
    assert(v.take(n as int) =~= v);
    res
}

// ---------------------------------------------------------------------------
// Which characters a text is made of
// ---------------------------------------------------------------------------
/// Whether every character of `s` satisfies `p`.
pub open spec fn all_chars(s: Seq<char>, p: spec_fn(char) -> bool) -> bool {
    forall|j: int| 0 <= j < s.len() ==> p(#[trigger] s[j])
}

/// Whether `s` holds no line feed.
pub open spec fn no_line_feed(s: Seq<char>) -> bool {
    all_chars(s, |c: char| c != '\n')
}

/// Whether `s` is made of white space alone.
pub open spec fn all_white_space(s: Seq<char>) -> bool {
    all_chars(s, |c: char| is_white_space(c))
}

/// A piece of a text is made of the text's characters.
pub proof fn lemma_all_chars_subrange(s: Seq<char>, p: spec_fn(char) -> bool, a: int, b: int)
    requires
        all_chars(s, p),
        0 <= a <= b <= s.len(),
    ensures
        all_chars(s.subrange(a, b), p),
{
    assert forall|j: int| 0 <= j < b - a implies p(#[trigger] s.subrange(a, b)[j]) by {
        assert(s.subrange(a, b)[j] == s[a + j]);
    }
}

/// Two texts put together are made of the characters of both.
pub proof fn lemma_all_chars_concat(a: Seq<char>, b: Seq<char>, p: spec_fn(char) -> bool)
    requires
        all_chars(a, p),
        all_chars(b, p),
    ensures
        all_chars(a + b, p),
{
    assert forall|j: int| 0 <= j < a.len() + b.len() implies p(#[trigger] (a + b)[j]) by {
        if j < a.len() {
            assert((a + b)[j] == a[j]);
        } else {
            assert((a + b)[j] == b[j - a.len()]);
        }
    }
}

/// Trimming keeps only characters of the text.
pub proof fn lemma_all_chars_trim(s: Seq<char>, p: spec_fn(char) -> bool)
    requires
        all_chars(s, p),
    ensures
        all_chars(trim_start(s), p),
        all_chars(trim_end(s), p),
        all_chars(trim(s), p),
    decreases s.len(),
{
    if s.len() > 0 {
        lemma_all_chars_subrange(s, p, 1, s.len() as int);
        lemma_all_chars_subrange(s, p, 0, s.len() - 1);
        assert(s.drop_first() =~= s.subrange(1, s.len() as int));
        assert(s.drop_last() =~= s.subrange(0, s.len() - 1));
        lemma_all_chars_trim(s.drop_first(), p);
        lemma_all_chars_trim(s.drop_last(), p);
    }
    lemma_trim_ends(trim_start(s));
    assert forall|j: int| 0 <= j < trim(s).len() implies p(#[trigger] trim(s)[j]) by {
        assert(trim(s)[j] == trim_start(s)[j]);
    }
}

/// A text trims to nothing exactly when it is all white space.
pub proof fn lemma_trim_empty(s: Seq<char>)
    ensures
        trim(s).len() == 0 <==> all_white_space(s),
    decreases s.len(),
{
    if s.len() > 0 && is_white_space(s[0]) {
        lemma_trim_empty(s.drop_first());
        assert(trim(s) == trim(s.drop_first()));
        if all_white_space(s.drop_first()) {
            assert forall|j: int| 0 <= j < s.len() implies is_white_space(#[trigger] s[j]) by {
                if j > 0 {
                    assert(s[j] == s.drop_first()[j - 1]);
                }
            }
        }
        if all_white_space(s) {
            assert forall|j: int| 0 <= j < s.len() - 1 implies is_white_space(
                #[trigger] s.drop_first()[j],
            ) by {
                assert(s.drop_first()[j] == s[j + 1]);
            }
        }
    } else if s.len() > 0 {
        lemma_trim_ends(s);
        assert(trim_start(s) == s);
        if trim(s).len() == 0 {
            lemma_trim_end_empty(s);
            assert(is_white_space(s[0]));
        }
        assert(!all_white_space(s)) by {
            assert(!is_white_space(s[0]));
        }
    }
}

/// A text that trims to nothing at its end is all white space.
proof fn lemma_trim_end_empty(s: Seq<char>)
    requires
        trim_end(s).len() == 0,
    ensures
        all_white_space(s),
    decreases s.len(),
{
    if s.len() > 0 {
        assert(is_white_space(s.last()));
        lemma_trim_end_empty(s.drop_last());
        assert forall|j: int| 0 <= j < s.len() implies is_white_space(#[trigger] s[j]) by {
            if j < s.len() - 1 {
                assert(s[j] == s.drop_last()[j]);
            }
        }
    }
}

/// No line feed comes before the end of the first line.
proof fn lemma_line_len_chars(s: Seq<char>)
    ensures
        forall|j: int| 0 <= j < line_len(s) ==> #[trigger] s[j] != '\n',
    decreases s.len(),
{
    lemma_line_len_bound(s);
    if s.len() > 0 && s[0] != '\n' {
        lemma_line_len_chars(s.drop_first());
        assert forall|j: int| 0 <= j < line_len(s) implies #[trigger] s[j] != '\n' by {
            if j > 0 {
                assert(s[j] == s.drop_first()[j - 1]);
            }
        }
    }
}

/// The pieces between line feeds hold no line feed, and only characters of
/// the text.
proof fn lemma_segments_chars(s: Seq<char>, p: spec_fn(char) -> bool)
    ensures
        forall|i: int| 0 <= i < segments(s).len() ==> no_line_feed(#[trigger] segments(s)[i]),
        all_chars(s, p) ==> forall|i: int|
            0 <= i < segments(s).len() ==> all_chars(#[trigger] segments(s)[i], p),
    decreases s.len(),
{
    lemma_line_len_bound(s);
    lemma_line_len_chars(s);
    let n = line_len(s) as int;
    if n >= s.len() {
        assert(segments(s) == seq![s]);
        assert(no_line_feed(s));
    } else {
        let rest = s.skip(n + 1);
        lemma_segments_chars(rest, p);
        let first = s.take(n);
        assert(no_line_feed(first)) by {
            assert forall|j: int| 0 <= j < first.len() implies #[trigger] first[j] != '\n' by {
                assert(first[j] == s[j]);
            }
        }
        if all_chars(s, p) {
            lemma_all_chars_subrange(s, p, 0, n);
            lemma_all_chars_subrange(s, p, n + 1, s.len() as int);
            assert(first =~= s.subrange(0, n));
            assert(rest =~= s.subrange(n + 1, s.len() as int));
        }
        let segs = segments(s);
        assert(segs == seq![first] + segments(rest));
        assert forall|i: int| 0 <= i < segs.len() implies no_line_feed(#[trigger] segs[i]) && (
        all_chars(s, p) ==> all_chars(segs[i], p)) by {
            if i > 0 {
                assert(segs[i] == segments(rest)[i - 1]);
            }
        }
    }
}

/// The lines of a text hold no line feed, and only characters of the text.
pub proof fn lemma_lines_chars(s: Seq<char>, p: spec_fn(char) -> bool)
    ensures
        forall|i: int| 0 <= i < lines(s).len() ==> no_line_feed(#[trigger] lines(s)[i]),
        all_chars(s, p) ==> forall|i: int|
            0 <= i < lines(s).len() ==> all_chars(#[trigger] lines(s)[i], p),
{
    lemma_segments_chars(s, p);
    if s.len() > 0 && segments(s).last().len() == 0 {
        assert forall|i: int| 0 <= i < lines(s).len() implies lines(s)[i] == segments(s)[i] by {}
    }
}

/// Text without a line feed is a single line.
pub proof fn lemma_single_line(s: Seq<char>)
    requires
        s.len() > 0,
        no_line_feed(s),
    ensures
        lines(s) == seq![s],
{
    lemma_line_len_run(s, s.len() as int);
    assert(segments(s) == seq![s]);
}

/// Joining two or more parts puts the first part, the separator, then the
/// join of the others.
pub proof fn lemma_join_front(parts: Seq<Seq<char>>, sep: Seq<char>)
    requires
        parts.len() >= 2,
    ensures
        join(parts, sep) == parts[0] + sep + join(parts.drop_first(), sep),
    decreases parts.len(),
{
    let rest = parts.drop_first();
    if parts.len() == 2 {
        assert(parts.drop_last().len() == 1);
        assert(join(parts.drop_last(), sep) == parts[0]);
        assert(rest.len() == 1);
        assert(join(rest, sep) == rest[0]);
    } else {
        let init = parts.drop_last();
        lemma_join_front(init, sep);
        assert(init.drop_first() =~= rest.drop_last());
        assert(rest.last() == parts.last());
        assert(join(rest, sep) == join(rest.drop_last(), sep) + sep + rest.last());
        assert(init[0] == parts[0]);
        assert(join(parts, sep) =~= parts[0] + sep + join(rest, sep));
    }
}

/// Lines without line feeds, joined by line feeds, are the lines of the
/// text, provided the last one is not empty.
pub proof fn lemma_lines_of_join(ls: Seq<Seq<char>>)
    requires
        ls.len() > 0,
        ls.last().len() > 0,
        forall|i: int| 0 <= i < ls.len() ==> no_line_feed(#[trigger] ls[i]),
    ensures
        lines(join(ls, "\n"@)) == ls,
{
    lemma_segments_join(ls);
    lemma_join_last(ls);
}

proof fn lemma_join_last(ls: Seq<Seq<char>>)
    requires
        ls.len() > 0,
    ensures
        join(ls, "\n"@).len() >= ls.last().len(),
{
    if ls.len() == 1 {
        assert(ls.last() == ls[0]);
    }
}

proof fn lemma_segments_join(ls: Seq<Seq<char>>)
    requires
        ls.len() > 0,
        forall|i: int| 0 <= i < ls.len() ==> no_line_feed(#[trigger] ls[i]),
    ensures
        segments(join(ls, "\n"@)) == ls,
    decreases ls.len(),
{
    reveal_strlit("\n");
    let a = ls[0];
    assert(no_line_feed(a));
    if ls.len() == 1 {
        if a.len() > 0 {
            lemma_line_len_run(a, a.len() as int);
        } else {
            assert(line_len(a) == 0);
        }
        assert(segments(a) =~= seq![a]);
        assert(seq![a] =~= ls);
    } else {
        let rest = ls.drop_first();
        assert forall|i: int| 0 <= i < rest.len() implies no_line_feed(#[trigger] rest[i]) by {
            assert(rest[i] == ls[i + 1]);
        }
        lemma_segments_join(rest);
        lemma_join_front(ls, "\n"@);
        let b = join(rest, "\n"@);
        let s = a + "\n"@ + b;
        assert(s[a.len() as int] == '\n');
        assert forall|j: int| 0 <= j < a.len() implies #[trigger] s[j] != '\n' by {
            assert(s[j] == a[j]);
        }
        lemma_line_len_run(s, a.len() as int);
        assert(s.take(a.len() as int) =~= a);
        assert(s.skip(a.len() as int + 1) =~= b);
        assert(segments(s) == seq![a] + segments(b));
        assert(seq![a] + rest =~= ls);
    }
}

/// Parts joined by a separator are made of the characters of the parts and
/// of the separator.
pub proof fn lemma_join_chars(parts: Seq<Seq<char>>, sep: Seq<char>, p: spec_fn(char) -> bool)
    requires
        forall|i: int| 0 <= i < parts.len() ==> all_chars(#[trigger] parts[i], p),
        all_chars(sep, p),
    ensures
        all_chars(join(parts, sep), p),
    decreases parts.len(),
{
    if parts.len() > 1 {
        let init = parts.drop_last();
        assert forall|i: int| 0 <= i < init.len() implies all_chars(#[trigger] init[i], p) by {
            assert(init[i] == parts[i]);
        }
        lemma_join_chars(init, sep, p);
        assert(all_chars(parts.last(), p)) by {
            assert(parts.last() == parts[parts.len() - 1]);
        }
        lemma_all_chars_concat(join(init, sep), sep, p);
        lemma_all_chars_concat(join(init, sep) + sep, parts.last(), p);
    } else if parts.len() == 1 {
        assert(all_chars(parts[0], p));
    }
}

// ---------------------------------------------------------------------------
// Decimal numerals
// ---------------------------------------------------------------------------
/// The character of the decimal digit `d`.
pub open spec fn digit_char(d: nat) -> char {
    (48 + d) as char
}

/// The decimal numeral of `n`, without leading zeros (`Display` for integers).
pub open spec fn decimal(n: nat) -> Seq<char>
    decreases n,
{
    if n < 10 {
        seq![digit_char(n)]
    } else {
        decimal(n / 10).push(digit_char(n % 10))
    }
}

/// The decimal numeral of `n`.
pub fn decimal_chars(n: u64) -> (v: Vec<char>)
    ensures
        v@ == decimal(n as nat),
    decreases n,
{
    let d = (n % 10) as u8;
    let c = (48u8 + d) as char;
    if n < 10 {
        let mut v: Vec<char> = Vec::new();
        v.push(c);
        assert(v@ =~= seq![digit_char(n as nat)]);
        v
    } else {
        let mut v = decimal_chars(n / 10);
        v.push(c);
        v
    }
}

} // verus!
