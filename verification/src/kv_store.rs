//! A line-oriented key-value protocol: the command parser, the in-memory
//! store the commands act on, and the answer to each request line.
//!
//! The protocol:
//! - `GET key`
//! - `SET key value` (everything after the key is the value, words joined by
//!   single spaces)
//! - `DEL key`
//! - `PING`
use vstd::prelude::*;
use vstd::string::StringSliceAdditionalSpecFns;
use vstd::utf8::*;

use crate::text::{
    all_white_space, char_vecs_view, chars_to_string, is_white_space, is_word, join, join_strings,
    lemma_join_empty, lemma_join_ends, lemma_trim_visible_ends, lemma_words_concat, lemma_words_empty, lemma_words_join,
    lemma_words_nonempty, lemma_words_of_space, split_words, str_chars, strings_view, trim, words,
};

verus! {

broadcast use vstd::utf8::group_utf8_lib;

/// A parsed request.
#[derive(Debug, Clone, PartialEq, Eq)]
pub enum Command {
    Get(String),
    SetValue(String, String),
    Delete(String),
    Ping,
}

/// Why a request line is refused.
#[derive(Debug, Clone, PartialEq, Eq)]
pub enum ParseError {
    Empty,
    Unknown(String),
    MissingArgument(&'static str),
}

/// The mathematical form of a [`Command`].
pub enum CommandModel {
    Get(Seq<char>),
    SetValue(Seq<char>, Seq<char>),
    Delete(Seq<char>),
    Ping,
}

/// The mathematical form of a [`ParseError`].
pub enum ParseErrorModel {
    Empty,
    Unknown(Seq<char>),
    MissingArgument(Seq<char>),
}

impl View for Command {
    type V = CommandModel;

    open spec fn view(&self) -> CommandModel {
        match self {
            Command::Get(k) => CommandModel::Get(k@),
            Command::SetValue(k, v) => CommandModel::SetValue(k@, v@),
            Command::Delete(k) => CommandModel::Delete(k@),
            Command::Ping => CommandModel::Ping,
        }
    }
}

impl View for ParseError {
    type V = ParseErrorModel;

    open spec fn view(&self) -> ParseErrorModel {
        match self {
            ParseError::Empty => ParseErrorModel::Empty,
            ParseError::Unknown(s) => ParseErrorModel::Unknown(s@),
            ParseError::MissingArgument(s) => ParseErrorModel::MissingArgument(s@),
        }
    }
}

/// The mathematical form of a parse result.
pub open spec fn parse_result_view(r: Result<Command, ParseError>) -> Result<
    CommandModel,
    ParseErrorModel,
> {
    match r {
        Ok(c) => Ok(c@),
        Err(e) => Err(e@),
    }
}

// ---------------------------------------------------------------------------
// Parsing
// ---------------------------------------------------------------------------
/// The full upper-case mapping of Unicode (`str::to_uppercase`).
pub uninterp spec fn uppercase(s: Seq<char>) -> Seq<char>;

/// Whether every character of `s` is ASCII.
pub open spec fn is_ascii_text(s: Seq<char>) -> bool {
    forall|j: int| 0 <= j < s.len() ==> (#[trigger] s[j] as u32) < 128
}

/// The upper-case form of an ASCII character: `a` to `z` become `A` to `Z`,
/// every other character stays as it is.
pub open spec fn ascii_upper_char(c: char) -> char {
    if 'a' <= c && c <= 'z' {
        ((c as u32) - 32) as char
    } else {
        c
    }
}

/// The upper-case form of ASCII text, character by character.
pub open spec fn ascii_upper(s: Seq<char>) -> Seq<char> {
    s.map_values(|c: char| ascii_upper_char(c))
}

/// The upper-case form of a command word: spelled out for ASCII text, the
/// full Unicode mapping otherwise.
pub open spec fn upper_word(s: Seq<char>) -> Seq<char> {
    if is_ascii_text(s) {
        ascii_upper(s)
    } else {
        uppercase(s)
    }
}

/// `str::to_uppercase`: the upper-case form of `s`, named [`uppercase`]; on
/// ASCII text, as the Unicode mapping has it there, `a` to `z` become `A` to
/// `Z` and every other character stays.
#[verifier::external_body]
fn to_uppercase(s: &str) -> (r: String)
    ensures
        r@ == uppercase(s@),
        is_ascii_text(s@) ==> r@ == ascii_upper(s@),
{
    s.to_uppercase()
}

/// `std::str::from_utf8`: the text that `bytes` encode, present exactly when
/// they are valid UTF-8; the text's UTF-8 encoding is `bytes`.
#[verifier::external_body]
fn text_of_bytes(bytes: &[u8]) -> (res: Option<&str>)
    ensures
        res is Some <==> valid_utf8(bytes@),
        res matches Some(s) ==> s.spec_bytes() == bytes@,
{
    std::str::from_utf8(bytes).ok()
}

/// The quoted, escaped form of a text (`Debug` for `str`).
pub uninterp spec fn debug_quoted(s: Seq<char>) -> Seq<char>;

/// `<str as Debug>::fmt`: the quoted, escaped form of `s`, named
/// [`debug_quoted`].
#[verifier::external_body]
fn quote_for_debug(s: &str) -> (r: String)
    ensures
        r@ == debug_quoted(s@),
{
    format!("{:?}", s)
}

/// What a command word (already upper-cased) and its arguments parse to.
pub open spec fn dispatch_spec(cmd: Seq<char>, args: Seq<Seq<char>>) -> Result<
    CommandModel,
    ParseErrorModel,
> {
    if cmd == "GET"@ {
        if args.len() == 0 {
            Err(ParseErrorModel::MissingArgument("GET"@))
        } else {
            Ok(CommandModel::Get(args[0]))
        }
    } else if cmd == "SET"@ {
        if args.len() == 0 {
            Err(ParseErrorModel::MissingArgument("SET"@))
        } else if join(args.drop_first(), " "@).len() == 0 {
            Err(ParseErrorModel::MissingArgument("SET"@))
        } else {
            Ok(CommandModel::SetValue(args[0], join(args.drop_first(), " "@)))
        }
    } else if cmd == "DEL"@ {
        if args.len() == 0 {
            Err(ParseErrorModel::MissingArgument("DEL"@))
        } else {
            Ok(CommandModel::Delete(args[0]))
        }
    } else if cmd == "PING"@ {
        Ok(CommandModel::Ping)
    } else {
        Err(ParseErrorModel::Unknown(cmd))
    }
}

/// What a line of text parses to: a line with no words is empty; otherwise
/// the upper-cased first word selects the command and the others are its
/// arguments.
pub open spec fn parse_text_spec(text: Seq<char>) -> Result<CommandModel, ParseErrorModel> {
    if words(text).len() == 0 {
        Err(ParseErrorModel::Empty)
    } else {
        dispatch_spec(upper_word(words(text)[0]), words(text).drop_first())
    }
}

/// What a request line parses to; bytes that are not UTF-8 are refused.
pub open spec fn parse_command_spec(input: Seq<u8>) -> Result<CommandModel, ParseErrorModel> {
    if valid_utf8(input) {
        parse_text_spec(decode_utf8(input))
    } else {
        Err(ParseErrorModel::Unknown("non utf-8 input"@))
    }
}

/// Whether `s` is the text `keyword`.
fn is_keyword(s: &String, keyword: &str) -> (b: bool)
    ensures
        b == (s@ == keyword@),
{
    let k = keyword.to_string();
    *s == k
}

/// Builds the command selected by the upper-cased command word `cmd` from
/// its arguments.
pub fn dispatch_command(cmd: &String, args: &Vec<String>) -> (res: Result<Command, ParseError>)
    ensures
        parse_result_view(res) == dispatch_spec(cmd@, strings_view(args@)),
{
    let ghost a = strings_view(args@);
    if is_keyword(cmd, "GET") {
        if args.len() == 0 {
            Err(ParseError::MissingArgument("GET"))
        } else {
            Ok(Command::Get(args[0].clone()))
        }
    } else if is_keyword(cmd, "SET") {
        if args.len() == 0 {
            return Err(ParseError::MissingArgument("SET"));
        }
        let mut rest: Vec<String> = Vec::new();
        let mut i: usize = 1;
        while i < args.len()
            invariant
                1 <= i <= args.len(),
                a == strings_view(args@),
                strings_view(rest@) == a.subrange(1, i as int),
            decreases args.len() - i,
        {
            let ghost before = rest@;
            rest.push(args[i].clone());
            assert(strings_view(rest@) =~= strings_view(before).push(a[i as int]));
            assert(strings_view(rest@) =~= a.subrange(1, i + 1));
            i = i + 1;
        }
        assert(a.subrange(1, args.len() as int) =~= a.drop_first());
        let value = join_strings(&rest, " ");
        if value.as_str().is_empty() {
            return Err(ParseError::MissingArgument("SET"));
        }
        Ok(Command::SetValue(args[0].clone(), value))
    } else if is_keyword(cmd, "DEL") {
        if args.len() == 0 {
            Err(ParseError::MissingArgument("DEL"))
        } else {
            Ok(Command::Delete(args[0].clone()))
        }
    } else if is_keyword(cmd, "PING") {
        Ok(Command::Ping)
    } else {
        Err(ParseError::Unknown(cmd.clone()))
    }
}

/// Parses one line of text.
pub fn parse_line(text: &str) -> (res: Result<Command, ParseError>)
    ensures
        parse_result_view(res) == parse_text_spec(text@),
{
    let chars = str_chars(text);
    let pieces = split_words(&chars);
    if pieces.len() == 0 {
        return Err(ParseError::Empty);
    }
    let ghost w = char_vecs_view(pieces@);
    let cmd = to_uppercase(chars_to_string(pieces[0].as_slice()).as_str());
    let mut args: Vec<String> = Vec::new();
    let mut i: usize = 1;
    while i < pieces.len()
        invariant
            1 <= i <= pieces.len(),
            w == char_vecs_view(pieces@),
            strings_view(args@) == w.subrange(1, i as int),
        decreases pieces.len() - i,
    {
        let ghost before = args@;
        args.push(chars_to_string(pieces[i].as_slice()));
        assert(strings_view(args@) =~= strings_view(before).push(w[i as int]));
        assert(strings_view(args@) =~= w.subrange(1, i + 1));
        i = i + 1;
    }
    assert(w.subrange(1, pieces.len() as int) =~= w.drop_first());
    dispatch_command(&cmd, &args)
}

/// Parses one request line of the protocol.
pub fn parse_command(input: &[u8]) -> (res: Result<Command, ParseError>)
    ensures
        parse_result_view(res) == parse_command_spec(input@),
{
    match text_of_bytes(input) {
        None => Err(ParseError::Unknown("non utf-8 input".to_string())),
        Some(text) => {
            proof {
                encode_utf8_decode_utf8(text@);
            }
            parse_line(text)
        },
    }
}

// ---------------------------------------------------------------------------
// The store
// ---------------------------------------------------------------------------
/// Whether some entry of `s` has key `k`.
pub open spec fn has_key(s: Seq<(String, String)>, k: Seq<char>) -> bool {
    exists|i: int| 0 <= i < s.len() && #[trigger] s[i].0@ == k
}

/// The map that a sequence of entries stands for.
pub open spec fn entries_map(s: Seq<(String, String)>) -> Map<Seq<char>, Seq<char>> {
    Map::new(
        |k: Seq<char>| has_key(s, k),
        |k: Seq<char>| s[choose|i: int| 0 <= i < s.len() && #[trigger] s[i].0@ == k].1@,
    )
}

/// No two entries of `s` have the same key.
pub open spec fn distinct_keys(s: Seq<(String, String)>) -> bool {
    forall|i: int, j: int| 0 <= i < j < s.len() ==> #[trigger] s[i].0@ != #[trigger] s[j].0@
}

/// The entry at `i` is what the map holds for its key.
proof fn lemma_entry_in_map(s: Seq<(String, String)>, i: int)
    requires
        distinct_keys(s),
        0 <= i < s.len(),
    ensures
        entries_map(s).contains_key(s[i].0@),
        entries_map(s)[s[i].0@] == s[i].1@,
{
    let k = s[i].0@;
    assert(has_key(s, k));
    let j = choose|j: int| 0 <= j < s.len() && #[trigger] s[j].0@ == k;
    if j < i {
        assert(s[j].0@ != s[i].0@);
    } else if j > i {
        assert(s[i].0@ != s[j].0@);
    }
}

/// The value the map holds for a key is found at the key's only entry.
proof fn lemma_map_value(s: Seq<(String, String)>, k: Seq<char>)
    requires
        distinct_keys(s),
        has_key(s, k),
    ensures
        exists|i: int| 0 <= i < s.len() && s[i].0@ == k && entries_map(s)[k] == #[trigger] s[i].1@,
{
    let i = choose|i: int| 0 <= i < s.len() && #[trigger] s[i].0@ == k;
    lemma_entry_in_map(s, i);
}

/// The in-memory store of the protocol: a map from keys to values, kept as
/// entries whose keys are pairwise distinct.
///
/// The entries are a `Vec` of pairs rather than a `HashMap<String, String>`:
/// vstd's specification of `HashMap` lets a proof follow what a lookup
/// returns only for keys whose hashing it models, such as integers, and
/// `String` keys are not among them, so with a hash map the store's laws
/// (a read gives back the last write) could not be proved.
pub struct KvStore {
    entries: Vec<(String, String)>,
}

impl View for KvStore {
    type V = Map<Seq<char>, Seq<char>>;

    closed spec fn view(&self) -> Map<Seq<char>, Seq<char>> {
        entries_map(self.entries@)
    }
}

impl KvStore {
    /// The store's invariant: no key occurs twice.
    #[verifier::type_invariant]
    spec fn wf(self) -> bool {
        distinct_keys(self.entries@)
    }

    /// An empty store.
    pub fn new() -> (store: Self)
        ensures
            store@ == Map::<Seq<char>, Seq<char>>::empty(),
    {
        let store = KvStore { entries: Vec::new() };
        assert(store@ =~= Map::<Seq<char>, Seq<char>>::empty());
        store
    }

    /// The number of keys in the store.
    pub fn len(&self) -> (n: usize)
        ensures
            n == self@.len(),
    {
        proof {
            use_type_invariant(&*self);
            self.lemma_len();
        }
        self.entries.len()
    }

    /// Whether the store holds no key.
    pub fn is_empty(&self) -> (b: bool)
        ensures
            b == (self@ == Map::<Seq<char>, Seq<char>>::empty()),
    {
        proof {
            use_type_invariant(&*self);
            self.lemma_len();
            if self@.len() == 0 {
                assert(self@ =~= Map::<Seq<char>, Seq<char>>::empty());
            }
        }
        self.entries.len() == 0
    }

    /// The store holds one key per entry.
    proof fn lemma_len(&self)
        requires
            self.wf(),
        ensures
            self@.dom().finite(),
            self@.len() == self.entries@.len(),
    {
        let s = self.entries@;
        let keys = s.map_values(|e: (String, String)| e.0@);
        assert(keys.no_duplicates()) by {
            assert forall|i: int, j: int| 0 <= i < keys.len() && 0 <= j < keys.len() && i != j
                implies keys[i] != keys[j] by {
                if i < j {
                    assert(s[i].0@ != s[j].0@);
                } else {
                    assert(s[j].0@ != s[i].0@);
                }
            }
        }
        assert(self@.dom() =~= keys.to_set()) by {
            assert forall|k: Seq<char>| self@.dom().contains(k) implies keys.to_set().contains(k) by {
                let i = choose|i: int| 0 <= i < s.len() && #[trigger] s[i].0@ == k;
                assert(keys[i] == k);
            }
            assert forall|k: Seq<char>| keys.to_set().contains(k) implies self@.dom().contains(k) by {
                let i = choose|i: int| 0 <= i < keys.len() && keys[i] == k;
                assert(s[i].0@ == k);
            }
        }
        keys.unique_seq_to_set();
    }

    /// The value stored under `key`, if any.
    pub fn get(&self, key: &String) -> (r: Option<&String>)
        ensures
            match r {
                Some(v) => self@.contains_key(key@) && v@ == self@[key@],
                None => !self@.contains_key(key@),
            },
    {
        proof {
            use_type_invariant(&*self);
        }
        match find_entry(&self.entries, key) {
            Some(i) => {
                proof {
                    lemma_entry_in_map(self.entries@, i as int);
                }
                Some(&self.entries[i].1)
            },
            None => None,
        }
    }

    /// Stores `value` under `key`, replacing what was there.
    pub fn insert(&mut self, key: String, value: String)
        ensures
            final(self)@ == old(self)@.insert(key@, value@),
    {
        proof {
            use_type_invariant(&*self);
        }
        let mut entries: Vec<(String, String)> = Vec::new();
        std::mem::swap(&mut entries, &mut self.entries);
        insert_entry(&mut entries, key, value);
        self.entries = entries;
    }

    /// Removes `key` and returns the value it held, if any.
    pub fn remove(&mut self, key: &String) -> (r: Option<String>)
        ensures
            final(self)@ == old(self)@.remove(key@),
            match r {
                Some(v) => old(self)@.contains_key(key@) && v@ == old(self)@[key@],
                None => !old(self)@.contains_key(key@),
            },
    {
        proof {
            use_type_invariant(&*self);
        }
        let mut entries: Vec<(String, String)> = Vec::new();
        std::mem::swap(&mut entries, &mut self.entries);
        let r = remove_entry(&mut entries, key);
        self.entries = entries;
        r
    }
}

/// The index of the entry with key `key`, if there is one.
fn find_entry(entries: &Vec<(String, String)>, key: &String) -> (r: Option<usize>)
    ensures
        match r {
            Some(i) => i < entries@.len() && entries@[i as int].0@ == key@,
            None => !has_key(entries@, key@),
        },
{
    let n = entries.len();
    let mut i: usize = 0;
    while i < n
        invariant
            0 <= i <= n,
            n == entries@.len(),
            forall|j: int| 0 <= j < i ==> #[trigger] entries@[j].0@ != key@,
        decreases n - i,
    {
        if entries[i].0 == *key {
            return Some(i);
        }
        i = i + 1;
    }
    None
}

/// Stores `value` under `key` in entries with distinct keys.
fn insert_entry(entries: &mut Vec<(String, String)>, key: String, value: String)
    requires
        distinct_keys(old(entries)@),
    ensures
        distinct_keys(final(entries)@),
        entries_map(final(entries)@) == entries_map(old(entries)@).insert(key@, value@),
{
    let ghost s = entries@;
    let ghost k = key@;
    let ghost v = value@;
    match find_entry(entries, &key) {
        Some(i) => {
            entries.set(i, (key, value));
            proof {
                let t = entries@;
                assert(t == s.update(i as int, t[i as int]));
                assert(distinct_keys(t)) by {
                    assert forall|a: int, b: int| 0 <= a < b < t.len() implies #[trigger] t[a].0@
                        != #[trigger] t[b].0@ by {
                        if a != i && b != i {
                            assert(s[a].0@ != s[b].0@);
                        } else if a == i {
                            assert(s[a].0@ != s[b].0@);
                        } else {
                            assert(s[a].0@ != s[b].0@);
                        }
                    }
                }
                assert(entries_map(t) =~= entries_map(s).insert(k, v)) by {
                    assert forall|x: Seq<char>| #[trigger] has_key(t, x) <==> (has_key(s, x) || x == k) by {
                        if has_key(s, x) {
                            let j = choose|j: int| 0 <= j < s.len() && #[trigger] s[j].0@ == x;
                            assert(t[j].0@ == x);
                        }
                        if has_key(t, x) {
                            let j = choose|j: int| 0 <= j < t.len() && #[trigger] t[j].0@ == x;
                            assert(s[j].0@ == x);
                        }
                        if x == k {
                            assert(t[i as int].0@ == x);
                        }
                    }
                    assert forall|x: Seq<char>| #[trigger] has_key(t, x) implies entries_map(t)[x]
                        == entries_map(s).insert(k, v)[x] by {
                        lemma_map_value(t, x);
                        let j = choose|j: int| 0 <= j < t.len() && t[j].0@ == x && entries_map(t)[x] == #[trigger] t[j].1@;
                        if j != i {
                            lemma_entry_in_map(s, j);
                        }
                    }
                }
            }
        },
        None => {
            entries.push((key, value));
            proof {
                let t = entries@;
                assert(t == s.push(t[s.len() as int]));
                assert(distinct_keys(t)) by {
                    assert forall|a: int, b: int| 0 <= a < b < t.len() implies #[trigger] t[a].0@
                        != #[trigger] t[b].0@ by {
                        if b < s.len() {
                            assert(s[a].0@ != s[b].0@);
                        } else {
                            assert(t[a] == s[a]);
                        }
                    }
                }
                assert(entries_map(t) =~= entries_map(s).insert(k, v)) by {
                    assert forall|x: Seq<char>| #[trigger] has_key(t, x) <==> (has_key(s, x) || x == k) by {
                        if has_key(s, x) {
                            let j = choose|j: int| 0 <= j < s.len() && #[trigger] s[j].0@ == x;
                            assert(t[j].0@ == x);
                        }
                        if has_key(t, x) && x != k {
                            let j = choose|j: int| 0 <= j < t.len() && #[trigger] t[j].0@ == x;
                            assert(s[j].0@ == x);
                        }
                        if x == k {
                            assert(t[s.len() as int].0@ == x);
                        }
                    }
                    assert forall|x: Seq<char>| #[trigger] has_key(t, x) implies entries_map(t)[x]
                        == entries_map(s).insert(k, v)[x] by {
                        lemma_map_value(t, x);
                        let j = choose|j: int| 0 <= j < t.len() && t[j].0@ == x && entries_map(t)[x] == #[trigger] t[j].1@;
                        if j != s.len() {
                            lemma_entry_in_map(s, j);
                        }
                    }
                }
            }
        },
    }
}

/// Removes `key` from entries with distinct keys; returns its value.
fn remove_entry(entries: &mut Vec<(String, String)>, key: &String) -> (r: Option<String>)
    requires
        distinct_keys(old(entries)@),
    ensures
        distinct_keys(final(entries)@),
        entries_map(final(entries)@) == entries_map(old(entries)@).remove(key@),
        match r {
            Some(v) => entries_map(old(entries)@).contains_key(key@) && v@ == entries_map(old(entries)@)[key@],
            None => !entries_map(old(entries)@).contains_key(key@),
        },
{
    let ghost s = entries@;
    let ghost k = key@;
    match find_entry(entries, key) {
        Some(i) => {
            proof {
                lemma_entry_in_map(s, i as int);
            }
            let (_, v) = entries.remove(i);
            proof {
                let t = entries@;
                assert(t == s.remove(i as int));
                assert(distinct_keys(t)) by {
                    assert forall|a: int, b: int| 0 <= a < b < t.len() implies #[trigger] t[a].0@
                        != #[trigger] t[b].0@ by {
                        if b < i {
                            assert(s[a].0@ != s[b].0@);
                        } else if a < i {
                            assert(t[b] == s[b + 1]);
                            assert(s[a].0@ != s[b + 1].0@);
                        } else {
                            assert(t[a] == s[a + 1]);
                            assert(t[b] == s[b + 1]);
                            assert(s[a + 1].0@ != s[b + 1].0@);
                        }
                    }
                }
                assert(entries_map(t) =~= entries_map(s).remove(k)) by {
                    assert forall|x: Seq<char>| #[trigger] has_key(t, x) <==> (has_key(s, x) && x != k) by {
                        if has_key(s, x) && x != k {
                            let j = choose|j: int| 0 <= j < s.len() && #[trigger] s[j].0@ == x;
                            assert(j != i);
                            if j < i {
                                assert(t[j].0@ == x);
                            } else {
                                assert(t[j - 1].0@ == x);
                            }
                        }
                        if has_key(t, x) {
                            let j = choose|j: int| 0 <= j < t.len() && #[trigger] t[j].0@ == x;
                            if j < i {
                                assert(s[j].0@ == x);
                                assert(s[j].0@ != s[i as int].0@);
                            } else {
                                assert(s[j + 1].0@ == x);
                                assert(s[i as int].0@ != s[j + 1].0@);
                            }
                        }
                    }
                    assert forall|x: Seq<char>| #[trigger] has_key(t, x) implies entries_map(t)[x]
                        == entries_map(s).remove(k)[x] by {
                        lemma_map_value(t, x);
                        let j = choose|j: int| 0 <= j < t.len() && t[j].0@ == x && entries_map(t)[x] == #[trigger] t[j].1@;
                        if j < i {
                            lemma_entry_in_map(s, j);
                        } else {
                            assert(t[j] == s[j + 1]);
                            lemma_entry_in_map(s, j + 1);
                        }
                    }
                }
            }
            Some(v)
        },
        None => {
            proof {
                assert(entries_map(s) =~= entries_map(s).remove(k));
            }
            None
        },
    }
}

// ---------------------------------------------------------------------------
// Executing commands
// ---------------------------------------------------------------------------
/// The store after `c` and the answer to it, for a store holding `m`.
pub open spec fn apply_spec(m: Map<Seq<char>, Seq<char>>, c: CommandModel) -> (
    Map<Seq<char>, Seq<char>>,
    Seq<char>,
) {
    match c {
        CommandModel::Get(k) => (m, if m.contains_key(k) {
            m[k] + "\n"@
        } else {
            "$nil\n"@
        }),
        CommandModel::SetValue(k, v) => (m.insert(k, v), "+OK\n"@),
        CommandModel::Delete(k) => if m.contains_key(k) {
            (m.remove(k), "+OK\n"@)
        } else {
            (m, "$nil\n"@)
        },
        CommandModel::Ping => (m, "+PONG\n"@),
    }
}

/// Executes `command` on `store` and returns the protocol's answer.
pub fn apply_command(store: &mut KvStore, command: Command) -> (response: String)
    ensures
        (final(store)@, response@) == apply_spec(old(store)@, command@),
{
    match command {
        Command::Get(key) => match store.get(&key) {
            Some(value) => {
                let mut response = value.clone();
                response.append("\n");
                response
            },
            None => "$nil\n".to_string(),
        },
        Command::SetValue(key, value) => {
            store.insert(key, value);
            "+OK\n".to_string()
        },
        Command::Delete(key) => {
            if store.remove(&key).is_some() {
                "+OK\n".to_string()
            } else {
                "$nil\n".to_string()
            }
        },
        Command::Ping => "+PONG\n".to_string(),
    }
}

/// Answers one request line: a line that parses is executed and its answer
/// returned; a line that does not is refused with the reason, and the store
/// is left as it was.
pub fn handle_line(store: &mut KvStore, line: &[u8]) -> (res: Result<String, ParseError>)
    ensures
        match parse_command_spec(line@) {
            Ok(c) => res is Ok && (final(store)@, res->Ok_0@) == apply_spec(old(store)@, c),
            Err(e) => res is Err && res->Err_0@ == e && final(store)@ == old(store)@,
        },
{
    match parse_command(line) {
        Ok(command) => Ok(apply_command(store, command)),
        Err(error) => Err(error),
    }
}

/// The text of a refusal: `-ERR`, then the reason as its variant's name
/// with its argument quoted, then a line feed.
pub open spec fn error_line_spec(e: ParseErrorModel) -> Seq<char> {
    "-ERR "@ + match e {
        ParseErrorModel::Empty => "Empty"@,
        ParseErrorModel::Unknown(s) => "Unknown("@ + debug_quoted(s) + ")"@,
        ParseErrorModel::MissingArgument(s) => "MissingArgument("@ + debug_quoted(s) + ")"@,
    } + "\n"@
}

/// The text that refuses a request for the reason `error`.
pub fn error_line(error: &ParseError) -> (line: String)
    ensures
        line@ == error_line_spec(error@),
{
    let mut line = "-ERR ".to_string();
    match error {
        ParseError::Empty => {
            line.append("Empty");
        },
        ParseError::Unknown(s) => {
            line.append("Unknown(");
            let quoted = quote_for_debug(s.as_str());
            line.append(quoted.as_str());
            line.append(")");
        },
        ParseError::MissingArgument(s) => {
            line.append("MissingArgument(");
            let quoted = quote_for_debug(s);
            line.append(quoted.as_str());
            line.append(")");
        },
    }
    line.append("\n");
    line
}

/// The answer to one request line: the command's answer when it parses,
/// the refusal otherwise (the store is then left as it was).
pub fn answer_line(store: &mut KvStore, line: &[u8]) -> (answer: String)
    ensures
        match parse_command_spec(line@) {
            Ok(c) => (final(store)@, answer@) == apply_spec(old(store)@, c),
            Err(e) => answer@ == error_line_spec(e) && final(store)@ == old(store)@,
        },
{
    match handle_line(store, line) {
        Ok(response) => response,
        Err(error) => error_line(&error),
    }
}

/// The human-readable description of a refusal.
pub open spec fn message_spec(e: ParseErrorModel) -> Seq<char> {
    match e {
        ParseErrorModel::Empty => "empty command"@,
        ParseErrorModel::Unknown(s) => "unknown command: "@ + s,
        ParseErrorModel::MissingArgument(s) => "missing argument for "@ + s,
    }
}

impl ParseError {
    /// Describes the refusal in words: `empty command`, `unknown command:`
    /// and the word, or `missing argument for` and the command.
    pub fn message(&self) -> (m: String)
        ensures
            m@ == message_spec(self@),
    {
        match self {
            ParseError::Empty => "empty command".to_string(),
            ParseError::Unknown(s) => {
                let mut m = "unknown command: ".to_string();
                m.append(s.as_str());
                m
            },
            ParseError::MissingArgument(s) => {
                let mut m = "missing argument for ".to_string();
                m.append(s);
                m
            },
        }
    }
}

// ---------------------------------------------------------------------------
// Laws of the store
// ---------------------------------------------------------------------------
/// A read gives back what the last write to the same key wrote.
pub proof fn law_get_after_set(m: Map<Seq<char>, Seq<char>>, k: Seq<char>, v: Seq<char>)
    ensures
        apply_spec(apply_spec(m, CommandModel::SetValue(k, v)).0, CommandModel::Get(k)).1 == v
            + "\n"@,
{
}

/// A write to one key does not change what a read of another key gives.
pub proof fn law_set_keeps_other_keys(
    m: Map<Seq<char>, Seq<char>>,
    k: Seq<char>,
    v: Seq<char>,
    other: Seq<char>,
)
    requires
        other != k,
    ensures
        apply_spec(apply_spec(m, CommandModel::SetValue(k, v)).0, CommandModel::Get(other)).1
            == apply_spec(m, CommandModel::Get(other)).1,
{
}

/// A second write to a key replaces the first.
pub proof fn law_set_overwrites(
    m: Map<Seq<char>, Seq<char>>,
    k: Seq<char>,
    v1: Seq<char>,
    v2: Seq<char>,
)
    ensures
        apply_spec(apply_spec(m, CommandModel::SetValue(k, v1)).0, CommandModel::SetValue(k, v2)).0
            == apply_spec(m, CommandModel::SetValue(k, v2)).0,
{
    assert(m.insert(k, v1).insert(k, v2) =~= m.insert(k, v2));
}

/// After a key is deleted, a read of it finds nothing.
pub proof fn law_get_after_delete(m: Map<Seq<char>, Seq<char>>, k: Seq<char>)
    ensures
        apply_spec(apply_spec(m, CommandModel::Delete(k)).0, CommandModel::Get(k)).1 == "$nil\n"@,
{
}

/// Deleting a key that is absent changes nothing and answers `$nil`; deleting
/// a present key answers `+OK`.
pub proof fn law_delete_answer(m: Map<Seq<char>, Seq<char>>, k: Seq<char>)
    ensures
        !m.contains_key(k) ==> apply_spec(m, CommandModel::Delete(k)) == (m, "$nil\n"@),
        m.contains_key(k) ==> apply_spec(m, CommandModel::Delete(k)).1 == "+OK\n"@,
{
}

/// Reads and pings leave the store as it was.
pub proof fn law_reads_keep_store(m: Map<Seq<char>, Seq<char>>, k: Seq<char>)
    ensures
        apply_spec(m, CommandModel::Get(k)).0 == m,
        apply_spec(m, CommandModel::Ping) == (m, "+PONG\n"@),
{
}

/// Every successful `SET` carries a non-empty key and a non-empty value.
pub proof fn law_set_value_nonempty(input: Seq<u8>)
    ensures
        parse_command_spec(input) matches Ok(CommandModel::SetValue(k, v)) ==> k.len() > 0
            && v.len() > 0,
{
    if valid_utf8(input) {
        let text = decode_utf8(input);
        lemma_words_nonempty(text);
        if words(text).len() > 0 {
            let args = words(text).drop_first();
            if args.len() > 0 {
                assert(args[0] == words(text)[1]);
            }
        }
    }
}


/// A line of nothing but white space is refused as empty.
pub proof fn law_blank_line_is_empty(input: Seq<u8>)
    requires
        valid_utf8(input),
        forall|j: int|
            0 <= j < decode_utf8(input).len() ==> is_white_space(#[trigger] decode_utf8(input)[j]),
    ensures
        parse_command_spec(input) == Err::<CommandModel, ParseErrorModel>(ParseErrorModel::Empty),
{
    lemma_words_empty(decode_utf8(input));
}

/// What a parsed request holds: every key is one word (not empty, without
/// white space), and a stored value is not empty and has no white space at
/// either end.
pub open spec fn command_fields_ok(c: CommandModel) -> bool {
    match c {
        CommandModel::Get(k) => is_word(k),
        CommandModel::Delete(k) => is_word(k),
        CommandModel::SetValue(k, v) => is_word(k) && v.len() > 0 && trim(v) == v,
        CommandModel::Ping => true,
    }
}

/// Whatever the bytes, a request that parses has one-word keys and a
/// non-empty value equal to its own trim.
pub proof fn law_parsed_fields(input: Seq<u8>)
    ensures
        parse_command_spec(input) matches Ok(c) ==> command_fields_ok(c),
{
    if valid_utf8(input) {
        let text = decode_utf8(input);
        let ws = words(text);
        lemma_words_nonempty(text);
        assert forall|i: int| 0 <= i < ws.len() implies is_word(#[trigger] ws[i]) by {
            assert(ws[i].len() > 0);
            assert forall|j: int| 0 <= j < ws[i].len() implies !is_white_space(#[trigger] ws[i][j]) by {}
        }
        if ws.len() > 1 {
            let args = ws.drop_first();
            assert(args[0] == ws[1]);
            let vals = args.drop_first();
            if vals.len() > 0 {
                assert forall|i: int| 0 <= i < vals.len() implies #[trigger] vals[i].len() > 0 by {
                    assert(vals[i] == ws[i + 2]);
                }
                lemma_join_ends(vals, " "@);
                assert(vals[0] == ws[2]);
                assert(vals.last() == ws[ws.len() - 1]);
                assert(!is_white_space(ws[2][0]));
                let last = ws[ws.len() - 1];
                assert(!is_white_space(last[last.len() - 1]));
                lemma_trim_visible_ends(join(vals, " "@));
            } else {
                assert(join(vals, " "@).len() == 0);
            }
        }
    }
}

/// The text of a request: its words joined by single spaces, then a line
/// feed.
pub open spec fn request_line(parts: Seq<Seq<char>>) -> Seq<char> {
    join(parts, " "@) + "\n"@
}

proof fn lemma_request_words(parts: Seq<Seq<char>>)
    requires
        forall|i: int| 0 <= i < parts.len() ==> is_word(#[trigger] parts[i]),
    ensures
        words(request_line(parts)) == parts,
{
    reveal_strlit("\n");
    lemma_words_join(parts);
    assert("\n"@[0] == '\n');
    assert(all_white_space("\n"@));
    lemma_words_concat(join(parts, " "@), "\n"@);
    lemma_words_of_space("\n"@);
    assert(parts + Seq::<Seq<char>>::empty() =~= parts);
}

/// A request written out parses back to the command it was written from,
/// whatever the case of its command word: `GET key`, `SET key value`,
/// `DEL key` and `PING`, sent as UTF-8, where the command word is any word
/// whose upper-case form is the keyword, the key is a word, and the value is
/// words joined by single spaces.
pub proof fn law_request_round_trip_any_case(
    word: Seq<char>,
    key: Seq<char>,
    value_words: Seq<Seq<char>>,
)
    requires
        is_word(word),
        is_word(key),
        value_words.len() > 0,
        forall|i: int| 0 <= i < value_words.len() ==> is_word(#[trigger] value_words[i]),
    ensures
        upper_word(word) == "GET"@ ==> parse_command_spec(encode_utf8(request_line(seq![word, key])))
            == Ok::<CommandModel, ParseErrorModel>(CommandModel::Get(key)),
        upper_word(word) == "SET"@ ==> parse_command_spec(
            encode_utf8(request_line(seq![word, key] + value_words)),
        ) == Ok::<CommandModel, ParseErrorModel>(
            CommandModel::SetValue(key, join(value_words, " "@)),
        ),
        upper_word(word) == "DEL"@ ==> parse_command_spec(encode_utf8(request_line(seq![word, key])))
            == Ok::<CommandModel, ParseErrorModel>(CommandModel::Delete(key)),
        upper_word(word) == "PING"@ ==> parse_command_spec(encode_utf8(request_line(seq![word])))
            == Ok::<CommandModel, ParseErrorModel>(CommandModel::Ping),
{
    reveal_strlit("GET");
    reveal_strlit("SET");
    reveal_strlit("DEL");
    reveal_strlit("PING");
    assert("SET"@ != "GET"@) by {
        assert("SET"@[0] != "GET"@[0]);
    }
    assert("DEL"@ != "GET"@ && "DEL"@ != "SET"@) by {
        assert("DEL"@[0] != "GET"@[0]);
        assert("DEL"@[0] != "SET"@[0]);
    }
    assert("PING"@ != "GET"@ && "PING"@ != "SET"@ && "PING"@ != "DEL"@) by {
        assert("PING"@.len() != "GET"@.len());
    }
    let two = seq![word, key];
    let all = two + value_words;
    assert forall|i: int| 0 <= i < all.len() implies is_word(#[trigger] all[i]) by {
        if i >= 2 {
            assert(all[i] == value_words[i - 2]);
        }
    }
    lemma_request_words(seq![word]);
    lemma_request_words(two);
    lemma_request_words(all);
    assert(two.drop_first() =~= seq![key]);
    assert(all.drop_first().drop_first() =~= value_words);
    assert(all.drop_first()[0] == key);
    assert forall|i: int| 0 <= i < value_words.len() implies #[trigger] value_words[i].len() > 0 by {
        assert(is_word(value_words[i]));
    }
    lemma_join_empty(value_words, " "@);
}

/// A keyword is a word, and its own upper-case form.
proof fn lemma_keyword(kw: Seq<char>)
    requires
        kw == "GET"@ || kw == "SET"@ || kw == "DEL"@ || kw == "PING"@,
    ensures
        is_word(kw),
        upper_word(kw) == kw,
{
    reveal_strlit("GET");
    reveal_strlit("SET");
    reveal_strlit("DEL");
    reveal_strlit("PING");
    assert(is_ascii_text(kw));
    assert(ascii_upper(kw) =~= kw);
}

/// A request written out with its keyword parses back to the command it was
/// written from: `GET key`, `SET key value`, `DEL key` and `PING`, each
/// followed by a line feed and sent as UTF-8, where the key is a word and the
/// value is words joined by single spaces.
pub proof fn law_request_round_trip(key: Seq<char>, value_words: Seq<Seq<char>>)
    requires
        is_word(key),
        value_words.len() > 0,
        forall|i: int| 0 <= i < value_words.len() ==> is_word(#[trigger] value_words[i]),
    ensures
        parse_command_spec(encode_utf8(request_line(seq!["GET"@, key]))) == Ok::<
            CommandModel,
            ParseErrorModel,
        >(CommandModel::Get(key)),
        parse_command_spec(encode_utf8(request_line(seq!["SET"@, key] + value_words))) == Ok::<
            CommandModel,
            ParseErrorModel,
        >(CommandModel::SetValue(key, join(value_words, " "@))),
        parse_command_spec(encode_utf8(request_line(seq!["DEL"@, key]))) == Ok::<
            CommandModel,
            ParseErrorModel,
        >(CommandModel::Delete(key)),
        parse_command_spec(encode_utf8(request_line(seq!["PING"@]))) == Ok::<
            CommandModel,
            ParseErrorModel,
        >(CommandModel::Ping),
{
    lemma_keyword("GET"@);
    lemma_keyword("SET"@);
    lemma_keyword("DEL"@);
    lemma_keyword("PING"@);
    law_request_round_trip_any_case("GET"@, key, value_words);
    law_request_round_trip_any_case("SET"@, key, value_words);
    law_request_round_trip_any_case("DEL"@, key, value_words);
    law_request_round_trip_any_case("PING"@, key, value_words);
}

/// Deleting a key leaves every other key as it was: a read of another key
/// answers after the delete what it answered before, and the store holds
/// the same other keys with the same values.
pub proof fn law_delete_keeps_other_keys(
    m: Map<Seq<char>, Seq<char>>,
    k: Seq<char>,
    other: Seq<char>,
)
    requires
        other != k,
    ensures
        apply_spec(apply_spec(m, CommandModel::Delete(k)).0, CommandModel::Get(other)).1
            == apply_spec(m, CommandModel::Get(other)).1,
        apply_spec(m, CommandModel::Delete(k)).0.contains_key(other) == m.contains_key(other),
        m.contains_key(other) ==> apply_spec(m, CommandModel::Delete(k)).0[other] == m[other],
        !apply_spec(m, CommandModel::Delete(k)).0.contains_key(k),
{
}

} // verus!
