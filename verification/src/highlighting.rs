//! Tolerant, editor-independent syntax highlighting of Etch source.
//!
//! Highlighting never fails: every character that is not white space belongs
//! to exactly one token, whatever the text holds (unfinished strings
//! included). Token spans are byte offsets into the UTF-8 source.
use std::ops::Range;
use vstd::prelude::*;
use vstd::string::StringSliceAdditionalSpecFns;
use crate::text::{
    byte_offset, chars_of, is_alnum, is_alpha, is_ascii, is_ascii_alphabetic,
    is_ascii_alphanumeric, is_ascii_char, is_ascii_digit, is_digit, is_upper, is_whitespace,
    is_ws, lemma_byte_offset_end, lemma_byte_offset_mono, lemma_byte_offset_step, lemma_skip_ws,
    len_utf8, skip_whitespace, skip_ws,
};

verus! {

#[derive(Clone, Copy, Debug, PartialEq, Eq, Structural)]
pub enum HighlightKind {
    Comment,
    Keyword,
    String,
    Number,
    Boolean,
    Type,
    Identifier,
    Property,
    Operator,
}

/// One highlighted token: its byte span in the source and its kind.
#[derive(Debug, PartialEq, Eq)]
pub struct Highlight {
    pub span: Range<usize>,
    pub kind: HighlightKind,
}

/// The end of a line comment starting at `i`: the next newline, or the end.
pub open spec fn line_end(s: Seq<char>, i: int) -> int
    decreases s.len() - i,
{
    if 0 <= i < s.len() && s[i] != '\n' {
        line_end(s, i + 1)
    } else {
        i
    }
}

/// The end of a quoted string whose body starts at `i`; `escaped` tells
/// whether the previous character was an unescaped backslash. An unfinished
/// string runs to the end of the text.
pub open spec fn string_end(s: Seq<char>, i: int, escaped: bool) -> int
    decreases s.len() - i,
{
    if i < 0 || i >= s.len() {
        i
    } else if s[i] == '"' && !escaped {
        i + 1
    } else {
        string_end(s, i + 1, s[i] == '\\' && !escaped)
    }
}

/// Whether `c` continues a number literal.
pub open spec fn number_char(c: char) -> bool {
    is_alnum(c) || c == '.' || !is_ascii_char(c)
}

/// Whether `c` continues a word.
pub open spec fn word_char(c: char) -> bool {
    is_alnum(c) || c == '_'
}

/// The end of the run of number characters starting at `i`.
pub open spec fn number_end(s: Seq<char>, i: int) -> int
    decreases s.len() - i,
{
    if 0 <= i < s.len() && number_char(s[i]) {
        number_end(s, i + 1)
    } else {
        i
    }
}

/// The end of the run of word characters starting at `i`.
pub open spec fn word_end(s: Seq<char>, i: int) -> int
    decreases s.len() - i,
{
    if 0 <= i < s.len() && word_char(s[i]) {
        word_end(s, i + 1)
    } else {
        i
    }
}

/// The keywords of the language.
pub open spec fn is_keyword(w: Seq<char>) -> bool {
    w == seq!['l', 'e', 't'] || w == seq!['r', 'e', 't', 'u', 'r', 'n'] || w == seq![
        'm',
        'a',
        't',
        'c',
        'h',
    ] || w == seq!['t', 'y', 'p', 'e'] || w == seq!['f', 'r', 'o', 'm'] || w == seq![
        'i',
        'm',
        'p',
        'o',
        'r',
        't',
    ] || w == seq!['e', 'x', 'p', 'o', 'r', 't'] || w == seq!['i', 'f']
}

/// The boolean literals.
pub open spec fn is_boolean(w: Seq<char>) -> bool {
    w == seq!['t', 'r', 'u', 'e'] || w == seq!['f', 'a', 'l', 's', 'e']
}

/// The kind of the word `s[c..e]`.
pub open spec fn word_kind(s: Seq<char>, c: int, e: int) -> HighlightKind {
    let w = s.subrange(c, e);
    if is_keyword(w) {
        HighlightKind::Keyword
    } else if is_boolean(w) {
        HighlightKind::Boolean
    } else if is_upper(s[c]) {
        HighlightKind::Type
    } else if skip_ws(s, e) < s.len() && s[skip_ws(s, e)] == ':' {
        HighlightKind::Property
    } else {
        HighlightKind::Identifier
    }
}

/// Whether a two-character operator starts at `c`.
pub open spec fn compound_operator(s: Seq<char>, c: int) -> bool {
    0 <= c && c + 1 < s.len() && {
        let (a, b) = (s[c], s[c + 1]);
        (a == '=' && b == '=') || (a == '<' && b == '=') || (a == '>' && b == '=') || (a == '<'
            && b == '-') || (a == '-' && b == '>')
    }
}

/// The token starting at `c` (a character that is not white space): its end
/// and its kind.
pub open spec fn token_at(s: Seq<char>, c: int) -> (int, HighlightKind) {
    if c + 1 < s.len() && s[c] == '/' && s[c + 1] == '/' {
        (line_end(s, c), HighlightKind::Comment)
    } else if s[c] == '"' {
        (string_end(s, c + 1, false), HighlightKind::String)
    } else if is_digit(s[c]) {
        (number_end(s, c), HighlightKind::Number)
    } else if is_alpha(s[c]) || s[c] == '_' {
        (word_end(s, c), word_kind(s, c, word_end(s, c)))
    } else if compound_operator(s, c) {
        (c + 2, HighlightKind::Operator)
    } else {
        (c + 1, HighlightKind::Operator)
    }
}

/// The tokens of `s` from character index `c` on, as (start, end, kind) in
/// character indices.
pub open spec fn tokens_from(s: Seq<char>, c: int) -> Seq<(int, int, HighlightKind)>
    decreases s.len() - c,
{
    if c < 0 || c >= s.len() {
        Seq::empty()
    } else if is_ws(s[c]) {
        tokens_from(s, c + 1)
    } else {
        let (e, kind) = token_at(s, c);
        if e <= c || e > s.len() {
            Seq::empty()
        } else {
            seq![(c, e, kind)] + tokens_from(s, e)
        }
    }
}

/// The tokens of a whole text, in character indices.
pub open spec fn tokens(s: Seq<char>) -> Seq<(int, int, HighlightKind)> {
    tokens_from(s, 0)
}

proof fn lemma_line_end(s: Seq<char>, i: int)
    requires
        0 <= i <= s.len(),
    ensures
        i <= line_end(s, i) <= s.len(),
    decreases s.len() - i,
{
    if i < s.len() && s[i] != '\n' {
        lemma_line_end(s, i + 1);
    }
}

proof fn lemma_string_end(s: Seq<char>, i: int, escaped: bool)
    requires
        0 <= i <= s.len(),
    ensures
        i <= string_end(s, i, escaped) <= s.len(),
    decreases s.len() - i,
{
    if i < s.len() && !(s[i] == '"' && !escaped) {
        lemma_string_end(s, i + 1, s[i] == '\\' && !escaped);
    }
}

proof fn lemma_number_end(s: Seq<char>, i: int)
    requires
        0 <= i <= s.len(),
    ensures
        i <= number_end(s, i) <= s.len(),
    decreases s.len() - i,
{
    if i < s.len() && number_char(s[i]) {
        lemma_number_end(s, i + 1);
    }
}

proof fn lemma_word_end(s: Seq<char>, i: int)
    requires
        0 <= i <= s.len(),
    ensures
        i <= word_end(s, i) <= s.len(),
    decreases s.len() - i,
{
    if i < s.len() && word_char(s[i]) {
        lemma_word_end(s, i + 1);
    }
}

/// A token always consumes at least one character and stays inside the text.
proof fn lemma_token_at(s: Seq<char>, c: int)
    requires
        0 <= c < s.len(),
    ensures
        c < token_at(s, c).0 <= s.len(),
{
    if c + 1 < s.len() && s[c] == '/' && s[c + 1] == '/' {
        lemma_line_end(s, c + 1);
        assert(line_end(s, c) == line_end(s, c + 1));
    } else if s[c] == '"' {
        lemma_string_end(s, c + 1, false);
    } else if is_digit(s[c]) {
        lemma_number_end(s, c + 1);
        assert(number_end(s, c) == number_end(s, c + 1));
    } else if is_alpha(s[c]) || s[c] == '_' {
        lemma_word_end(s, c + 1);
        assert(word_end(s, c) == word_end(s, c + 1));
    }
}

/// Tokens are ordered, do not overlap, lie inside the text and are never
/// empty.
pub proof fn lemma_tokens_ordered(s: Seq<char>, c: int)
    requires
        0 <= c,
    ensures
        ({
            let t = tokens_from(s, c);
            &&& forall|i: int| 0 <= i < t.len() ==> c <= #[trigger] t[i].0 < t[i].1 <= s.len()
            &&& forall|i: int| 0 <= i < t.len() - 1 ==> #[trigger] t[i].1 <= t[i + 1].0
        }),
    decreases s.len() - c,
{
    if 0 <= c < s.len() {
        if is_ws(s[c]) {
            lemma_tokens_ordered(s, c + 1);
        } else {
            lemma_token_at(s, c);
            let (e, kind) = token_at(s, c);
            lemma_tokens_ordered(s, e);
            let rest = tokens_from(s, e);
            let t = tokens_from(s, c);
            assert(t == seq![(c, e, kind)] + rest);
            assert forall|i: int| 0 <= i < t.len() implies c <= #[trigger] t[i].0 < t[i].1
                <= s.len() by {
                if i > 0 {
                    assert(t[i] == rest[i - 1]);
                }
            }
            assert forall|i: int| 0 <= i < t.len() - 1 implies #[trigger] t[i].1 <= t[i + 1].0 by {
                if i > 0 {
                    assert(t[i] == rest[i - 1]);
                    assert(t[i + 1] == rest[i]);
                } else {
                    assert(t[1] == rest[0]);
                }
            }
        }
    }
}

/// Every character that is not white space lies inside some token.
pub proof fn lemma_tokens_cover(s: Seq<char>, c: int, k: int)
    requires
        0 <= c <= k < s.len(),
        !is_ws(s[k]),
    ensures
        exists|i: int|
            0 <= i < tokens_from(s, c).len() && #[trigger] tokens_from(s, c)[i].0 <= k
                < tokens_from(s, c)[i].1,
    decreases s.len() - c,
{
    if is_ws(s[c]) {
        lemma_tokens_cover(s, c + 1, k);
        assert(tokens_from(s, c) == tokens_from(s, c + 1));
    } else {
        lemma_token_at(s, c);
        let (e, kind) = token_at(s, c);
        let t = tokens_from(s, c);
        assert(t == seq![(c, e, kind)] + tokens_from(s, e));
        if k < e {
            assert(t[0].0 <= k < t[0].1);
        } else {
            lemma_tokens_cover(s, e, k);
            let i = choose|i: int|
                0 <= i < tokens_from(s, e).len() && #[trigger] tokens_from(s, e)[i].0 <= k
                    < tokens_from(s, e)[i].1;
            assert(t[i + 1] == tokens_from(s, e)[i]);
        }
    }
}

proof fn lemma_token_entries(s: Seq<char>, c: int)
    requires
        0 <= c,
    ensures
        forall|i: int|
            0 <= i < tokens_from(s, c).len() ==> {
                let t = #[trigger] tokens_from(s, c)[i];
                &&& c <= t.0 < s.len()
                &&& token_at(s, t.0) == (t.1, t.2)
            },
    decreases s.len() - c,
{
    if 0 <= c < s.len() {
        if is_ws(s[c]) {
            lemma_token_entries(s, c + 1);
            assert(tokens_from(s, c) == tokens_from(s, c + 1));
        } else {
            let (e, kind) = token_at(s, c);
            if c < e <= s.len() {
                lemma_token_entries(s, e);
                let rest = tokens_from(s, e);
                let t = tokens_from(s, c);
                assert(t == seq![(c, e, kind)] + rest);
                assert forall|i: int| 0 <= i < t.len() implies {
                    let x = #[trigger] t[i];
                    &&& c <= x.0 < s.len()
                    &&& token_at(s, x.0) == (x.1, x.2)
                } by {
                    if i > 0 {
                        assert(t[i] == rest[i - 1]);
                    }
                }
            }
        }
    }
}

/// Every highlighted token whose text is `true` or `false` is a Boolean,
/// and every token whose text is a keyword is a Keyword: neither is ever
/// an identifier.
pub proof fn lemma_literal_words(s: Seq<char>)
    ensures
        forall|i: int|
            0 <= i < tokens(s).len() ==> {
                let t = #[trigger] tokens(s)[i];
                let w = s.subrange(t.0, t.1);
                &&& (w == seq!['t', 'r', 'u', 'e'] || w == seq!['f', 'a', 'l', 's', 'e'])
                    ==> t.2 == HighlightKind::Boolean
                &&& (w == seq!['l', 'e', 't'] || w == seq!['r', 'e', 't', 'u', 'r', 'n'] || w
                    == seq!['m', 'a', 't', 'c', 'h'] || w == seq!['t', 'y', 'p', 'e'] || w == seq![
                    'f',
                    'r',
                    'o',
                    'm',
                ] || w == seq!['i', 'm', 'p', 'o', 'r', 't'] || w == seq!['e', 'x', 'p', 'o', 'r', 't']
                    || w == seq!['i', 'f']) ==> t.2 == HighlightKind::Keyword
            },
{
    lemma_token_entries(s, 0);
    lemma_tokens_ordered(s, 0);
    assert forall|i: int| 0 <= i < tokens(s).len() implies {
        let t = #[trigger] tokens(s)[i];
        let w = s.subrange(t.0, t.1);
        &&& (w == seq!['t', 'r', 'u', 'e'] || w == seq!['f', 'a', 'l', 's', 'e'])
            ==> t.2 == HighlightKind::Boolean
        &&& (w == seq!['l', 'e', 't'] || w == seq!['r', 'e', 't', 'u', 'r', 'n'] || w
            == seq!['m', 'a', 't', 'c', 'h'] || w == seq!['t', 'y', 'p', 'e'] || w == seq![
            'f',
            'r',
            'o',
            'm',
        ] || w == seq!['i', 'm', 'p', 'o', 'r', 't'] || w == seq!['e', 'x', 'p', 'o', 'r', 't']
            || w == seq!['i', 'f']) ==> t.2 == HighlightKind::Keyword
    } by {
        let t = tokens(s)[i];
        let w = s.subrange(t.0, t.1);
        assert(0 <= t.0 < t.1 <= s.len());
        if w.len() > 0 && (w[0] == 't' || w[0] == 'f' || w[0] == 'l' || w[0] == 'r' || w[0] == 'm'
            || w[0] == 'i' || w[0] == 'e') {
            assert(s[t.0] == w[0]);
            assert(is_alpha(s[t.0]));
            assert(token_at(s, t.0) == (word_end(s, t.0), word_kind(s, t.0, word_end(s, t.0))));
            assert(t.1 == word_end(s, t.0));
            if w == seq!['t', 'r', 'u', 'e'] || w == seq!['f', 'a', 'l', 's', 'e'] {
                assert(!is_keyword(w)) by {
                    if w == seq!['t', 'r', 'u', 'e'] {
                        assert(w[1] == 'r');
                        assert(seq!['t', 'y', 'p', 'e'][1] == 'y');
                    } else {
                        assert(w[1] == 'a');
                        assert(seq!['f', 'r', 'o', 'm'].len() == 4);
                    }
                }
                assert(is_boolean(w));
            }
        }
    }
}

/// Advances from character `from` (at byte `fb`) to character `to`, returning
/// the byte offset of `to`.
pub(crate) fn advance(s: &Vec<char>, from: usize, fb: usize, to: usize, total: usize) -> (r: usize)
    requires
        from <= to <= s@.len(),
        fb == byte_offset(s@, from as int),
        total == byte_offset(s@, s@.len() as int),
    ensures
        r == byte_offset(s@, to as int),
{
    let mut i = from;
    let mut b = fb;
    while i < to
        invariant
            from <= i <= to <= s@.len(),
            b == byte_offset(s@, i as int),
            total == byte_offset(s@, s@.len() as int),
        decreases to - i,
    {
        proof {
            lemma_byte_offset_step(s@, i as int);
            lemma_byte_offset_mono(s@, i + 1, s@.len() as int);
        }
        b = b + len_utf8(s[i]);
        i = i + 1;
    }
    b
}

fn scan_line(s: &Vec<char>, i: usize) -> (r: usize)
    requires
        i <= s@.len(),
    ensures
        r == line_end(s@, i as int),
{
    let mut j = i;
    while j < s.len() && s[j] != '\n'
        invariant
            i <= j <= s@.len(),
            line_end(s@, j as int) == line_end(s@, i as int),
        decreases s@.len() - j,
    {
        j = j + 1;
    }
    j
}

fn scan_string(s: &Vec<char>, i: usize) -> (r: usize)
    requires
        i <= s@.len(),
    ensures
        r == string_end(s@, i as int, false),
{
    let mut j = i;
    let mut escaped = false;
    while j < s.len()
        invariant
            i <= j <= s@.len(),
            string_end(s@, j as int, escaped) == string_end(s@, i as int, false),
        decreases s@.len() - j,
    {
        let c = s[j];
        if c == '"' && !escaped {
            return j + 1;
        }
        escaped = c == '\\' && !escaped;
        j = j + 1;
    }
    j
}

fn scan_number(s: &Vec<char>, i: usize) -> (r: usize)
    requires
        i <= s@.len(),
    ensures
        r == number_end(s@, i as int),
{
    let mut j = i;
    while j < s.len() && (is_ascii_alphanumeric(s[j]) || s[j] == '.' || !is_ascii(s[j]))
        invariant
            i <= j <= s@.len(),
            number_end(s@, j as int) == number_end(s@, i as int),
        decreases s@.len() - j,
    {
        j = j + 1;
    }
    j
}

fn scan_word(s: &Vec<char>, i: usize) -> (r: usize)
    requires
        i <= s@.len(),
    ensures
        r == word_end(s@, i as int),
{
    let mut j = i;
    while j < s.len() && (is_ascii_alphanumeric(s[j]) || s[j] == '_')
        invariant
            i <= j <= s@.len(),
            word_end(s@, j as int) == word_end(s@, i as int),
        decreases s@.len() - j,
    {
        j = j + 1;
    }
    j
}

/// Whether `s[from..to]` equals `w`.
fn word_is(s: &Vec<char>, from: usize, to: usize, w: &[char]) -> (r: bool)
    requires
        from <= to <= s@.len(),
    ensures
        r == (s@.subrange(from as int, to as int) == w@),
{
    if to - from != w.len() {
        proof {
            assert(s@.subrange(from as int, to as int).len() != w@.len());
        }
        return false;
    }
    let mut k: usize = 0;
    while k < w.len()
        invariant
            to - from == w@.len(),
            from <= to <= s@.len(),
            k <= w@.len(),
            forall|j: int| 0 <= j < k ==> s@[from + j] == w@[j],
        decreases w@.len() - k,
    {
        if s[from + k] != w[k] {
            proof {
                assert(s@.subrange(from as int, to as int)[k as int] != w@[k as int]);
            }
            return false;
        }
        k = k + 1;
    }
    proof {
        assert(s@.subrange(from as int, to as int) =~= w@);
    }
    true
}

fn classify_word(s: &Vec<char>, c: usize, e: usize) -> (r: HighlightKind)
    requires
        c < e <= s@.len(),
    ensures
        r == word_kind(s@, c as int, e as int),
{
    let kw_let = ['l', 'e', 't'];
    let kw_return = ['r', 'e', 't', 'u', 'r', 'n'];
    let kw_match = ['m', 'a', 't', 'c', 'h'];
    let kw_type = ['t', 'y', 'p', 'e'];
    let kw_from = ['f', 'r', 'o', 'm'];
    let kw_import = ['i', 'm', 'p', 'o', 'r', 't'];
    let kw_export = ['e', 'x', 'p', 'o', 'r', 't'];
    let kw_if = ['i', 'f'];
    let lit_true = ['t', 'r', 'u', 'e'];
    let lit_false = ['f', 'a', 'l', 's', 'e'];
    proof {
        assert(kw_let@ =~= seq!['l', 'e', 't']);
        assert(kw_return@ =~= seq!['r', 'e', 't', 'u', 'r', 'n']);
        assert(kw_match@ =~= seq!['m', 'a', 't', 'c', 'h']);
        assert(kw_type@ =~= seq!['t', 'y', 'p', 'e']);
        assert(kw_from@ =~= seq!['f', 'r', 'o', 'm']);
        assert(kw_import@ =~= seq!['i', 'm', 'p', 'o', 'r', 't']);
        assert(kw_export@ =~= seq!['e', 'x', 'p', 'o', 'r', 't']);
        assert(kw_if@ =~= seq!['i', 'f']);
        assert(lit_true@ =~= seq!['t', 'r', 'u', 'e']);
        assert(lit_false@ =~= seq!['f', 'a', 'l', 's', 'e']);
    }
    if word_is(s, c, e, &kw_let) || word_is(s, c, e, &kw_return) || word_is(s, c, e, &kw_match)
        || word_is(s, c, e, &kw_type) || word_is(s, c, e, &kw_from) || word_is(
        s,
        c,
        e,
        &kw_import,
    ) || word_is(s, c, e, &kw_export) || word_is(s, c, e, &kw_if) {
        HighlightKind::Keyword
    } else if word_is(s, c, e, &lit_true) || word_is(s, c, e, &lit_false) {
        HighlightKind::Boolean
    } else if 'A' <= s[c] && s[c] <= 'Z' {
        HighlightKind::Type
    } else {
        let k = skip_whitespace(s, e);
        if k < s.len() && s[k] == ':' {
            HighlightKind::Property
        } else {
            HighlightKind::Identifier
        }
    }
}

fn next_token(s: &Vec<char>, c: usize) -> (r: (usize, HighlightKind))
    requires
        c < s@.len(),
    ensures
        r.0 as int == token_at(s@, c as int).0,
        r.1 == token_at(s@, c as int).1,
{
    proof {
        lemma_token_at(s@, c as int);
    }
    let ch = s[c];
    let more = c < s.len() - 1;
    if more && ch == '/' && s[c + 1] == '/' {
        (scan_line(s, c), HighlightKind::Comment)
    } else if ch == '"' {
        (scan_string(s, c + 1), HighlightKind::String)
    } else if is_ascii_digit(ch) {
        (scan_number(s, c), HighlightKind::Number)
    } else if is_ascii_alphabetic(ch) || ch == '_' {
        let e = scan_word(s, c);
        (e, classify_word(s, c, e))
    } else if more && ((ch == '=' && s[c + 1] == '=') || (ch == '<' && s[c + 1] == '=')
        || (ch == '>' && s[c + 1] == '=') || (ch == '<' && s[c + 1] == '-') || (ch == '-' && s[c
        + 1] == '>')) {
        (c + 2, HighlightKind::Operator)
    } else {
        (c + 1, HighlightKind::Operator)
    }
}

/// The tokens of [`tokens`] with their character spans.
pub(crate) fn char_tokens(s: &Vec<char>) -> (r: Vec<(usize, usize, HighlightKind)>)
    ensures
        r@.len() == tokens(s@).len(),
        forall|i: int|
            0 <= i < r@.len() ==> (r@[i].0 as int, r@[i].1 as int, r@[i].2) == #[trigger] tokens(s@)[i],
{
    let mut result: Vec<(usize, usize, HighlightKind)> = Vec::new();
    let ghost mut done: Seq<(int, int, HighlightKind)> = Seq::empty();
    let mut c: usize = 0;
    proof {
        assert(done + tokens_from(s@, 0) =~= tokens(s@));
    }
    while c < s.len()
        invariant
            c <= s@.len(),
            done + tokens_from(s@, c as int) == tokens(s@),
            result@.len() == done.len(),
            forall|i: int| 0 <= i < result@.len() ==> (result@[i].0 as int, result@[i].1 as int, result@[i].2) == #[trigger] done[i],
        decreases s@.len() - c,
    {
        let ch = s[c];
        if is_whitespace(ch) {
            c = c + 1;
        } else {
            let (e, kind) = next_token(&s, c);
            proof {
                lemma_token_at(s@, c as int);
            }
            let ghost t = (c as int, e as int, kind);
            proof {
                assert(tokens_from(s@, c as int) == seq![t] + tokens_from(s@, e as int));
                assert(done.push(t) + tokens_from(s@, e as int) =~= done + tokens_from(s@, c as int));
            }
            result.push((c, e, kind));
            proof {
                done = done.push(t);
            }
            c = e;
        }
    }
    proof {
        assert(tokens_from(s@, c as int) =~= Seq::<(int, int, HighlightKind)>::empty());
        assert(done =~= tokens(s@));
    }
    result
}

/// Highlights `source`: the tokens of [`tokens`], with their character spans
/// turned into byte spans.
pub fn highlight(source: &str) -> (r: Vec<Highlight>)
    requires
        source.spec_bytes().len() <= usize::MAX,
    ensures
        r@.len() == tokens(source@).len(),
        forall|i: int|
            0 <= i < r@.len() ==> {
                let t = #[trigger] tokens(source@)[i];
                &&& r@[i].kind == t.2
                &&& r@[i].span.start == byte_offset(source@, t.0)
                &&& r@[i].span.end == byte_offset(source@, t.1)
            },
        forall|i: int|
            0 <= i < r@.len() ==> (#[trigger] r@[i].span.start as int, r@[i].span.end as int)
                == byte_spans(source@)[i],
{
    let s = chars_of(source);
    let total = source.len();
    proof {
        lemma_byte_offset_end(s@);
        assert(source.spec_bytes() == vstd::utf8::encode_utf8(source@));
    }
    let mut result: Vec<Highlight> = Vec::new();
    let ghost mut done: Seq<(int, int, HighlightKind)> = Seq::empty();
    let mut c: usize = 0;
    let mut b: usize = 0;
    proof {
        assert(s@.take(0) =~= Seq::<char>::empty());
        assert(done + tokens_from(s@, 0) =~= tokens(s@));
    }
    while c < s.len()
        invariant
            s@ == source@,
            c <= s@.len(),
            b == byte_offset(s@, c as int),
            total == byte_offset(s@, s@.len() as int),
            done + tokens_from(s@, c as int) == tokens(s@),
            result@.len() == done.len(),
            forall|i: int|
                0 <= i < result@.len() ==> {
                    let t = #[trigger] done[i];
                    &&& result@[i].kind == t.2
                    &&& result@[i].span.start == byte_offset(s@, t.0)
                    &&& result@[i].span.end == byte_offset(s@, t.1)
                },
        decreases s@.len() - c,
    {
        let ch = s[c];
        if is_whitespace(ch) {
            proof {
                lemma_byte_offset_step(s@, c as int);
                lemma_byte_offset_mono(s@, c + 1, s@.len() as int);
            }
            b = b + len_utf8(ch);
            c = c + 1;
        } else {
            let (e, kind) = next_token(&s, c);
            proof {
                lemma_token_at(s@, c as int);
            }
            let eb = advance(&s, c, b, e, total);
            let ghost t = (c as int, e as int, kind);
            proof {
                assert(tokens_from(s@, c as int) == seq![t] + tokens_from(s@, e as int));
                assert(done.push(t) + tokens_from(s@, e as int) =~= done + tokens_from(
                    s@,
                    c as int,
                ));
            }
            result.push(Highlight { span: Range { start: b, end: eb }, kind });
            proof {
                done = done.push(t);
            }
            c = e;
            b = eb;
        }
    }
    proof {
        assert(tokens_from(s@, c as int) =~= Seq::<(int, int, HighlightKind)>::empty());
        assert(done =~= tokens(s@));
    }
    result
}

/// Whether byte `b` of the UTF-8 encoding of `s` begins a character, or
/// is the end of the text.
pub open spec fn char_boundary(s: Seq<char>, b: int) -> bool {
    exists|k: int| 0 <= k <= s.len() && #[trigger] byte_offset(s, k) == b
}

/// The byte spans of the highlighted tokens of `s`, as [`highlight`]
/// returns them.
pub open spec fn byte_spans(s: Seq<char>) -> Seq<(int, int)> {
    Seq::new(
        tokens(s).len(),
        |i: int| (byte_offset(s, tokens(s)[i].0) as int, byte_offset(s, tokens(s)[i].1) as int),
    )
}

/// Whether byte `b` lies in one of the spans.
pub open spec fn in_some_span(spans: Seq<(int, int)>, b: int) -> bool {
    exists|i: int| 0 <= i < spans.len() && (#[trigger] spans[i]).0 <= b < spans[i].1
}

/// Whether byte `b` belongs to a white-space character of `s`.
pub open spec fn whitespace_byte(s: Seq<char>, b: int) -> bool {
    exists|k: int|
        0 <= k < s.len() && #[trigger] byte_offset(s, k) <= b < byte_offset(s, k + 1) && is_ws(s[k])
}

proof fn lemma_byte_offset_strict(s: Seq<char>, i: int, j: int)
    requires
        0 <= i < j <= s.len(),
    ensures
        byte_offset(s, i) < byte_offset(s, j),
{
    lemma_byte_offset_step(s, i);
    lemma_byte_offset_mono(s, i + 1, j);
}

proof fn lemma_char_at_byte(s: Seq<char>, b: int, k: int)
    requires
        0 <= k <= s.len(),
        byte_offset(s, k) <= b < byte_offset(s, s.len() as int),
    ensures
        exists|j: int| k <= j < s.len() && #[trigger] byte_offset(s, j) <= b < byte_offset(s, j + 1),
    decreases s.len() - k,
{
    if k < s.len() {
        if b >= byte_offset(s, k + 1) {
            lemma_char_at_byte(s, b, k + 1);
        } else {
            assert(byte_offset(s, k) <= b < byte_offset(s, k + 1));
        }
    }
}

/// The spans of [`highlight`] in bytes: each is non-empty, starts and ends
/// on character boundaries inside the text, they come in increasing order
/// without overlapping, and every byte outside all of them belongs to a
/// white-space character, so each other character lies in exactly one.
pub proof fn lemma_highlight_bytes(s: Seq<char>)
    ensures
        ({
            let sp = byte_spans(s);
            let n = vstd::utf8::encode_utf8(s).len() as int;
            &&& forall|i: int|
                0 <= i < sp.len() ==> {
                    &&& (#[trigger] sp[i]).0 < sp[i].1 <= n
                    &&& char_boundary(s, sp[i].0)
                    &&& char_boundary(s, sp[i].1)
                }
            &&& forall|i: int| 0 <= i < sp.len() - 1 ==> (#[trigger] sp[i]).1 <= sp[i + 1].0
            &&& forall|b: int|
                0 <= b < n && !in_some_span(sp, b) ==> #[trigger] whitespace_byte(s, b)
        }),
{
    let t = tokens(s);
    let sp = byte_spans(s);
    let n = vstd::utf8::encode_utf8(s).len() as int;
    lemma_tokens_ordered(s, 0);
    lemma_byte_offset_end(s);
    assert forall|i: int| 0 <= i < sp.len() implies {
        &&& (#[trigger] sp[i]).0 < sp[i].1 <= n
        &&& char_boundary(s, sp[i].0)
        &&& char_boundary(s, sp[i].1)
    } by {
        assert(0 <= t[i].0 < t[i].1 <= s.len());
        lemma_byte_offset_strict(s, t[i].0, t[i].1);
        lemma_byte_offset_mono(s, t[i].1, s.len() as int);
    }
    assert forall|i: int| 0 <= i < sp.len() - 1 implies (#[trigger] sp[i]).1 <= sp[i + 1].0 by {
        assert(t[i].1 <= t[i + 1].0);
        assert(0 <= t[i].0 < t[i].1);
        assert(t[i + 1].0 < t[i + 1].1 <= s.len());
        lemma_byte_offset_mono(s, t[i].1, t[i + 1].0);
    }
    assert forall|b: int| 0 <= b < n && !in_some_span(sp, b) implies #[trigger] whitespace_byte(s, b) by {
        assert(byte_offset(s, 0) == 0) by {
            assert(s.take(0) =~= Seq::<char>::empty());
        }
        lemma_char_at_byte(s, b, 0);
        let k = choose|k: int| 0 <= k < s.len() && #[trigger] byte_offset(s, k) <= b < byte_offset(s, k + 1);
        if !is_ws(s[k]) {
            lemma_tokens_cover(s, 0, k);
            let i = choose|i: int| 0 <= i < t.len() && #[trigger] t[i].0 <= k < t[i].1;
            lemma_byte_offset_mono(s, t[i].0, k);
            lemma_byte_offset_mono(s, k + 1, t[i].1);
            assert(sp[i].0 <= b < sp[i].1);
        }
    }
}

} // verus!
