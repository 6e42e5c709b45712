//! The lexer of the Etch language: numbers with SI prefixes and units,
//! strings with escapes, operators and punctuation, keywords and names,
//! separated by white space and `//` comments. A character that starts no
//! token is skipped with an error and lexing resumes.
use vstd::prelude::*;
use std::ops::Range;
use vstd::string::StringSliceAdditionalSpecFns;
use crate::text::{
    byte_offset, chars_of, is_alnum, is_alpha, is_ascii_alphabetic, is_ascii_alphanumeric,
    is_ascii_digit, is_digit, is_whitespace, is_ws, lemma_byte_offset_end, lemma_byte_offset_mono,
    lemma_byte_offset_step, len_utf8, slice_chars, str_eq, string_of,
};

verus! {

#[derive(Clone, Copy, Debug, PartialEq, Eq, Structural)]
pub enum Keyword {
    Let,
    Return,
    Match,
    Type,
    From,
    Import,
    Export,
    If,
}

#[derive(Clone, Copy, Debug, PartialEq, Eq, Structural)]
pub enum Symbols {
    DoubleEquals,
    Lt,
    Gt,
    Le,
    Ge,
    Bang,
    Plus,
    Minus,
    Slash,
    Star,
    Pipe,
    BackArrow,
    Semicolon,
    Comma,
    Dot,
    OpenParenthesis,
    ClosedParenthesis,
    OpenSquare,
    ClosedSquare,
    OpenCurly,
    ClosedCurly,
    Arrow,
    Colon,
    Equals,
    At,
    Question,
}

/// An SI prefix of a number.
#[derive(Clone, Copy, Debug, PartialEq, Eq, Structural)]
pub enum Prefix {
    Nano,
    Micro,
    Mili,
    Kilo,
    Mega,
    Giga,
}

/// A token. A number keeps its digits as written (`12` or `1.5`), its
/// prefix and its unit; its value is the digits times the prefix's factor.
#[derive(Debug)]
pub enum Token {
    Bool(bool),
    Number { digits: String, prefix: Option<Prefix>, unit: Option<String> },
    Str(String),
    Symbol(Symbols),
    Identifier(String),
    Keyword(Keyword),
}

/// The mathematical value of a [`Token`].
pub enum TokenView {
    Bool(bool),
    Number { digits: Seq<char>, prefix: Option<Prefix>, unit: Option<Seq<char>> },
    Str(Seq<char>),
    Symbol(Symbols),
    Identifier(Seq<char>),
    Keyword(Keyword),
}

impl Token {
    pub open spec fn view(&self) -> TokenView {
        match self {
            Token::Bool(b) => TokenView::Bool(*b),
            Token::Number { digits, prefix, unit } => TokenView::Number {
                digits: digits@,
                prefix: *prefix,
                unit: match unit {
                    Some(u) => Some(u@),
                    None => None,
                },
            },
            Token::Str(s) => TokenView::Str(s@),
            Token::Symbol(s) => TokenView::Symbol(*s),
            Token::Identifier(s) => TokenView::Identifier(s@),
            Token::Keyword(k) => TokenView::Keyword(*k),
        }
    }
}

/// A token with the byte range of the source it was read from.
#[derive(Debug)]
pub struct Spanned {
    pub token: Token,
    pub span: Range<usize>,
}

/// A character at which no token starts, by its byte range (empty at the end
/// of the source).
#[derive(Debug, PartialEq, Eq)]
pub struct LexError {
    pub span: Range<usize>,
}

// ---------------------------------------------------------------------------
// The grammar, character by character
// ---------------------------------------------------------------------------

/// The end of the white space and `//` comments starting at `i`;
/// `comment` tells whether `i` is inside a comment.
pub open spec fn pad(s: Seq<char>, i: int, comment: bool) -> int
    decreases s.len() - i,
{
    if i < 0 || i >= s.len() {
        i
    } else if comment {
        pad(s, i + 1, s[i] != '\n')
    } else if is_ws(s[i]) {
        pad(s, i + 1, false)
    } else if i + 1 < s.len() && s[i] == '/' && s[i + 1] == '/' {
        pad(s, i + 2, true)
    } else {
        i
    }
}

/// The end of the run of characters satisfying `is_digit` from `i`.
pub open spec fn digits_end(s: Seq<char>, i: int) -> int
    decreases s.len() - i,
{
    if 0 <= i < s.len() && is_digit(s[i]) {
        digits_end(s, i + 1)
    } else {
        i
    }
}

/// Whether `c` continues a name.
pub open spec fn name_char(c: char) -> bool {
    is_alnum(c) || c == '_'
}

/// Whether `c` starts a name.
pub open spec fn name_start(c: char) -> bool {
    is_alpha(c) || c == '_'
}

/// The end of the run of name characters from `i`.
pub open spec fn name_end(s: Seq<char>, i: int) -> int
    decreases s.len() - i,
{
    if 0 <= i < s.len() && name_char(s[i]) {
        name_end(s, i + 1)
    } else {
        i
    }
}

/// The prefix a character denotes.
pub open spec fn prefix_of(c: char) -> Option<Prefix> {
    if c == 'n' {
        Some(Prefix::Nano)
    } else if c == 'u' {
        Some(Prefix::Micro)
    } else if c == 'm' {
        Some(Prefix::Mili)
    } else if c == 'k' {
        Some(Prefix::Kilo)
    } else if c == 'M' {
        Some(Prefix::Mega)
    } else if c == 'G' {
        Some(Prefix::Giga)
    } else {
        None
    }
}

/// The end of the digits of a number starting at digit `j`: a single `0`
/// or digits without a leading zero, then an optional `.` and digits.
pub open spec fn number_digits_end(s: Seq<char>, j: int) -> int {
    let k = if s[j] == '0' {
        j + 1
    } else {
        digits_end(s, j)
    };
    if k + 1 < s.len() && s[k] == '.' && is_digit(s[k + 1]) {
        digits_end(s, k + 1)
    } else {
        k
    }
}

/// The number token starting at digit `j` and its end.
pub open spec fn lex_number(s: Seq<char>, j: int) -> (TokenView, int) {
    let t = number_digits_end(s, j);
    let (prefix, u) = if t < s.len() && prefix_of(s[t]) is Some {
        (prefix_of(s[t]), t + 1)
    } else {
        (None, t)
    };
    let (unit, e) = if u < s.len() && name_start(s[u]) {
        (Some(s.subrange(u, name_end(s, u))), name_end(s, u))
    } else {
        (None, u)
    };
    (TokenView::Number { digits: s.subrange(j, t), prefix, unit }, e)
}

/// The character an escape `\c` stands for.
pub open spec fn escape_of(c: char) -> Option<char> {
    if c == '"' {
        Some('"')
    } else if c == '\\' {
        Some('\\')
    } else if c == 'n' {
        Some('\n')
    } else if c == 'r' {
        Some('\r')
    } else if c == 't' {
        Some('\t')
    } else if c == '0' {
        Some('\0')
    } else {
        None
    }
}

/// The rest of a string whose text so far is `acc` and whose next
/// character is at `k`: its text and end, or nothing when it is not closed
/// or holds an unknown escape.
pub open spec fn lex_string(s: Seq<char>, k: int, acc: Seq<char>) -> Option<(Seq<char>, int)>
    decreases s.len() - k,
{
    if k < 0 || k >= s.len() {
        None
    } else if s[k] == '"' {
        Some((acc, k + 1))
    } else if s[k] == '\\' {
        if k + 1 < s.len() && escape_of(s[k + 1]) is Some {
            lex_string(s, k + 2, acc.push(escape_of(s[k + 1])->0))
        } else {
            None
        }
    } else {
        lex_string(s, k + 1, acc.push(s[k]))
    }
}

/// The operator or punctuation symbol at `j` (the longest one), and its end.
pub open spec fn symbol_at(s: Seq<char>, j: int) -> Option<(Symbols, int)> {
    let c = s[j];
    let d = if j + 1 < s.len() {
        s[j + 1]
    } else {
        ' '
    };
    if c == '=' && d == '=' {
        Some((Symbols::DoubleEquals, j + 2))
    } else if c == '<' && d == '=' {
        Some((Symbols::Le, j + 2))
    } else if c == '>' && d == '=' {
        Some((Symbols::Ge, j + 2))
    } else if c == '<' && d == '-' {
        Some((Symbols::BackArrow, j + 2))
    } else if c == '-' && d == '>' {
        Some((Symbols::Arrow, j + 2))
    } else {
        match single_symbol(c) {
            Some(sym) => Some((sym, j + 1)),
            None => None,
        }
    }
}

/// The one-character symbol `c` is.
pub open spec fn single_symbol(c: char) -> Option<Symbols> {
    if c == '<' {
        Some(Symbols::Lt)
    } else if c == '>' {
        Some(Symbols::Gt)
    } else if c == '!' {
        Some(Symbols::Bang)
    } else if c == '+' {
        Some(Symbols::Plus)
    } else if c == '-' {
        Some(Symbols::Minus)
    } else if c == '/' {
        Some(Symbols::Slash)
    } else if c == '*' {
        Some(Symbols::Star)
    } else if c == '|' {
        Some(Symbols::Pipe)
    } else if c == ';' {
        Some(Symbols::Semicolon)
    } else if c == ',' {
        Some(Symbols::Comma)
    } else if c == '.' {
        Some(Symbols::Dot)
    } else if c == '(' {
        Some(Symbols::OpenParenthesis)
    } else if c == ')' {
        Some(Symbols::ClosedParenthesis)
    } else if c == '[' {
        Some(Symbols::OpenSquare)
    } else if c == ']' {
        Some(Symbols::ClosedSquare)
    } else if c == '{' {
        Some(Symbols::OpenCurly)
    } else if c == '}' {
        Some(Symbols::ClosedCurly)
    } else if c == ':' {
        Some(Symbols::Colon)
    } else if c == '=' {
        Some(Symbols::Equals)
    } else if c == '@' {
        Some(Symbols::At)
    } else if c == '?' {
        Some(Symbols::Question)
    } else {
        None
    }
}

/// The token a name is: a boolean, a keyword or an identifier.
pub open spec fn word_token(w: Seq<char>) -> TokenView {
    if w == "true"@ {
        TokenView::Bool(true)
    } else if w == "false"@ {
        TokenView::Bool(false)
    } else if w == "let"@ {
        TokenView::Keyword(Keyword::Let)
    } else if w == "return"@ {
        TokenView::Keyword(Keyword::Return)
    } else if w == "match"@ {
        TokenView::Keyword(Keyword::Match)
    } else if w == "type"@ {
        TokenView::Keyword(Keyword::Type)
    } else if w == "from"@ {
        TokenView::Keyword(Keyword::From)
    } else if w == "import"@ {
        TokenView::Keyword(Keyword::Import)
    } else if w == "export"@ {
        TokenView::Keyword(Keyword::Export)
    } else if w == "if"@ {
        TokenView::Keyword(Keyword::If)
    } else {
        TokenView::Identifier(w)
    }
}

/// The token starting at `j` and its end: a number, a string, a symbol or
/// a name, tried in that order.
pub open spec fn lex_token(s: Seq<char>, j: int) -> Option<(TokenView, int)> {
    if j < 0 || j >= s.len() {
        None
    } else if is_digit(s[j]) {
        Some(lex_number(s, j))
    } else if s[j] == '"' {
        match lex_string(s, j + 1, Seq::empty()) {
            Some((text, e)) => Some((TokenView::Str(text), e)),
            None => None,
        }
    } else if let Some((sym, e)) = symbol_at(s, j) {
        Some((TokenView::Symbol(sym), e))
    } else if name_start(s[j]) {
        Some((word_token(s.subrange(j, name_end(s, j))), name_end(s, j)))
    } else {
        None
    }
}

/// A token read from `p` after white space and comments: the token, its
/// start and its end.
pub open spec fn attempt(s: Seq<char>, p: int) -> Option<(TokenView, int, int)> {
    let j = pad(s, p, false);
    match lex_token(s, j) {
        Some((t, e)) => Some((t, j, e)),
        None => None,
    }
}

/// The first position at or after `q` (before the end) from which a token
/// can be read.
pub open spec fn resume_at(s: Seq<char>, q: int) -> Option<int>
    decreases s.len() - q,
{
    if q < 0 || q >= s.len() {
        None
    } else if attempt(s, q) is Some {
        Some(q)
    } else {
        resume_at(s, q + 1)
    }
}

/// The tokens from `p` (each with its character range), the positions of
/// the characters skipped with an error, and whether the source was read
/// to its end. After a token, white space and comments are consumed; where
/// no token can be read, characters are skipped one at a time from `p`
/// until one can, with one error at the first unreadable position.
pub open spec fn lex_spec(s: Seq<char>, p: int) -> (Seq<(TokenView, int, int)>, Seq<int>, bool)
    decreases s.len() - p,
{
    if p < 0 || p >= s.len() {
        (Seq::empty(), Seq::empty(), true)
    } else {
        match attempt(s, p) {
            Some((t, j, e)) => if p < pad(s, e, false) <= s.len() {
                let rest = lex_spec(s, pad(s, e, false));
                (seq![(t, j, e)] + rest.0, rest.1, rest.2)
            } else {
                (Seq::empty(), Seq::empty(), false)
            },
            None => match resume_at(s, p + 1) {
                Some(q) => if p < q <= s.len() {
                    let rest = lex_spec(s, q);
                    (rest.0, seq![pad(s, p, false)] + rest.1, rest.2)
                } else {
                    (Seq::empty(), Seq::empty(), false)
                },
                None => (Seq::empty(), seq![pad(s, p, false)], false),
            },
        }
    }
}


/// The prefix of a number is the SI prefix written right after its digits:
/// `n` nano, `u` micro, `m` milli, `k` kilo, `M` mega, `G` giga, six
/// distinct prefixes; any other character after the digits gives none.
pub proof fn lemma_number_prefix(s: Seq<char>, j: int)
    requires
        0 <= j < s.len(),
    ensures
        ({
            let t = number_digits_end(s, j);
            let c = s[t];
            let p = lex_number(s, j).0->Number_prefix;
            &&& lex_number(s, j).0 is Number
            &&& (t < s.len() && c == 'n') ==> p == Some(Prefix::Nano)
            &&& (t < s.len() && c == 'u') ==> p == Some(Prefix::Micro)
            &&& (t < s.len() && c == 'm') ==> p == Some(Prefix::Mili)
            &&& (t < s.len() && c == 'k') ==> p == Some(Prefix::Kilo)
            &&& (t < s.len() && c == 'M') ==> p == Some(Prefix::Mega)
            &&& (t < s.len() && c == 'G') ==> p == Some(Prefix::Giga)
            &&& !(t < s.len() && (c == 'n' || c == 'u' || c == 'm' || c == 'k' || c == 'M' || c
                == 'G')) ==> p is None
        }),
{
}

// ---------------------------------------------------------------------------
// Bounds
// ---------------------------------------------------------------------------

pub proof fn lemma_pad(s: Seq<char>, i: int, c: bool)
    requires
        0 <= i <= s.len(),
    ensures
        i <= pad(s, i, c) <= s.len(),
    decreases s.len() - i,
{
    if i < s.len() {
        if c {
            lemma_pad(s, i + 1, s[i] != '\n');
        } else if is_ws(s[i]) {
            lemma_pad(s, i + 1, false);
        } else if i + 1 < s.len() && s[i] == '/' && s[i + 1] == '/' {
            lemma_pad(s, i + 2, true);
        }
    }
}

pub proof fn lemma_digits_end(s: Seq<char>, i: int)
    requires
        0 <= i <= s.len(),
    ensures
        i <= digits_end(s, i) <= s.len(),
    decreases s.len() - i,
{
    if i < s.len() && is_digit(s[i]) {
        lemma_digits_end(s, i + 1);
    }
}

pub proof fn lemma_name_end(s: Seq<char>, i: int)
    requires
        0 <= i <= s.len(),
    ensures
        i <= name_end(s, i) <= s.len(),
    decreases s.len() - i,
{
    if i < s.len() && name_char(s[i]) {
        lemma_name_end(s, i + 1);
    }
}

pub proof fn lemma_lex_string(s: Seq<char>, k: int, acc: Seq<char>)
    requires
        0 <= k,
    ensures
        lex_string(s, k, acc) matches Some((t, e)) ==> k < e <= s.len(),
    decreases s.len() - k,
{
    if 0 <= k < s.len() && s[k] != '"' {
        if s[k] == '\\' {
            if k + 1 < s.len() && escape_of(s[k + 1]) is Some {
                lemma_lex_string(s, k + 2, acc.push(escape_of(s[k + 1])->0));
            }
        } else {
            lemma_lex_string(s, k + 1, acc.push(s[k]));
        }
    }
}

pub proof fn lemma_lex_token(s: Seq<char>, j: int)
    ensures
        lex_token(s, j) matches Some((t, e)) ==> j < e <= s.len(),
{
    if 0 <= j < s.len() {
        if is_digit(s[j]) {
            let k = if s[j] == '0' {
                j + 1
            } else {
                digits_end(s, j)
            };
            lemma_digits_end(s, j + 1);
            if k + 1 < s.len() && s[k] == '.' && is_digit(s[k + 1]) {
                lemma_digits_end(s, k + 1);
            }
            let t = number_digits_end(s, j);
            let u = if t < s.len() && prefix_of(s[t]) is Some {
                t + 1
            } else {
                t
            };
            if u < s.len() {
                lemma_name_end(s, u);
            }
        } else if s[j] == '"' {
            lemma_lex_string(s, j + 1, Seq::empty());
        } else {
            lemma_name_end(s, j + 1);
        }
    }
}

pub proof fn lemma_resume_at(s: Seq<char>, q: int)
    requires
        0 <= q,
    ensures
        resume_at(s, q) matches Some(r) ==> q <= r < s.len() && attempt(s, r) is Some,
    decreases s.len() - q,
{
    if 0 <= q < s.len() && attempt(s, q) is None {
        lemma_resume_at(s, q + 1);
    }
}

// ---------------------------------------------------------------------------
// Reading
// ---------------------------------------------------------------------------

fn pad_exec(s: &Vec<char>, i: usize) -> (r: usize)
    requires
        i <= s@.len(),
    ensures
        r == pad(s@, i as int, false),
{
    let mut k = i;
    let mut comment = false;
    while k < s.len()
        invariant
            k <= s@.len(),
            pad(s@, i as int, false) == pad(s@, k as int, comment),
        decreases s@.len() - k,
    {
        if comment {
            comment = s[k] != '\n';
            k = k + 1;
        } else if is_whitespace(s[k]) {
            k = k + 1;
        } else if k + 1 < s.len() && s[k] == '/' && s[k + 1] == '/' {
            comment = true;
            k = k + 2;
        } else {
            return k;
        }
    }
    k
}

fn digits_run(s: &Vec<char>, i: usize) -> (r: usize)
    requires
        i <= s@.len(),
    ensures
        r == digits_end(s@, i as int),
{
    let mut k = i;
    while k < s.len() && is_ascii_digit(s[k])
        invariant
            i <= k <= s@.len(),
            digits_end(s@, i as int) == digits_end(s@, k as int),
        decreases s@.len() - k,
    {
        k = k + 1;
    }
    k
}

fn name_run(s: &Vec<char>, i: usize) -> (r: usize)
    requires
        i <= s@.len(),
    ensures
        r == name_end(s@, i as int),
{
    let mut k = i;
    while k < s.len() && (is_ascii_alphanumeric(s[k]) || s[k] == '_')
        invariant
            i <= k <= s@.len(),
            name_end(s@, i as int) == name_end(s@, k as int),
        decreases s@.len() - k,
    {
        k = k + 1;
    }
    k
}

fn prefix_exec(c: char) -> (r: Option<Prefix>)
    ensures
        r == prefix_of(c),
{
    if c == 'n' {
        Some(Prefix::Nano)
    } else if c == 'u' {
        Some(Prefix::Micro)
    } else if c == 'm' {
        Some(Prefix::Mili)
    } else if c == 'k' {
        Some(Prefix::Kilo)
    } else if c == 'M' {
        Some(Prefix::Mega)
    } else if c == 'G' {
        Some(Prefix::Giga)
    } else {
        None
    }
}

fn lex_number_exec(s: &Vec<char>, j: usize) -> (r: (Token, usize))
    requires
        j < s@.len(),
        is_digit(s@[j as int]),
    ensures
        (r.0.view(), r.1 as int) == lex_number(s@, j as int),
{
    let n = s.len();
    proof {
        lemma_digits_end(s@, j as int);
    }
    let k = if s[j] == '0' {
        j + 1
    } else {
        digits_run(s, j)
    };
    let t = if k < n && k + 1 < n && s[k] == '.' && is_ascii_digit(s[k + 1]) {
        proof {
            lemma_digits_end(s@, k as int + 1);
        }
        digits_run(s, k + 1)
    } else {
        k
    };
    assert(t == number_digits_end(s@, j as int));
    let digits = slice_chars(s.as_slice(), j, t);
    let (prefix, u) = if t < s.len() && prefix_exec(s[t]).is_some() {
        (prefix_exec(s[t]), t + 1)
    } else {
        (None, t)
    };
    let (unit, e) = if u < s.len() && (is_ascii_alphabetic(s[u]) || s[u] == '_') {
        proof {
            lemma_name_end(s@, u as int);
        }
        let f = name_run(s, u);
        let w = slice_chars(s.as_slice(), u, f);
        (Some(string_of(w.as_slice())), f)
    } else {
        (None, u)
    };
    (Token::Number { digits: string_of(digits.as_slice()), prefix, unit }, e)
}

fn escape_exec(c: char) -> (r: Option<char>)
    ensures
        r == escape_of(c),
{
    if c == '"' {
        Some('"')
    } else if c == '\\' {
        Some('\\')
    } else if c == 'n' {
        Some('\n')
    } else if c == 'r' {
        Some('\r')
    } else if c == 't' {
        Some('\t')
    } else if c == '0' {
        Some('\0')
    } else {
        None
    }
}

fn lex_string_exec(s: &Vec<char>, j: usize) -> (r: Option<(String, usize)>)
    requires
        j < s@.len(),
    ensures
        match lex_string(s@, j + 1, Seq::empty()) {
            Some((t, e)) => r matches Some(x) && x.0@ == t && x.1 == e,
            None => r is None,
        },
{
    let n = s.len();
    let mut k = j + 1;
    let mut acc: Vec<char> = Vec::new();
    while k < s.len() && s[k] != '"'
        invariant
            j + 1 <= k <= s@.len(),
            lex_string(s@, j + 1, Seq::empty()) == lex_string(s@, k as int, acc@),
        decreases s@.len() - k,
    {
        if s[k] == '\\' {
            if k + 1 < s.len() {
                match escape_exec(s[k + 1]) {
                    Some(c) => {
                        acc.push(c);
                        k = k + 2;
                    },
                    None => {
                        return None;
                    },
                }
            } else {
                return None;
            }
        } else {
            acc.push(s[k]);
            k = k + 1;
        }
    }
    if k < s.len() {
        Some((string_of(acc.as_slice()), k + 1))
    } else {
        None
    }
}

fn single_symbol_exec(c: char) -> (r: Option<Symbols>)
    ensures
        r == single_symbol(c),
{
    if c == '<' {
        Some(Symbols::Lt)
    } else if c == '>' {
        Some(Symbols::Gt)
    } else if c == '!' {
        Some(Symbols::Bang)
    } else if c == '+' {
        Some(Symbols::Plus)
    } else if c == '-' {
        Some(Symbols::Minus)
    } else if c == '/' {
        Some(Symbols::Slash)
    } else if c == '*' {
        Some(Symbols::Star)
    } else if c == '|' {
        Some(Symbols::Pipe)
    } else if c == ';' {
        Some(Symbols::Semicolon)
    } else if c == ',' {
        Some(Symbols::Comma)
    } else if c == '.' {
        Some(Symbols::Dot)
    } else if c == '(' {
        Some(Symbols::OpenParenthesis)
    } else if c == ')' {
        Some(Symbols::ClosedParenthesis)
    } else if c == '[' {
        Some(Symbols::OpenSquare)
    } else if c == ']' {
        Some(Symbols::ClosedSquare)
    } else if c == '{' {
        Some(Symbols::OpenCurly)
    } else if c == '}' {
        Some(Symbols::ClosedCurly)
    } else if c == ':' {
        Some(Symbols::Colon)
    } else if c == '=' {
        Some(Symbols::Equals)
    } else if c == '@' {
        Some(Symbols::At)
    } else if c == '?' {
        Some(Symbols::Question)
    } else {
        None
    }
}

fn symbol_exec(s: &Vec<char>, j: usize) -> (r: Option<(Symbols, usize)>)
    requires
        j < s@.len(),
    ensures
        match symbol_at(s@, j as int) {
            Some((sym, e)) => r == Some((sym, e as usize)),
            None => r is None,
        },
{
    let n = s.len();
    let c = s[j];
    let d = if j + 1 < s.len() {
        s[j + 1]
    } else {
        ' '
    };
    if c == '=' && d == '=' {
        Some((Symbols::DoubleEquals, j + 2))
    } else if c == '<' && d == '=' {
        Some((Symbols::Le, j + 2))
    } else if c == '>' && d == '=' {
        Some((Symbols::Ge, j + 2))
    } else if c == '<' && d == '-' {
        Some((Symbols::BackArrow, j + 2))
    } else if c == '-' && d == '>' {
        Some((Symbols::Arrow, j + 2))
    } else {
        match single_symbol_exec(c) {
            Some(sym) => Some((sym, j + 1)),
            None => None,
        }
    }
}

fn word_token_exec(w: Vec<char>) -> (r: Token)
    ensures
        r.view() == word_token(w@),
{
    let text = string_of(w.as_slice());
    let t = text.as_str();
    if str_eq(t, "true") {
        Token::Bool(true)
    } else if str_eq(t, "false") {
        Token::Bool(false)
    } else if str_eq(t, "let") {
        Token::Keyword(Keyword::Let)
    } else if str_eq(t, "return") {
        Token::Keyword(Keyword::Return)
    } else if str_eq(t, "match") {
        Token::Keyword(Keyword::Match)
    } else if str_eq(t, "type") {
        Token::Keyword(Keyword::Type)
    } else if str_eq(t, "from") {
        Token::Keyword(Keyword::From)
    } else if str_eq(t, "import") {
        Token::Keyword(Keyword::Import)
    } else if str_eq(t, "export") {
        Token::Keyword(Keyword::Export)
    } else if str_eq(t, "if") {
        Token::Keyword(Keyword::If)
    } else {
        Token::Identifier(text)
    }
}

fn lex_token_exec(s: &Vec<char>, j: usize) -> (r: Option<(Token, usize)>)
    requires
        j <= s@.len(),
    ensures
        match lex_token(s@, j as int) {
            Some((t, e)) => r matches Some(x) && x.0.view() == t && x.1 == e,
            None => r is None,
        },
{
    if j >= s.len() {
        None
    } else if is_ascii_digit(s[j]) {
        Some(lex_number_exec(s, j))
    } else if s[j] == '"' {
        match lex_string_exec(s, j) {
            Some((text, e)) => Some((Token::Str(text), e)),
            None => None,
        }
    } else if let Some((sym, e)) = symbol_exec(s, j) {
        Some((Token::Symbol(sym), e))
    } else if is_ascii_alphabetic(s[j]) || s[j] == '_' {
        proof {
            lemma_name_end(s@, j as int);
        }
        let e = name_run(s, j);
        let w = slice_chars(s.as_slice(), j, e);
        Some((word_token_exec(w), e))
    } else {
        None
    }
}

fn attempt_exec(s: &Vec<char>, p: usize) -> (r: Option<(Token, usize, usize)>)
    requires
        p <= s@.len(),
    ensures
        match attempt(s@, p as int) {
            Some((t, j, e)) => r matches Some(x) && x.0.view() == t && x.1 == j && x.2 == e,
            None => r is None,
        },
{
    proof {
        lemma_pad(s@, p as int, false);
    }
    let j = pad_exec(s, p);
    match lex_token_exec(s, j) {
        Some((t, e)) => Some((t, j, e)),
        None => None,
    }
}


/// The byte range of the character at `j` (empty at the end).
pub open spec fn error_span(s: Seq<char>, j: int) -> (nat, nat) {
    (byte_offset(s, j), byte_offset(s, if j < s.len() { j + 1 } else { j }))
}

/// Lexes `source`: the tokens with their byte ranges (none when the text
/// ends in characters from which no token can be read) and the errors, as
/// [`lex_spec`] describes them.
pub fn lex(source: &str) -> (r: (Option<Vec<Spanned>>, Vec<LexError>))
    requires
        source.spec_bytes().len() <= usize::MAX,
    ensures
        (r.0 is Some) == lex_spec(source@, 0).2,
        r.0 matches Some(v) ==> {
            &&& v@.len() == lex_spec(source@, 0).0.len()
            &&& forall|i: int|
                0 <= i < v@.len() ==> {
                    let t = #[trigger] lex_spec(source@, 0).0[i];
                    &&& v@[i].token.view() == t.0
                    &&& v@[i].span.start == byte_offset(source@, t.1)
                    &&& v@[i].span.end == byte_offset(source@, t.2)
                }
        },
        r.1@.len() == lex_spec(source@, 0).1.len(),
        forall|i: int|
            0 <= i < r.1@.len() ==> {
                let j = #[trigger] lex_spec(source@, 0).1[i];
                &&& r.1@[i].span.start == error_span(source@, j).0
                &&& r.1@[i].span.end == error_span(source@, j).1
            },
{
    let s = chars_of(source);
    let total = source.len();
    proof {
        lemma_byte_offset_end(s@);
        assert(source.spec_bytes() == vstd::utf8::encode_utf8(source@));
    }
    let mut tokens: Vec<Spanned> = Vec::new();
    let mut errors: Vec<LexError> = Vec::new();
    let ghost mut done_t: Seq<(TokenView, int, int)> = Seq::empty();
    let ghost mut done_e: Seq<int> = Seq::empty();
    let mut complete = true;
    let mut p: usize = 0;
    let mut pb: usize = 0;
    proof {
        assert(done_t + lex_spec(s@, 0).0 =~= lex_spec(s@, 0).0);
        assert(done_e + lex_spec(s@, 0).1 =~= lex_spec(s@, 0).1);
    }
    while p < s.len()
        invariant
            s@ == source@,
            p <= s@.len(),
            pb == byte_offset(s@, p as int),
            total == byte_offset(s@, s@.len() as int),
            complete ==> done_t + lex_spec(s@, p as int).0 == lex_spec(s@, 0).0,
            complete ==> done_e + lex_spec(s@, p as int).1 == lex_spec(s@, 0).1,
            complete ==> lex_spec(s@, p as int).2 == lex_spec(s@, 0).2,
            !complete ==> done_t == lex_spec(s@, 0).0 && done_e == lex_spec(s@, 0).1 && !lex_spec(
                s@,
                0,
            ).2 && p == s@.len(),
            tokens@.len() == done_t.len(),
            forall|i: int|
                0 <= i < tokens@.len() ==> {
                    let t = #[trigger] done_t[i];
                    &&& tokens@[i].token.view() == t.0
                    &&& tokens@[i].span.start == byte_offset(s@, t.1)
                    &&& tokens@[i].span.end == byte_offset(s@, t.2)
                },
            errors@.len() == done_e.len(),
            forall|i: int|
                0 <= i < errors@.len() ==> {
                    let j = #[trigger] done_e[i];
                    &&& errors@[i].span.start == error_span(s@, j).0
                    &&& errors@[i].span.end == error_span(s@, j).1
                },
        decreases s@.len() - p,
    {
        proof {
            lemma_pad(s@, p as int, false);
        }
        match attempt_exec(&s, p) {
            Some((t, j, e)) => {
                proof {
                    lemma_lex_token(s@, j as int);
                    lemma_pad(s@, e as int, false);
                }
                let jb = crate::highlighting::advance(&s, p, pb, j, total);
                let eb = crate::highlighting::advance(&s, j, jb, e, total);
                let np = pad_exec(&s, e);
                let npb = crate::highlighting::advance(&s, e, eb, np, total);
                let ghost entry = (t.view(), j as int, e as int);
                proof {
                    let rest = lex_spec(s@, np as int);
                    assert(lex_spec(s@, p as int).0 == seq![entry] + rest.0);
                    assert(done_t.push(entry) + rest.0 =~= done_t + (seq![entry] + rest.0));
                    done_t = done_t.push(entry);
                }
                tokens.push(Spanned { token: t, span: Range { start: jb, end: eb } });
                p = np;
                pb = npb;
            },
            None => {
                let jp = pad_exec(&s, p);
                let jb = crate::highlighting::advance(&s, p, pb, jp, total);
                let end = if jp < s.len() {
                    proof {
                        lemma_byte_offset_step(s@, jp as int);
                        lemma_byte_offset_mono(s@, jp + 1, s@.len() as int);
                    }
                    jb + len_utf8(s[jp])
                } else {
                    jb
                };
                let mut q = p + 1;
                while q < s.len() && attempt_exec(&s, q).is_none()
                    invariant
                        p < q <= s@.len(),
                        resume_at(s@, p + 1) == resume_at(s@, q as int),
                    decreases s@.len() - q,
                {
                    q = q + 1;
                }
                proof {
                    lemma_resume_at(s@, p + 1);
                    done_e = done_e.push(jp as int);
                }
                errors.push(LexError { span: Range { start: jb, end } });
                if q < s.len() {
                    proof {
                        let rest = lex_spec(s@, q as int);
                        assert(resume_at(s@, p + 1) == Some(q as int));
                        assert(lex_spec(s@, p as int).1 == seq![jp as int] + rest.1);
                        assert(done_e + rest.1 =~= done_e.drop_last() + (seq![jp as int] + rest.1));
                    }
                    let qb = crate::highlighting::advance(&s, p, pb, q, total);
                    p = q;
                    pb = qb;
                } else {
                    proof {
                        assert(resume_at(s@, p + 1) is None);
                        assert(lex_spec(s@, p as int).1 == seq![jp as int]);
                        assert(lex_spec(s@, p as int).0 =~= Seq::<(TokenView, int, int)>::empty());
                        assert(done_t + lex_spec(s@, p as int).0 =~= done_t);
                        assert(done_e =~= done_e.drop_last() + seq![jp as int]);
                    }
                    complete = false;
                    pb = total;
                    p = s.len();
                }
            },
        }
    }
    proof {
        if complete {
            assert(done_t + lex_spec(s@, p as int).0 =~= done_t);
            assert(done_e + lex_spec(s@, p as int).1 =~= done_e);
        }
    }
    if complete {
        (Some(tokens), errors)
    } else {
        (None, errors)
    }
}

} // verus!
