//! A bracket-nesting tokenizer: splits text into punctuation, numbers with
//! unit suffixes, strings, keywords, identifiers and bracketed blocks whose
//! contents are tokenized in turn.
use vstd::prelude::*;
use crate::text::{
    chars_of, is_alnum, is_alpha, is_ascii_alphabetic, is_ascii_alphanumeric, is_ascii_digit,
    is_digit, is_whitespace, is_ws, slice_chars, string_of,
};

verus! {

#[derive(Clone, Copy, Debug, PartialEq, Eq, Structural)]
pub enum Punctuation {
    SemiColon,
    Colon,
    Equals,
    Comma,
}

#[derive(Clone, Copy, Debug, PartialEq, Eq, Structural)]
pub enum BracketShape {
    Parentathis,
    Squiggle,
    Square,
    Angle,
}

/// The opening character of a bracket shape.
pub open spec fn opening_char(shape: BracketShape) -> char {
    match shape {
        BracketShape::Parentathis => '(',
        BracketShape::Squiggle => '{',
        BracketShape::Square => '[',
        BracketShape::Angle => '<',
    }
}

/// The closing character of a bracket shape.
pub open spec fn closing_char(shape: BracketShape) -> char {
    match shape {
        BracketShape::Parentathis => ')',
        BracketShape::Squiggle => '}',
        BracketShape::Square => ']',
        BracketShape::Angle => '>',
    }
}

impl BracketShape {
    pub fn opening(&self) -> (r: char)
        ensures
            r == opening_char(*self),
    {
        match self {
            BracketShape::Parentathis => '(',
            BracketShape::Squiggle => '{',
            BracketShape::Square => '[',
            BracketShape::Angle => '<',
        }
    }

    pub fn closing(&self) -> (r: char)
        ensures
            r == closing_char(*self),
    {
        match self {
            BracketShape::Parentathis => ')',
            BracketShape::Squiggle => '}',
            BracketShape::Square => ']',
            BracketShape::Angle => '>',
        }
    }
}

#[derive(Clone, Copy, Debug, PartialEq, Eq, Structural)]
pub enum BracketState {
    Open,
    Close,
}

/// A bracket character: its shape and whether it opens or closes.
#[derive(Clone, Copy, Debug, PartialEq, Eq, Structural)]
pub struct Bracket {
    pub shape: BracketShape,
    pub state: BracketState,
}

/// The bracket a character is, if any.
pub open spec fn bracket_of(c: char) -> Option<Bracket> {
    if c == '{' {
        Some(Bracket { shape: BracketShape::Squiggle, state: BracketState::Open })
    } else if c == '}' {
        Some(Bracket { shape: BracketShape::Squiggle, state: BracketState::Close })
    } else if c == '<' {
        Some(Bracket { shape: BracketShape::Angle, state: BracketState::Open })
    } else if c == '>' {
        Some(Bracket { shape: BracketShape::Angle, state: BracketState::Close })
    } else if c == '[' {
        Some(Bracket { shape: BracketShape::Square, state: BracketState::Open })
    } else if c == ']' {
        Some(Bracket { shape: BracketShape::Square, state: BracketState::Close })
    } else if c == '(' {
        Some(Bracket { shape: BracketShape::Parentathis, state: BracketState::Open })
    } else if c == ')' {
        Some(Bracket { shape: BracketShape::Parentathis, state: BracketState::Close })
    } else {
        None
    }
}

impl Bracket {
    pub fn parse(value: char) -> (r: Option<Self>)
        ensures
            r == bracket_of(value),
    {
        if value == '{' {
            Some(Bracket { shape: BracketShape::Squiggle, state: BracketState::Open })
        } else if value == '}' {
            Some(Bracket { shape: BracketShape::Squiggle, state: BracketState::Close })
        } else if value == '<' {
            Some(Bracket { shape: BracketShape::Angle, state: BracketState::Open })
        } else if value == '>' {
            Some(Bracket { shape: BracketShape::Angle, state: BracketState::Close })
        } else if value == '[' {
            Some(Bracket { shape: BracketShape::Square, state: BracketState::Open })
        } else if value == ']' {
            Some(Bracket { shape: BracketShape::Square, state: BracketState::Close })
        } else if value == '(' {
            Some(Bracket { shape: BracketShape::Parentathis, state: BracketState::Open })
        } else if value == ')' {
            Some(Bracket { shape: BracketShape::Parentathis, state: BracketState::Close })
        } else {
            None
        }
    }
}

/// The punctuation a character is, if any.
pub open spec fn punctuation_of(c: char) -> Option<Punctuation> {
    if c == ';' {
        Some(Punctuation::SemiColon)
    } else if c == ':' {
        Some(Punctuation::Colon)
    } else if c == ',' {
        Some(Punctuation::Comma)
    } else if c == '=' {
        Some(Punctuation::Equals)
    } else {
        None
    }
}

impl Punctuation {
    pub fn parse(value: char) -> (r: Option<Self>)
        ensures
            r == punctuation_of(value),
    {
        if value == ';' {
            Some(Punctuation::SemiColon)
        } else if value == ':' {
            Some(Punctuation::Colon)
        } else if value == ',' {
            Some(Punctuation::Comma)
        } else if value == '=' {
            Some(Punctuation::Equals)
        } else {
            None
        }
    }
}

#[derive(Clone, Copy, Debug, PartialEq, Eq, Structural)]
pub enum Keyword {
    Component,
    Constant,
    Port,
    Let,
    For,
    Match,
}

/// The keyword a word is, if any.
pub open spec fn keyword_of(w: Seq<char>) -> Option<Keyword> {
    if w == seq!['c', 'o', 'm', 'p', 'o', 'n', 'e', 'n', 't'] {
        Some(Keyword::Component)
    } else if w == seq!['p', 'o', 'r', 't'] {
        Some(Keyword::Port)
    } else if w == seq!['l', 'e', 't'] {
        Some(Keyword::Let)
    } else if w == seq!['f', 'o', 'r'] {
        Some(Keyword::For)
    } else if w == seq!['m', 'a', 't', 'c', 'h'] {
        Some(Keyword::Match)
    } else {
        None
    }
}

fn chars_are(v: &Vec<char>, w: &[char]) -> (r: bool)
    ensures
        r == (v@ == w@),
{
    crate::text::chars_eq(v.as_slice(), w)
}

impl Keyword {
    pub fn parse(value: &str) -> (r: Option<Self>)
        ensures
            r == keyword_of(value@),
    {
        let v = chars_of(value);
        Self::parse_chars(&v)
    }

    fn parse_chars(v: &Vec<char>) -> (r: Option<Self>)
        ensures
            r == keyword_of(v@),
    {
        let component = ['c', 'o', 'm', 'p', 'o', 'n', 'e', 'n', 't'];
        let port = ['p', 'o', 'r', 't'];
        let let_ = ['l', 'e', 't'];
        let for_ = ['f', 'o', 'r'];
        let match_ = ['m', 'a', 't', 'c', 'h'];
        proof {
            assert(component@ =~= seq!['c', 'o', 'm', 'p', 'o', 'n', 'e', 'n', 't']);
            assert(port@ =~= seq!['p', 'o', 'r', 't']);
            assert(let_@ =~= seq!['l', 'e', 't']);
            assert(for_@ =~= seq!['f', 'o', 'r']);
            assert(match_@ =~= seq!['m', 'a', 't', 'c', 'h']);
        }
        if chars_are(v, &component) {
            Some(Keyword::Component)
        } else if chars_are(v, &port) {
            Some(Keyword::Port)
        } else if chars_are(v, &let_) {
            Some(Keyword::Let)
        } else if chars_are(v, &for_) {
            Some(Keyword::For)
        } else if chars_are(v, &match_) {
            Some(Keyword::Match)
        } else {
            None
        }
    }
}

/// A token of the bracket-nesting tokenizer.
#[derive(Debug)]
pub enum Token {
    Punctuation(Punctuation),
    Number { num: i32, suffix: String },
    String(String),
    Keyword(Keyword),
    Identifier(String),
    Block { shape: BracketShape, children: Vec<Token> },
}

/// The mathematical value of a [`Token`].
pub enum TokenView {
    Punctuation(Punctuation),
    Number { num: int, suffix: Seq<char> },
    Str(Seq<char>),
    Keyword(Keyword),
    Identifier(Seq<char>),
    Block { shape: BracketShape, children: Seq<TokenView> },
}

impl Token {
    pub open spec fn view(&self) -> TokenView
        decreases self,
    {
        match self {
            Token::Punctuation(p) => TokenView::Punctuation(*p),
            Token::Number { num, suffix } => TokenView::Number { num: *num as int, suffix: suffix@ },
            Token::String(s) => TokenView::Str(s@),
            Token::Keyword(k) => TokenView::Keyword(*k),
            Token::Identifier(s) => TokenView::Identifier(s@),
            Token::Block { shape, children } => TokenView::Block {
                shape: *shape,
                children: view_tokens(children@),
            },
        }
    }
}

pub open spec fn view_tokens(items: Seq<Token>) -> Seq<TokenView>
    decreases items,
{
    if items.len() == 0 {
        Seq::empty()
    } else {
        view_tokens(items.drop_last()).push(items.last().view())
    }
}

proof fn lemma_view_tokens_push(items: Seq<Token>, t: Token)
    ensures
        view_tokens(items.push(t)) == view_tokens(items).push(t.view()),
{
    assert(items.push(t).drop_last() =~= items);
}

/// The value of a run of decimal digits.
pub open spec fn digits_value(d: Seq<char>) -> int
    decreases d.len(),
{
    if d.len() == 0 {
        0
    } else {
        digits_value(d.drop_last()) * 10 + (d.last() as int - '0' as int)
    }
}

/// The end of the run of characters starting at `i` that satisfy `digit`
/// (`kind == 0`), ASCII letters (`kind == 1`), or word characters
/// (`kind == 2`).
pub open spec fn run_end(s: Seq<char>, i: int, kind: int) -> int
    decreases s.len() - i,
{
    if 0 <= i < s.len() && (if kind == 0 {
        is_digit(s[i])
    } else if kind == 1 {
        is_alpha(s[i])
    } else {
        is_alnum(s[i]) || s[i] == '_'
    }) {
        run_end(s, i + 1, kind)
    } else {
        i
    }
}

/// Where a comment starting at `i` ends: just after the next newline, or the
/// end of the text.
pub open spec fn comment_end(s: Seq<char>, i: int) -> int
    decreases s.len() - i,
{
    if i < 0 || i >= s.len() {
        i
    } else if s[i] == '\n' {
        i + 1
    } else {
        comment_end(s, i + 1)
    }
}

/// Scanning a block whose contents start at `i`, at nesting `depth`: the
/// index where its contents end and the index just past its closing character
/// (the end of the text if it is unclosed).
pub open spec fn block_end(s: Seq<char>, i: int, shape: BracketShape, depth: int) -> (int, int)
    decreases s.len() - i,
{
    if i < 0 || i >= s.len() {
        (i, i)
    } else {
        let d = if s[i] == opening_char(shape) {
            depth + 1
        } else if s[i] == closing_char(shape) {
            depth - 1
        } else {
            depth
        };
        if d == 0 {
            (i, i + 1)
        } else {
            block_end(s, i + 1, shape, d)
        }
    }
}

/// The token sequence of `s` from index `i`, or `None` where tokenizing
/// panics (a character that starts no token, or a number beyond `i32`).
pub open spec fn tokens_from(s: Seq<char>, i: int) -> Option<Seq<TokenView>>
    decreases s.len() - i,
{
    if i < 0 || i >= s.len() {
        Some(Seq::empty())
    } else {
        let c = s[i];
        if is_ws(c) {
            tokens_from(s, i + 1)
        } else if c == '#' {
            let e = comment_end(s, i + 1);
            if e <= i || e > s.len() {
                None
            } else {
                tokens_from(s, e)
            }
        } else if bracket_of(c) is Some {
            let shape = bracket_of(c)->0.shape;
            let (inner_end, next) = block_end(s, i + 1, shape, 1);
            if !(i < inner_end <= next <= s.len()) || next <= i {
                None
            } else {
                let inner = s.subrange(i + 1, inner_end);
                match (tokens_from(inner, 0), tokens_from(s, next)) {
                    (Some(children), Some(rest)) => Some(
                        seq![TokenView::Block { shape, children }] + rest,
                    ),
                    _ => None,
                }
            }
        } else if is_digit(c) {
            let e = run_end(s, i, 0);
            let f = run_end(s, e, 1);
            let value = digits_value(s.subrange(i, e));
            if value > 0x7fff_ffff || !(i < e <= f <= s.len()) {
                None
            } else {
                match tokens_from(s, f) {
                    Some(rest) => Some(
                        seq![TokenView::Number { num: value, suffix: s.subrange(e, f) }] + rest,
                    ),
                    None => None,
                }
            }
        } else if punctuation_of(c) is Some {
            match tokens_from(s, i + 1) {
                Some(rest) => Some(seq![TokenView::Punctuation(punctuation_of(c)->0)] + rest),
                None => None,
            }
        } else if is_alpha(c) {
            let e = run_end(s, i, 2);
            let w = s.subrange(i, e);
            if !(i < e <= s.len()) {
                None
            } else {
                let t = match keyword_of(w) {
                    Some(k) => TokenView::Keyword(k),
                    None => TokenView::Identifier(w),
                };
                match tokens_from(s, e) {
                    Some(rest) => Some(seq![t] + rest),
                    None => None,
                }
            }
        } else if c == '"' {
            let e = quote_end(s, i + 1);
            let next = if e < s.len() {
                e + 1
            } else {
                e
            };
            if !(i < e <= s.len()) {
                None
            } else {
                match tokens_from(s, next) {
                    Some(rest) => Some(seq![TokenView::Str(s.subrange(i + 1, e))] + rest),
                    None => None,
                }
            }
        } else {
            None
        }
    }
}

/// The index of the next `"` at or after `i`, or the end of the text.
pub open spec fn quote_end(s: Seq<char>, i: int) -> int
    decreases s.len() - i,
{
    if 0 <= i < s.len() && s[i] != '"' {
        quote_end(s, i + 1)
    } else {
        i
    }
}

/// The tokens of `s`, or `None` where tokenizing panics.
pub open spec fn tokenize_spec(s: Seq<char>) -> Option<Seq<TokenView>> {
    tokens_from(s, 0)
}

proof fn lemma_run_end(s: Seq<char>, i: int, kind: int)
    requires
        0 <= i <= s.len(),
    ensures
        i <= run_end(s, i, kind) <= s.len(),
        forall|k: int| i <= k < run_end(s, i, kind) ==> (if kind == 0 {
            is_digit(#[trigger] s[k])
        } else if kind == 1 {
            is_alpha(s[k])
        } else {
            is_alnum(s[k]) || s[k] == '_'
        }),
    decreases s.len() - i,
{
    if i < s.len() && (if kind == 0 {
        is_digit(s[i])
    } else if kind == 1 {
        is_alpha(s[i])
    } else {
        is_alnum(s[i]) || s[i] == '_'
    }) {
        lemma_run_end(s, i + 1, kind);
    }
}

pub proof fn lemma_digits_value_push(d: Seq<char>, c: char)
    ensures
        digits_value(d.push(c)) == digits_value(d) * 10 + (c as int - '0' as int),
{
    assert(d.push(c).drop_last() =~= d);
}

pub proof fn lemma_digits_value_nonneg(d: Seq<char>)
    requires
        forall|k: int| 0 <= k < d.len() ==> is_digit(#[trigger] d[k]),
    ensures
        digits_value(d) >= 0,
    decreases d.len(),
{
    if d.len() > 0 {
        lemma_digits_value_nonneg(d.drop_last());
    }
}

pub proof fn lemma_digits_value_mono(d: Seq<char>, c: char)
    requires
        forall|k: int| 0 <= k < d.len() ==> is_digit(#[trigger] d[k]),
        is_digit(c),
    ensures
        digits_value(d.push(c)) >= digits_value(d),
{
    lemma_digits_value_push(d, c);
    lemma_digits_value_nonneg(d);
}

fn run_char(c: char, kind: u8) -> (r: bool)
    ensures
        r == (if kind == 0 {
            is_digit(c)
        } else if kind == 1 {
            is_alpha(c)
        } else {
            is_alnum(c) || c == '_'
        }),
{
    if kind == 0 {
        is_ascii_digit(c)
    } else if kind == 1 {
        is_ascii_alphabetic(c)
    } else {
        is_ascii_alphanumeric(c) || c == '_'
    }
}

/// Scans the run of `kind` characters from `i`.
fn scan_run(s: &Vec<char>, i: usize, kind: u8) -> (r: usize)
    requires
        i <= s@.len(),
        kind <= 2,
    ensures
        r == run_end(s@, i as int, kind as int),
{
    let mut j = i;
    while j < s.len() && run_char(s[j], kind)
        invariant
            i <= j <= s@.len(),
            kind <= 2,
            run_end(s@, j as int, kind as int) == run_end(s@, i as int, kind as int),
        decreases s@.len() - j,
    {
        j = j + 1;
    }
    j
}

/// Whether the text from `i` can be tokenized without panicking.
pub open spec fn tokenizable(s: Seq<char>) -> bool {
    tokenize_spec(s) is Some
}

fn tokenize_chars(s: &Vec<char>) -> (r: Vec<Token>)
    requires
        tokenize_spec(s@) is Some,
    ensures
        tokenize_spec(s@) == Some(view_tokens(r@)),
    decreases s@.len(),
{
    let mut out: Vec<Token> = Vec::new();
    let mut i: usize = 0;
    proof {
        assert(view_tokens(out@) =~= Seq::<TokenView>::empty());
        assert(view_tokens(out@) + tokens_from(s@, 0)->0 =~= tokens_from(s@, 0)->0);
    }
    while i < s.len()
        invariant
            i <= s@.len(),
            tokens_from(s@, i as int) is Some,
            tokenize_spec(s@) == Some(view_tokens(out@) + tokens_from(s@, i as int)->0),
        decreases s@.len() - i,
    {
        let c = s[i];
        let ghost before = out@;
        let ghost i0 = i as int;
        if is_whitespace(c) {
            i = i + 1;
        } else if c == '#' {
            let mut j = i + 1;
            while j < s.len() && s[j] != '\n'
                invariant
                    i < j <= s@.len(),
                    comment_end(s@, j as int) == comment_end(s@, i + 1),
                decreases s@.len() - j,
            {
                j = j + 1;
            }
            if j < s.len() {
                j = j + 1;
            }
            i = j;
        } else if let Some(bracket) = Bracket::parse(c) {
            let shape = bracket.shape;
            let open = shape.opening();
            let close = shape.closing();
            let mut depth: usize = 1;
            let mut j = i + 1;
            let mut inner_end = s.len();
            let mut next = s.len();
            let mut found = false;
            while j < s.len() && !found
                invariant
                    i < j <= s@.len(),
                    open == opening_char(shape),
                    close == closing_char(shape),
                    !found ==> 1 <= depth <= j - i,
                    !found ==> block_end(s@, j as int, shape, depth as int) == block_end(
                        s@,
                        i + 1,
                        shape,
                        1,
                    ),
                    found ==> block_end(s@, i + 1, shape, 1) == (inner_end as int, next as int),
                    found ==> i < inner_end,
                    inner_end <= next <= s@.len(),
                decreases s@.len() - j + (if found {
                    0int
                } else {
                    1int
                }),
            {
                let d = s[j];
                if d == open {
                    depth = depth + 1;
                } else if d == close {
                    depth = depth - 1;
                }
                if depth == 0 {
                    inner_end = j;
                    next = j + 1;
                    found = true;
                } else {
                    j = j + 1;
                }
            }
            if !found {
                inner_end = s.len();
                next = s.len();
            }
            let inner = slice_chars(s.as_slice(), i + 1, inner_end);
            let children = tokenize_chars(&inner);
            let t = Token::Block { shape, children };
            proof {
                lemma_view_tokens_push(out@, t);
                assert(tokens_from(s@, i0) == Some(seq![t.view()] + tokens_from(s@, next as int)->0));
            }
            out.push(t);
            i = next;
        } else if is_ascii_digit(c) {
            let e = scan_run(s, i, 0);
            let f = scan_run(s, e, 1);
            proof {
                lemma_run_end(s@, i as int, 0);
                lemma_run_end(s@, e as int, 1);
                assert(s@.subrange(i as int, i as int) =~= Seq::<char>::empty());
            }
            let mut value: i32 = 0;
            let mut k = i;
            while k < e
                invariant
                    i <= k <= e <= s@.len(),
                    e == run_end(s@, i as int, 0),
                    forall|m: int| i <= m < e ==> is_digit(#[trigger] s@[m]),
                    digits_value(s@.subrange(i as int, e as int)) <= 0x7fff_ffff,
                    value as int == digits_value(s@.subrange(i as int, k as int)),
                decreases e - k,
            {
                proof {
                    assert(s@.subrange(i as int, k + 1) =~= s@.subrange(i as int, k as int).push(
                        s@[k as int],
                    ));
                    lemma_digits_value_push(s@.subrange(i as int, k as int), s@[k as int]);
                    lemma_digits_prefix_le(s@.subrange(i as int, e as int), k - i + 1);
                    assert(s@.subrange(i as int, e as int).take(k - i + 1) =~= s@.subrange(
                        i as int,
                        k + 1,
                    ));
                    lemma_digits_value_nonneg(s@.subrange(i as int, k as int));
                }
                let digit = (s[k] as u32 - '0' as u32) as i32;
                value = value * 10 + digit;
                k = k + 1;
            }
            let suffix = slice_chars(s.as_slice(), e, f);
            let t = Token::Number { num: value, suffix: string_of(suffix.as_slice()) };
            proof {
                lemma_view_tokens_push(out@, t);
                assert(tokens_from(s@, i0) == Some(seq![t.view()] + tokens_from(s@, f as int)->0));
            }
            out.push(t);
            i = f;
        } else if let Some(p) = Punctuation::parse(c) {
            let t = Token::Punctuation(p);
            proof {
                lemma_view_tokens_push(out@, t);
                assert(tokens_from(s@, i0) == Some(seq![t.view()] + tokens_from(s@, i0 + 1)->0));
            }
            out.push(t);
            i = i + 1;
        } else if is_ascii_alphabetic(c) {
            let e = scan_run(s, i, 2);
            proof {
                lemma_run_end(s@, i as int + 1, 2);
                assert(run_end(s@, i as int, 2) == run_end(s@, i as int + 1, 2));
            }
            let word = slice_chars(s.as_slice(), i, e);
            let t = match Keyword::parse_chars(&word) {
                Some(k) => Token::Keyword(k),
                None => Token::Identifier(string_of(word.as_slice())),
            };
            proof {
                lemma_view_tokens_push(out@, t);
                assert(tokens_from(s@, i0) == Some(seq![t.view()] + tokens_from(s@, e as int)->0));
            }
            out.push(t);
            i = e;
        } else {
            let mut e = i + 1;
            while e < s.len() && s[e] != '"'
                invariant
                    i < e <= s@.len(),
                    quote_end(s@, e as int) == quote_end(s@, i + 1),
                decreases s@.len() - e,
            {
                e = e + 1;
            }
            let body = slice_chars(s.as_slice(), i + 1, e);
            let t = Token::String(string_of(body.as_slice()));
            let next = if e < s.len() {
                e + 1
            } else {
                e
            };
            proof {
                lemma_view_tokens_push(out@, t);
                assert(tokens_from(s@, i0) == Some(seq![t.view()] + tokens_from(s@, next as int)->0));
            }
            out.push(t);
            i = next;
        }
        proof {
            if out@.len() == before.len() {
                assert(out@ == before);
                assert(tokens_from(s@, i0) == tokens_from(s@, i as int));
            } else {
                let tv = out@.last().view();
                assert(view_tokens(out@) == view_tokens(before).push(tv));
                assert(view_tokens(out@) + tokens_from(s@, i as int)->0 =~= view_tokens(before)
                    + tokens_from(s@, i0)->0);
            }
        }
    }
    proof {
        assert(view_tokens(out@) + Seq::<TokenView>::empty() =~= view_tokens(out@));
    }
    out
}

pub proof fn lemma_digits_prefix_le(d: Seq<char>, n: int)
    requires
        forall|k: int| 0 <= k < d.len() ==> is_digit(#[trigger] d[k]),
        0 <= n <= d.len(),
    ensures
        digits_value(d.take(n)) <= digits_value(d),
    decreases d.len(),
{
    if n < d.len() {
        lemma_digits_prefix_le(d.drop_last(), n);
        assert(d.drop_last().take(n) =~= d.take(n));
        assert(d.drop_last().push(d.last()) =~= d);
        lemma_digits_value_mono(d.drop_last(), d.last());
    } else {
        assert(d.take(n) =~= d);
    }
}

/// Tokenizes `file`; `file` must not hold a character that starts no token
/// nor a number beyond the range of `i32`.
pub fn tokenize(file: &str) -> (r: Vec<Token>)
    requires
        tokenizable(file@),
    ensures
        tokenize_spec(file@) == Some(view_tokens(r@)),
{
    let s = chars_of(file);
    tokenize_chars(&s)
}

} // verus!
