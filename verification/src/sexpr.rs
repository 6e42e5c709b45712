//! A small, lossless-value S-expression reader and printer for KiCad library
//! data.
use vstd::prelude::*;
use crate::text::{
    chars_of, is_whitespace, is_ws, lemma_skip_ws, push_all, skip_whitespace, skip_ws, slice_chars,
    str_eq, string_of,
};

verus! {

/// An S-expression: a bare atom, a quoted string, or a parenthesised list.
#[derive(Debug)]
pub enum SExpr {
    Atom(String),
    String(String),
    List(Vec<SExpr>),
}

/// The mathematical value of an [`SExpr`].
pub enum SExprView {
    Atom(Seq<char>),
    Str(Seq<char>),
    List(Seq<SExprView>),
}

impl SExpr {
    pub open spec fn view(&self) -> SExprView
        decreases self,
    {
        match self {
            SExpr::Atom(v) => SExprView::Atom(v@),
            SExpr::String(v) => SExprView::Str(v@),
            SExpr::List(items) => SExprView::List(view_items(items@)),
        }
    }
}

/// The values of a sequence of S-expressions.
pub open spec fn view_items(items: Seq<SExpr>) -> Seq<SExprView>
    decreases items,
{
    if items.len() == 0 {
        Seq::empty()
    } else {
        view_items(items.drop_last()).push(items.last().view())
    }
}

pub proof fn lemma_view_items_push(items: Seq<SExpr>, e: SExpr)
    ensures
        view_items(items.push(e)) == view_items(items).push(e.view()),
{
    assert(items.push(e).drop_last() =~= items);
}

pub proof fn lemma_view_items_index(items: Seq<SExpr>, i: int)
    requires
        0 <= i < items.len(),
    ensures
        view_items(items).len() == items.len(),
        view_items(items)[i] == items[i].view(),
    decreases items.len(),
{
    lemma_view_items_len(items);
    if i < items.len() - 1 {
        lemma_view_items_index(items.drop_last(), i);
    }
}

pub proof fn lemma_view_items_len(items: Seq<SExpr>)
    ensures
        view_items(items).len() == items.len(),
    decreases items.len(),
{
    if items.len() > 0 {
        lemma_view_items_len(items.drop_last());
    }
}

// ---------------------------------------------------------------------------
// Reading
// ---------------------------------------------------------------------------

pub open spec fn msg_eof() -> Seq<char> {
    "unexpected end of S-expression"@
}

pub open spec fn msg_unterminated() -> Seq<char> {
    "unterminated string"@
}

pub open spec fn msg_escape() -> Seq<char> {
    "unterminated escape"@
}

pub open spec fn msg_close() -> Seq<char> {
    "unexpected closing parenthesis"@
}

pub open spec fn msg_trailing() -> Seq<char> {
    "trailing S-expression data"@
}

/// Whether `c` ends a bare atom.
pub open spec fn atom_stop(c: char) -> bool {
    is_ws(c) || c == '(' || c == ')'
}

/// The first index at or after `i` at which a bare atom ends.
pub open spec fn atom_end(s: Seq<char>, i: int) -> int
    decreases s.len() - i,
{
    if 0 <= i < s.len() && !atom_stop(s[i]) {
        atom_end(s, i + 1)
    } else {
        i
    }
}

/// The character an escape sequence `\c` stands for.
pub open spec fn unescape(c: char) -> char {
    if c == 'n' {
        '\n'
    } else if c == 'r' {
        '\r'
    } else if c == 't' {
        '\t'
    } else {
        c
    }
}

/// Reads the body of a quoted string starting at `i` (just after the opening
/// quote); `acc` holds the characters read so far.
pub open spec fn read_string(s: Seq<char>, i: int, acc: Seq<char>) -> Result<
    (Seq<char>, int),
    Seq<char>,
>
    decreases s.len() - i,
{
    if i < 0 || i >= s.len() {
        Err(msg_unterminated())
    } else if s[i] == '"' {
        Ok((acc, i + 1))
    } else if s[i] == '\\' {
        if i + 1 >= s.len() {
            Err(msg_escape())
        } else {
            read_string(s, i + 2, acc.push(unescape(s[i + 1])))
        }
    } else {
        read_string(s, i + 1, acc.push(s[i]))
    }
}

pub proof fn lemma_atom_end(s: Seq<char>, i: int)
    ensures
        atom_end(s, i) >= i,
        0 <= i <= s.len() ==> atom_end(s, i) <= s.len(),
        forall|k: int| i <= k < atom_end(s, i) ==> !atom_stop(#[trigger] s[k]),
        0 <= atom_end(s, i) < s.len() ==> atom_stop(s[atom_end(s, i)]),
    decreases s.len() - i,
{
    if 0 <= i < s.len() && !atom_stop(s[i]) {
        lemma_atom_end(s, i + 1);
    }
}

/// Reads one S-expression starting at or after index `i`, returning it and the
/// index just past it.
pub open spec fn read(s: Seq<char>, i: int) -> Result<(SExprView, int), Seq<char>>
    decreases s.len() - i, 0int,
{
    let j = skip_ws(s, i);
    if j < 0 || j >= s.len() || j < i {
        Err(msg_eof())
    } else if s[j] == '(' {
        read_items(s, j + 1, Seq::empty())
    } else if s[j] == '"' {
        match read_string(s, j + 1, Seq::empty()) {
            Ok((v, k)) => Ok((SExprView::Str(v), k)),
            Err(m) => Err(m),
        }
    } else if s[j] == ')' {
        Err(msg_close())
    } else {
        let e = atom_end(s, j + 1);
        Ok((SExprView::Atom(s.subrange(j, e)), e))
    }
}

/// Reads list items starting at `i` up to and including the closing
/// parenthesis; `acc` holds the items read so far.
pub open spec fn read_items(s: Seq<char>, i: int, acc: Seq<SExprView>) -> Result<
    (SExprView, int),
    Seq<char>,
>
    decreases s.len() - i, 1int,
{
    let j = skip_ws(s, i);
    if j < i || j > s.len() || i < 0 {
        Err(msg_eof())
    } else if j < s.len() && s[j] == ')' {
        Ok((SExprView::List(acc), j + 1))
    } else {
        match read(s, j) {
            Err(m) => Err(m),
            Ok((e, k)) => if k <= i || k > s.len() {
                Err(msg_eof())
            } else {
                read_items(s, k, acc.push(e))
            },
        }
    }
}

/// The result of parsing a whole text: one S-expression surrounded only by
/// white space.
pub open spec fn parse_spec(s: Seq<char>) -> Result<SExprView, Seq<char>> {
    match read(s, 0) {
        Err(m) => Err(m),
        Ok((e, k)) => if skip_ws(s, k) >= s.len() {
            Ok(e)
        } else {
            Err(msg_trailing())
        },
    }
}

/// Relates an executable read result to its specification.
pub open spec fn read_matches(
    r: Result<(SExpr, usize), String>,
    spec: Result<(SExprView, int), Seq<char>>,
) -> bool {
    match (r, spec) {
        (Ok((e, k)), Ok((v, k2))) => e.view() == v && k == k2,
        (Err(m), Err(m2)) => m@ == m2,
        _ => false,
    }
}

pub proof fn lemma_read_bounds(s: Seq<char>, i: int)
    requires
        0 <= i <= s.len(),
    ensures
        read(s, i) matches Ok((_, k)) ==> i < k <= s.len(),
    decreases s.len() - i, 0int,
{
    lemma_skip_ws(s, i);
    let j = skip_ws(s, i);
    if j < s.len() {
        if s[j] == '(' {
            lemma_read_items_bounds(s, j + 1, Seq::empty());
        } else if s[j] == '"' {
            lemma_read_string_bounds(s, j + 1, Seq::empty());
        } else if s[j] != ')' {
            lemma_atom_end(s, j + 1);
        }
    }
}

pub proof fn lemma_read_items_bounds(s: Seq<char>, i: int, acc: Seq<SExprView>)
    requires
        0 <= i <= s.len(),
    ensures
        read_items(s, i, acc) matches Ok((_, k)) ==> i < k <= s.len(),
    decreases s.len() - i, 1int,
{
    lemma_skip_ws(s, i);
    let j = skip_ws(s, i);
    if j < s.len() && s[j] == ')' {
    } else {
        lemma_read_bounds(s, j);
        match read(s, j) {
            Err(m) => {},
            Ok((e, k)) => {
                if k > i && k <= s.len() {
                    lemma_read_items_bounds(s, k, acc.push(e));
                }
            },
        }
    }
}

pub proof fn lemma_read_string_bounds(s: Seq<char>, i: int, acc: Seq<char>)
    requires
        0 <= i <= s.len(),
    ensures
        read_string(s, i, acc) matches Ok((_, k)) ==> i < k <= s.len(),
    decreases s.len() - i,
{
    if i < s.len() && s[i] != '"' {
        if s[i] == '\\' {
            if i + 1 < s.len() {
                lemma_read_string_bounds(s, i + 2, acc.push(unescape(s[i + 1])));
            }
        } else {
            lemma_read_string_bounds(s, i + 1, acc.push(s[i]));
        }
    }
}

fn message(m: &str) -> (r: String)
    ensures
        r@ == m@,
{
    m.to_owned()
}

fn read_quoted(s: &Vec<char>, i: usize) -> (r: Result<(String, usize), String>)
    requires
        i <= s@.len(),
    ensures
        match (r, read_string(s@, i as int, Seq::empty())) {
            (Ok((v, k)), Ok((w, k2))) => v@ == w && k == k2,
            (Err(m), Err(m2)) => m@ == m2,
            _ => false,
        },
{
    let mut value: Vec<char> = Vec::new();
    let mut j = i;
    while j < s.len()
        invariant
            i <= j <= s@.len(),
            read_string(s@, j as int, value@) == read_string(s@, i as int, Seq::empty()),
        decreases s@.len() - j,
    {
        let c = s[j];
        if c == '"' {
            return Ok((string_of(value.as_slice()), j + 1));
        } else if c == '\\' {
            if j + 1 >= s.len() {
                return Err(message("unterminated escape"));
            }
            let e = s[j + 1];
            let u = if e == 'n' {
                '\n'
            } else if e == 'r' {
                '\r'
            } else if e == 't' {
                '\t'
            } else {
                e
            };
            value.push(u);
            j = j + 2;
        } else {
            value.push(c);
            j = j + 1;
        }
    }
    Err(message("unterminated string"))
}

fn read_exec(s: &Vec<char>, i: usize) -> (r: Result<(SExpr, usize), String>)
    requires
        i <= s@.len(),
    ensures
        read_matches(r, read(s@, i as int)),
    decreases s@.len() - i,
{
    let j = skip_whitespace(s, i);
    proof {
        lemma_skip_ws(s@, i as int);
    }
    if j >= s.len() {
        return Err(message("unexpected end of S-expression"));
    }
    let c = s[j];
    if c == '(' {
        let mut items: Vec<SExpr> = Vec::new();
        let mut pos = j + 1;
        proof {
            assert(view_items(items@) =~= Seq::<SExprView>::empty());
        }
        loop
            invariant
                i < pos <= s@.len(),
                read_items(s@, pos as int, view_items(items@)) == read(s@, i as int),
            decreases s@.len() - pos,
        {
            let k = skip_whitespace(s, pos);
            proof {
                lemma_skip_ws(s@, pos as int);
            }
            if k < s.len() && s[k] == ')' {
                return Ok((SExpr::List(items), k + 1));
            }
            let next = read_exec(s, k);
            proof {
                lemma_read_bounds(s@, k as int);
            }
            match next {
                Err(m) => {
                    return Err(m);
                },
                Ok((e, end)) => {
                    proof {
                        lemma_view_items_push(items@, e);
                    }
                    items.push(e);
                    pos = end;
                },
            }
        }
    } else if c == '"' {
        match read_quoted(s, j + 1) {
            Ok((v, k)) => Ok((SExpr::String(v), k)),
            Err(m) => Err(m),
        }
    } else if c == ')' {
        Err(message("unexpected closing parenthesis"))
    } else {
        let mut e = j + 1;
        proof {
            lemma_atom_end(s@, e as int);
        }
        while e < s.len() && !(is_whitespace(s[e]) || s[e] == '(' || s[e] == ')')
            invariant
                j < e <= s@.len(),
                atom_end(s@, e as int) == atom_end(s@, j + 1),
            decreases s@.len() - e,
        {
            e = e + 1;
        }
        let atom = slice_chars(s.as_slice(), j, e);
        Ok((SExpr::Atom(string_of(atom.as_slice())), e))
    }
}

impl SExpr {
    /// Parses a whole text holding exactly one S-expression (surrounded by
    /// optional white space).
    pub fn parse(source: &str) -> (r: Result<SExpr, String>)
        ensures
            match (r, parse_spec(source@)) {
                (Ok(e), Ok(v)) => e.view() == v,
                (Err(m), Err(m2)) => m@ == m2,
                _ => false,
            },
    {
        let s = chars_of(source);
        let r = read_exec(&s, 0);
        proof {
            lemma_read_bounds(s@, 0);
        }
        match r {
            Err(m) => Err(m),
            Ok((e, k)) => {
                let t = skip_whitespace(&s, k);
                if t >= s.len() {
                    Ok(e)
                } else {
                    Err(message("trailing S-expression data"))
                }
            },
        }
    }
}


// ---------------------------------------------------------------------------
// Printing
// ---------------------------------------------------------------------------

/// How one character of a quoted string is written.
pub open spec fn escape_char(c: char) -> Seq<char> {
    if c == '\\' {
        seq!['\\', '\\']
    } else if c == '"' {
        seq!['\\', '"']
    } else if c == '\n' {
        seq!['\\', 'n']
    } else if c == '\r' {
        seq!['\\', 'r']
    } else if c == '\t' {
        seq!['\\', 't']
    } else {
        seq![c]
    }
}

/// The body of a quoted string as written.
pub open spec fn escape_text(v: Seq<char>) -> Seq<char>
    decreases v.len(),
{
    if v.len() == 0 {
        Seq::empty()
    } else {
        escape_text(v.drop_last()) + escape_char(v.last())
    }
}

/// The text of an S-expression: atoms verbatim, strings quoted and escaped,
/// lists parenthesised with their items separated by single spaces.
pub open spec fn text(e: SExprView) -> Seq<char>
    decreases e,
{
    let ghost e0 = e;
    match e {
        SExprView::Atom(v) => v,
        SExprView::Str(v) => seq!['"'] + escape_text(v) + seq!['"'],
        SExprView::List(items) => seq!['('] + text_items(items) + seq![')'],
    }
}

/// The texts of a sequence of S-expressions, separated by single spaces.
pub open spec fn text_items(items: Seq<SExprView>) -> Seq<char>
    decreases items,
{
    if items.len() == 0 {
        Seq::empty()
    } else if items.len() == 1 {
        text(items[0])
    } else {
        text_items(items.drop_last()) + seq![' '] + text(items.last())
    }
}

fn write_escaped(v: &String, out: &mut Vec<char>)
    ensures
        final(out)@ == old(out)@ + escape_text(v@),
{
    let chars = chars_of(v.as_str());
    let ghost start = out@;
    let mut i: usize = 0;
    while i < chars.len()
        invariant
            chars@ == v@,
            i <= chars@.len(),
            out@ == start + escape_text(chars@.take(i as int)),
        decreases chars@.len() - i,
    {
        let c = chars[i];
        if c == '\\' {
            out.push('\\');
            out.push('\\');
        } else if c == '"' {
            out.push('\\');
            out.push('"');
        } else if c == '\n' {
            out.push('\\');
            out.push('n');
        } else if c == '\r' {
            out.push('\\');
            out.push('r');
        } else if c == '\t' {
            out.push('\\');
            out.push('t');
        } else {
            out.push(c);
        }
        proof {
            assert(chars@.take(i + 1).drop_last() =~= chars@.take(i as int));
        }
        i = i + 1;
        assert(out@ =~= start + escape_text(chars@.take(i as int)));
    }
    assert(chars@.take(chars@.len() as int) =~= chars@);
}

impl SExpr {
    fn write_text(&self, out: &mut Vec<char>)
        ensures
            final(out)@ == old(out)@ + text(self.view()),
        decreases self,
    {
        match self {
            SExpr::Atom(v) => {
                let chars = chars_of(v.as_str());
                push_all(out, chars.as_slice());
            },
            SExpr::String(v) => {
                let ghost start = out@;
                out.push('"');
                write_escaped(v, out);
                out.push('"');
                assert(out@ =~= start + (seq!['"'] + escape_text(v@) + seq!['"']));
            },
            SExpr::List(items) => {
                let ghost start = out@;
                let ghost views = view_items(items@);
                proof {
                    lemma_view_items_len(items@);
                }
                out.push('(');
                let mut i: usize = 0;
                while i < items.len()
                    invariant
                        *self == SExpr::List(*items),
                        views == view_items(items@),
                        views.len() == items@.len(),
                        i <= items@.len(),
                        out@ == start + seq!['('] + text_items(views.take(i as int)),
                    decreases items@.len() - i,
                {
                    let ghost before = out@;
                    if i > 0 {
                        out.push(' ');
                    }
                    let item = &items[i];
                    proof {
                        lemma_view_items_index(items@, i as int);
                        assert(*self == SExpr::List(*items));
                        assert(decreases_to!(*self => (*self)->List_0));
                        assert(decreases_to!(*items => items@));
                        assert(decreases_to!(items@ => items@[i as int]));
                        assert(decreases_to!(*self => items@[i as int]));
                    }
                    item.write_text(out);
                    proof {
                        let t = views.take(i + 1);
                        assert(t.drop_last() =~= views.take(i as int));
                        assert(t.last() == views[i as int]);
                        if i == 0 {
                            assert(t.len() == 1);
                            assert(text_items(views.take(0)) =~= Seq::<char>::empty());
                        }
                    }
                    i = i + 1;
                    assert(out@ =~= start + seq!['('] + text_items(views.take(i as int)));
                }
                out.push(')');
                assert(views.take(items@.len() as int) =~= views);
                assert(out@ =~= start + text(self.view()));
            },
        }
    }

    /// The text of the S-expression (see [`text`]).
    pub fn to_string(&self) -> (r: String)
        ensures
            r@ == text(self.view()),
    {
        let mut out: Vec<char> = Vec::new();
        self.write_text(&mut out);
        assert(out@ =~= text(self.view()));
        string_of(out.as_slice())
    }
}

// ---------------------------------------------------------------------------
// Building and querying
// ---------------------------------------------------------------------------

/// The text of an atom or string.
pub open spec fn text_of(e: SExprView) -> Option<Seq<char>> {
    match e {
        SExprView::Atom(v) => Some(v),
        SExprView::Str(v) => Some(v),
        SExprView::List(_) => None,
    }
}

/// The items of a list, empty for an atom or string.
pub open spec fn items_of(e: SExprView) -> Seq<SExprView> {
    match e {
        SExprView::List(items) => items,
        _ => Seq::empty(),
    }
}

/// The tag of a list: the text of its first item.
pub open spec fn tag_of(e: SExprView) -> Option<Seq<char>> {
    if items_of(e).len() > 0 {
        text_of(items_of(e)[0])
    } else {
        None
    }
}

/// The item at `index` of a list, as text.
pub open spec fn value_of(e: SExprView, index: int) -> Option<Seq<char>> {
    if 0 <= index < items_of(e).len() {
        text_of(items_of(e)[index])
    } else {
        None
    }
}

/// The index of the first item tagged `name`.
pub open spec fn first_tagged(items: Seq<SExprView>, name: Seq<char>) -> Option<int>
    decreases items.len(),
{
    if items.len() == 0 {
        None
    } else {
        match first_tagged(items.drop_last(), name) {
            Some(i) => Some(i),
            None => if tag_of(items.last()) == Some(name) {
                Some(items.len() - 1)
            } else {
                None
            },
        }
    }
}

/// The items whose tag is not `tag`, in order.
pub open spec fn without_tag(items: Seq<SExprView>, tag: Option<Seq<char>>) -> Seq<SExprView>
    decreases items.len(),
{
    if items.len() == 0 {
        Seq::empty()
    } else if tag_of(items.last()) == tag {
        without_tag(items.drop_last(), tag)
    } else {
        without_tag(items.drop_last(), tag).push(items.last())
    }
}

/// Removes, at every depth, the list items tagged `name`.
pub open spec fn remove_deep(e: SExprView, name: Seq<char>) -> SExprView
    decreases e,
{
    let ghost e0 = e;
    match e {
        SExprView::List(items) => SExprView::List(remove_deep_items(items, name)),
        _ => e,
    }
}

pub open spec fn remove_deep_items(items: Seq<SExprView>, name: Seq<char>) -> Seq<SExprView>
    decreases items,
{
    if items.len() == 0 {
        Seq::empty()
    } else if tag_of(items.last()) == Some(name) {
        remove_deep_items(items.drop_last(), name)
    } else {
        remove_deep_items(items.drop_last(), name).push(remove_deep(items.last(), name))
    }
}

pub proof fn lemma_view_items_concat(a: Seq<SExpr>, b: Seq<SExpr>)
    ensures
        view_items(a + b) == view_items(a) + view_items(b),
    decreases b.len(),
{
    if b.len() == 0 {
        assert(a + b =~= a);
        assert(view_items(b) =~= Seq::<SExprView>::empty());
        assert(view_items(a) + view_items(b) =~= view_items(a));
    } else {
        lemma_view_items_concat(a, b.drop_last());
        assert((a + b).drop_last() =~= a + b.drop_last());
        assert((a + b).last() == b.last());
        assert(view_items(a) + view_items(b) =~= (view_items(a) + view_items(b.drop_last())).push(
            b.last().view(),
        ));
    }
}

/// Takes the items out of a vector, in order, leaving it empty.
pub(crate) fn drain_in_order(v: &mut Vec<SExpr>) -> (r: Vec<SExpr>)
    ensures
        r@ == old(v)@.reverse(),
        final(v)@.len() == 0,
{
    let ghost original = v@;
    let mut r: Vec<SExpr> = Vec::new();
    while v.len() > 0
        invariant
            v@.len() + r@.len() == original.len(),
            forall|j: int| 0 <= j < v@.len() ==> v@[j] == original[j],
            forall|j: int| 0 <= j < r@.len() ==> r@[j] == original[original.len() - 1 - j],
        decreases v@.len(),
    {
        let e = v.pop().unwrap();
        r.push(e);
    }
    assert(r@ =~= original.reverse());
    r
}

impl SExpr {
    /// An atom with the given text.
    pub fn atom(value: &str) -> (r: SExpr)
        ensures
            r.view() == SExprView::Atom(value@),
    {
        SExpr::Atom(value.to_owned())
    }

    /// A quoted string with the given text.
    pub fn string(value: &str) -> (r: SExpr)
        ensures
            r.view() == SExprView::Str(value@),
    {
        SExpr::String(value.to_owned())
    }

    /// A list whose first item is the atom `name`, followed by `values`.
    pub fn list(name: &str, values: Vec<SExpr>) -> (r: SExpr)
        ensures
            r.view() == SExprView::List(seq![SExprView::Atom(name@)] + view_items(values@)),
    {
        let mut items: Vec<SExpr> = Vec::new();
        items.push(SExpr::atom(name));
        let ghost head = items@;
        let mut rest = values;
        items.append(&mut rest);
        proof {
            lemma_view_items_concat(head, values@);
            assert(head.drop_last() =~= Seq::<SExpr>::empty());
            assert(view_items(Seq::<SExpr>::empty()) =~= Seq::<SExprView>::empty());
            assert(view_items(head) =~= seq![SExprView::Atom(name@)]);
        }
        SExpr::List(items)
    }

    /// The text of an atom or a string.
    pub fn text(&self) -> (r: Option<&str>)
        ensures
            match r {
                Some(t) => text_of(self.view()) == Some(t@),
                None => text_of(self.view()) is None,
            },
    {
        match self {
            SExpr::Atom(v) => Some(v.as_str()),
            SExpr::String(v) => Some(v.as_str()),
            SExpr::List(_) => None,
        }
    }

    /// The items of a list; an atom or a string has none.
    pub fn items(&self) -> (r: &[SExpr])
        ensures
            view_items(r@) == items_of(self.view()),
            self is List ==> r@ == self->List_0@,
    {
        match self {
            SExpr::List(v) => v.as_slice(),
            _ => {
                let r: &[SExpr] = &[];
                assert(view_items(r@) =~= Seq::<SExprView>::empty());
                r
            },
        }
    }

    /// The items of a list, for modification.
    pub fn items_mut(&mut self) -> (r: &mut Vec<SExpr>)
        requires
            *old(self) is List,
        ensures
            *r == (*old(self))->List_0,
            *final(self) == SExpr::List(*final(r)),
    {
        match self {
            SExpr::List(v) => v,
            _ => vstd::pervasive::unreached(),
        }
    }

    /// The tag of a list: the text of its first item.
    pub fn tag(&self) -> (r: Option<&str>)
        ensures
            match r {
                Some(t) => tag_of(self.view()) == Some(t@),
                None => tag_of(self.view()) is None,
            },
    {
        let items = self.items();
        proof {
            lemma_view_items_len(items@);
        }
        if items.len() == 0 {
            None
        } else {
            proof {
                lemma_view_items_index(items@, 0);
            }
            items[0].text()
        }
    }

    /// Whether the tag of this S-expression is `name`.
    pub(crate) fn has_tag(&self, name: &str) -> (r: bool)
        ensures
            r == (tag_of(self.view()) == Some(name@)),
    {
        match self.tag() {
            Some(t) => str_eq(t, name),
            None => false,
        }
    }

    /// The first item of a list tagged `name`.
    pub fn field(&self, name: &str) -> (r: Option<&SExpr>)
        ensures
            match first_tagged(items_of(self.view()), name@) {
                Some(i) => r matches Some(x) && x.view() == items_of(self.view())[i],
                None => r is None,
            },
    {
        let items = self.items();
        let ghost views = items_of(self.view());
        proof {
            lemma_view_items_len(items@);
        }
        let mut i: usize = 0;
        while i < items.len()
            invariant
                views == view_items(items@),
                views == items_of(self.view()),
                views.len() == items@.len(),
                i <= items@.len(),
                first_tagged(views.take(i as int), name@) is None,
            decreases items@.len() - i,
        {
            proof {
                lemma_view_items_index(items@, i as int);
                assert(views.take(i + 1).drop_last() =~= views.take(i as int));
            }
            if items[i].has_tag(name) {
                proof {
                    assert(views.take(i as int + 1 - 1) =~= views.take(i as int));
                    lemma_first_tagged_prefix(views, name@, i as int + 1);
                    assert(first_tagged(views, name@) == Some(i as int));
                    assert(items@[i as int].view() == views[i as int]);
                }
                let x = &items[i];
                assert(x.view() == views[i as int]);
                return Some(x);
            }
            i = i + 1;
        }
        proof {
            assert(views.take(i as int) =~= views);
        }
        None
    }

    /// The item at `index` of a list, as text.
    pub fn value(&self, index: usize) -> (r: Option<&str>)
        ensures
            match r {
                Some(t) => value_of(self.view(), index as int) == Some(t@),
                None => value_of(self.view(), index as int) is None,
            },
    {
        let items = self.items();
        proof {
            lemma_view_items_len(items@);
        }
        if index < items.len() {
            proof {
                lemma_view_items_index(items@, index as int);
            }
            items[index].text()
        } else {
            None
        }
    }

    /// Keeps the items of a list whose tag is not that of `name`/`tag`.
    fn retain_untagged(items: &mut Vec<SExpr>, name: Option<&str>)
        ensures
            view_items(final(items)@) == without_tag(
                view_items(old(items)@),
                match name {
                    Some(t) => Some(t@),
                    None => None,
                },
            ),
    {
        let ghost tag = match name {
            Some(t) => Some(t@),
            None => None,
        };
        let ghost original = items@;
        let mut pending = drain_in_order(items);
        assert(tag == match name {
            Some(t) => Some(t@),
            None => None,
        });
        let mut k: usize = 0;
        let n = pending.len();
        proof {
            lemma_view_items_len(original);
            assert(view_items(items@) =~= Seq::<SExprView>::empty());
            assert(original.take(0) =~= Seq::<SExpr>::empty());
            assert(view_items(original.take(0)) =~= Seq::<SExprView>::empty());
        }
        while k < n
            invariant
                n == original.len(),
                k <= n,
                pending@.len() == n - k,
                tag == match name {
                    Some(t) => Some(t@),
                    None => None,
                },
                forall|j: int| 0 <= j < n - k ==> pending@[j] == original[n - 1 - j],
                view_items(items@) == without_tag(view_items(original.take(k as int)), tag),
            decreases n - k,
        {
            let e = pending.pop().unwrap();
            proof {
                assert(e == original[k as int]);
                assert(original.take(k + 1) =~= original.take(k as int).push(e));
                lemma_view_items_push(original.take(k as int), e);
                assert(view_items(original.take(k as int)).push(e.view()).drop_last()
                    =~= view_items(original.take(k as int)));
            }
            let keep = match name {
                Some(t) => !e.has_tag(t),
                None => e.tag().is_some(),
            };
            if keep {
                proof {
                    lemma_view_items_push(items@, e);
                }
                items.push(e);
            }
            k = k + 1;
        }
        proof {
            assert(original.take(n as int) =~= original);
        }
    }

    /// Replaces every item of a list tagged like `field` by `field`, which is
    /// appended last.
    pub fn set(&mut self, field: SExpr)
        requires
            *old(self) is List,
            tag_of(field.view()) is Some,
        ensures
            final(self).view() == SExprView::List(
                without_tag(items_of(old(self).view()), tag_of(field.view())).push(field.view()),
            ),
    {
        let tag: Vec<char> = match field.tag() {
            Some(t) => chars_of(t),
            None => Vec::new(),
        };
        let tag_text = string_of(tag.as_slice());
        let items = self.items_mut();
        Self::retain_untagged(items, Some(tag_text.as_str()));
        proof {
            lemma_view_items_push(items@, field);
        }
        items.push(field);
    }

    /// Removes the items of a list tagged `name`.
    pub fn remove(&mut self, name: &str)
        requires
            *old(self) is List,
        ensures
            final(self).view() == SExprView::List(without_tag(items_of(old(self).view()), Some(name@))),
    {
        let items = self.items_mut();
        Self::retain_untagged(items, Some(name));
    }

    /// Removes, at every depth, the list items tagged `name`.
    pub fn remove_recursive(&mut self, name: &str)
        ensures
            final(self).view() == remove_deep(old(self).view(), name@),
    {
        let mut taken = SExpr::List(Vec::new());
        std::mem::swap(self, &mut taken);
        let mut result = remove_deep_owned(taken, name);
        std::mem::swap(self, &mut result);
    }
}

impl SExpr {
    /// A copy of the expression with the same value.
    pub fn duplicate(&self) -> (r: SExpr)
        ensures
            r.view() == self.view(),
        decreases self,
    {
        match self {
            SExpr::Atom(v) => SExpr::Atom(string_of(chars_of(v.as_str()).as_slice())),
            SExpr::String(v) => SExpr::String(string_of(chars_of(v.as_str()).as_slice())),
            SExpr::List(v) => {
                let mut items: Vec<SExpr> = Vec::new();
                let mut k: usize = 0;
                while k < v.len()
                    invariant
                        *self == SExpr::List(*v),
                        k <= v@.len(),
                        view_items(items@) == view_items(v@.take(k as int)),
                    decreases v@.len() - k,
                {
                    proof {
                        let ghost w = self->List_0;
                        assert(w == *v);
                        assert(decreases_to!(*self => w));
                        assert(decreases_to!(w => w@));
                        assert(decreases_to!(w@ => w@[k as int]));
                    }
                    let c = v[k].duplicate();
                    proof {
                        lemma_view_items_push(items@, c);
                        lemma_view_items_push(v@.take(k as int), v@[k as int]);
                        assert(v@.take(k + 1) =~= v@.take(k as int).push(v@[k as int]));
                    }
                    items.push(c);
                    k = k + 1;
                }
                proof {
                    assert(v@.take(v@.len() as int) =~= v@);
                }
                SExpr::List(items)
            },
        }
    }
}

impl Clone for SExpr {
    fn clone(&self) -> (r: Self)
        ensures
            r.view() == self.view(),
    {
        self.duplicate()
    }
}

fn remove_deep_owned(e: SExpr, name: &str) -> (r: SExpr)
    ensures
        r.view() == remove_deep(e.view(), name@),
    decreases e,
{
    let ghost e0 = e;
    match e {
        SExpr::List(v) => {
            let ghost original = v@;
            let ghost gv = v;
            let mut source = v;
            let mut pending = drain_in_order(&mut source);
            let mut items: Vec<SExpr> = Vec::new();
            let n = pending.len();
            let mut k: usize = 0;
            proof {
                assert(view_items(items@) =~= Seq::<SExprView>::empty());
                assert(original.take(0) =~= Seq::<SExpr>::empty());
                assert(view_items(original.take(0)) =~= Seq::<SExprView>::empty());
            }
            while k < n
                invariant
                    n == original.len(),
                    e0 == e,
                    e0 == SExpr::List(gv),
                    original == gv@,
                    k <= n,
                    pending@.len() == n - k,
                    forall|j: int| 0 <= j < n - k ==> pending@[j] == original[n - 1 - j],
                    view_items(items@) == remove_deep_items(
                        view_items(original.take(k as int)),
                        name@,
                    ),
                decreases n - k,
            {
                let item = pending.pop().unwrap();
                proof {
                    assert(item == original[k as int]);
                    assert(original.take(k + 1) =~= original.take(k as int).push(item));
                    lemma_view_items_push(original.take(k as int), item);
                    assert(view_items(original.take(k as int)).push(item.view()).drop_last()
                        =~= view_items(original.take(k as int)));
                }
                if !item.has_tag(name) {
                    proof {
                        assert(decreases_to!(e0 => e0->List_0));
                        assert(decreases_to!(gv => gv@));
                        assert(decreases_to!(gv@ => gv@[k as int]));
                        assert(decreases_to!(e0 => item));
                    }
                    let cleaned = remove_deep_owned(item, name);
                    proof {
                        lemma_view_items_push(items@, cleaned);
                    }
                    items.push(cleaned);
                }
                k = k + 1;
            }
            proof {
                assert(original.take(n as int) =~= original);
            }
            SExpr::List(items)
        },
        other => other,
    }
}

pub proof fn lemma_first_tagged_prefix(items: Seq<SExprView>, name: Seq<char>, n: int)
    requires
        0 < n <= items.len(),
        first_tagged(items.take(n - 1), name) is None,
        tag_of(items[n - 1]) == Some(name),
    ensures
        first_tagged(items, name) == Some(n - 1),
    decreases items.len(),
{
    assert(items.take(n).drop_last() =~= items.take(n - 1));
    if n < items.len() {
        assert(items.drop_last().take(n) =~= items.take(n));
        assert(items.drop_last().take(n - 1) =~= items.take(n - 1));
        lemma_first_tagged_prefix(items.drop_last(), name, n);
    } else {
        assert(items.take(n) =~= items);
    }
}


// ---------------------------------------------------------------------------
// Laws
// ---------------------------------------------------------------------------

/// Whether an atom's text reads back as that atom: non-empty, without white
/// space or parentheses, and not starting with a quote.
pub open spec fn wf_atom(v: Seq<char>) -> bool {
    &&& v.len() > 0
    &&& v[0] != '"'
    &&& forall|k: int| 0 <= k < v.len() ==> !atom_stop(#[trigger] v[k])
}

/// Whether every atom inside `e` reads back as itself.
pub open spec fn wf(e: SExprView) -> bool
    decreases e,
{
    match e {
        SExprView::Atom(v) => wf_atom(v),
        SExprView::Str(_) => true,
        SExprView::List(items) => wf_items(items),
    }
}

pub open spec fn wf_items(items: Seq<SExprView>) -> bool
    decreases items,
{
    if items.len() == 0 {
        true
    } else {
        wf_items(items.drop_last()) && wf(items.last())
    }
}

proof fn lemma_wf_items_index(items: Seq<SExprView>, i: int)
    requires
        wf_items(items),
        0 <= i < items.len(),
    ensures
        wf(items[i]),
    decreases items.len(),
{
    if i < items.len() - 1 {
        lemma_wf_items_index(items.drop_last(), i);
    }
}

proof fn lemma_wf_items_drop_first(items: Seq<SExprView>)
    requires
        wf_items(items),
        items.len() > 0,
    ensures
        wf_items(items.drop_first()),
    decreases items.len(),
{
    if items.len() > 1 {
        lemma_wf_items_drop_first(items.drop_last());
        assert(items.drop_first().drop_last() =~= items.drop_last().drop_first());
        assert(items.drop_first().last() == items.last());
    } else {
        assert(items.drop_first() =~= Seq::<SExprView>::empty());
    }
}

proof fn lemma_escape_text_front(v: Seq<char>)
    requires
        v.len() > 0,
    ensures
        escape_text(v) == escape_char(v[0]) + escape_text(v.drop_first()),
    decreases v.len(),
{
    if v.len() == 1 {
        assert(v.drop_last() =~= Seq::<char>::empty());
        assert(v.drop_first() =~= Seq::<char>::empty());
        assert(escape_text(v.drop_last()) =~= Seq::<char>::empty());
        assert(v.last() == v[0]);
        assert(escape_text(v) =~= escape_char(v[0]));
        assert(escape_char(v[0]) + escape_text(v.drop_first()) =~= escape_char(v[0]));
    } else {
        lemma_escape_text_front(v.drop_last());
        assert(v.drop_last().drop_first() =~= v.drop_first().drop_last());
        assert(v.drop_first().last() == v.last());
        assert(escape_text(v) =~= escape_char(v[0]) + escape_text(v.drop_first()));
    }
}

proof fn lemma_text_items_front(items: Seq<SExprView>)
    requires
        items.len() > 1,
    ensures
        text_items(items) == text(items[0]) + seq![' '] + text_items(items.drop_first()),
    decreases items.len(),
{
    if items.len() == 2 {
        assert(items.drop_last() =~= seq![items[0]]);
        assert(items.drop_first() =~= seq![items[1]]);
        assert(items.drop_last().len() == 1 && items.drop_last()[0] == items[0]);
        assert(text_items(items.drop_last()) == text(items[0]));
        assert(text_items(items.drop_first()) == text(items[1]));
        assert(text_items(items) =~= text(items[0]) + seq![' '] + text(items[1]));
    } else {
        lemma_text_items_front(items.drop_last());
        assert(items.drop_last().drop_first() =~= items.drop_first().drop_last());
        assert(items.drop_first().last() == items.last());
        assert(items.drop_first().len() > 1);
        assert(text_items(items) =~= text(items[0]) + seq![' '] + text_items(items.drop_first()));
    }
}

/// The text of a well-formed S-expression is non-empty and starts with a
/// character that is neither white space nor a closing parenthesis.
proof fn lemma_text_start(e: SExprView)
    requires
        wf(e),
    ensures
        text(e).len() > 0,
        !is_ws(text(e)[0]),
        text(e)[0] != ')',
        e is Atom ==> text(e)[0] != '(' && text(e)[0] != '"',
{
    match e {
        SExprView::Atom(v) => {
            assert(!atom_stop(v[0]));
        },
        SExprView::Str(v) => {},
        SExprView::List(items) => {},
    }
}

proof fn lemma_skip_ws_run(s: Seq<char>, p: int, q: int)
    requires
        0 <= p <= q <= s.len(),
        forall|k: int| p <= k < q ==> is_ws(s[k]),
    ensures
        skip_ws(s, p) == skip_ws(s, q),
    decreases q - p,
{
    if p < q {
        lemma_skip_ws_run(s, p + 1, q);
    }
}

proof fn lemma_atom_end_run(s: Seq<char>, p: int, q: int)
    requires
        0 <= p <= q <= s.len(),
        forall|k: int| p <= k < q ==> !atom_stop(s[k]),
        q == s.len() || atom_stop(s[q]),
    ensures
        atom_end(s, p) == q,
    decreases q - p,
{
    if p < q {
        lemma_atom_end_run(s, p + 1, q);
    }
}

proof fn lemma_read_string_text(s: Seq<char>, p: int, v: Seq<char>, acc: Seq<char>)
    requires
        0 <= p,
        p + escape_text(v).len() < s.len(),
        s.subrange(p, p + escape_text(v).len()) == escape_text(v),
        s[p + escape_text(v).len()] == '"',
    ensures
        read_string(s, p, acc) == Ok::<(Seq<char>, int), Seq<char>>(
            (acc + v, p + escape_text(v).len() + 1),
        ),
    decreases v.len(),
{
    if v.len() == 0 {
        assert(acc + v =~= acc);
    } else {
        lemma_escape_text_front(v);
        let c = v[0];
        let w = escape_char(c);
        let rest = v.drop_first();
        let n = escape_text(v).len();
        assert(s.subrange(p, p + w.len()) =~= w) by {
            assert forall|k: int| 0 <= k < w.len() implies s[p + k] == w[k] by {
                assert(s.subrange(p, p + n)[k] == escape_text(v)[k]);
            }
        }
        assert(s.subrange(p + w.len(), p + w.len() + escape_text(rest).len()) =~= escape_text(
            rest,
        )) by {
            assert forall|k: int| 0 <= k < escape_text(rest).len() implies s[p + w.len() + k]
                == escape_text(rest)[k] by {
                assert(s.subrange(p, p + n)[w.len() + k] == escape_text(v)[w.len() + k]);
            }
        }
        assert(s[p] == w[0]);
        if c == '\\' || c == '"' || c == '\n' || c == '\r' || c == '\t' {
            assert(s[p + 1] == w[1]);
            assert(unescape(s[p + 1]) == c);
            lemma_read_string_text(s, p + 2, rest, acc.push(c));
        } else {
            lemma_read_string_text(s, p + 1, rest, acc.push(c));
        }
        assert(acc.push(c) + rest =~= acc + v);
    }
}

/// Reading the text of a well-formed S-expression gives it back.
proof fn lemma_read_text(s: Seq<char>, p: int, e: SExprView)
    requires
        wf(e),
        0 <= p,
        p + text(e).len() <= s.len(),
        s.subrange(p, p + text(e).len()) == text(e),
        e is Atom ==> p + text(e).len() == s.len() || atom_stop(s[p + text(e).len()]),
    ensures
        read(s, p) == Ok::<(SExprView, int), Seq<char>>((e, p + text(e).len())),
    decreases e, 0int,
{
    lemma_text_start(e);
    let t = text(e);
    assert(s[p] == t[0]) by {
        assert(s.subrange(p, p + t.len())[0] == t[0]);
    }
    lemma_skip_ws(s, p);
    match e {
        SExprView::Atom(v) => {
            assert forall|k: int| p + 1 <= k < p + v.len() implies !atom_stop(s[k]) by {
                assert(s.subrange(p, p + t.len())[k - p] == v[k - p]);
            }
            lemma_atom_end_run(s, p + 1, p + v.len());
            assert(s.subrange(p, p + v.len()) =~= v);
        },
        SExprView::Str(v) => {
            let n = escape_text(v).len() as int;
            assert(t =~= seq!['"'] + escape_text(v) + seq!['"']);
            assert(s.subrange(p + 1, p + 1 + n) =~= escape_text(v)) by {
                assert forall|k: int| 0 <= k < n implies s[p + 1 + k] == escape_text(v)[k] by {
                    assert(s.subrange(p, p + t.len())[1 + k] == t[1 + k]);
                }
            }
            assert(s[p + 1 + n] == '"') by {
                assert(s.subrange(p, p + t.len())[1 + n as int] == t[1 + n as int]);
            }
            lemma_read_string_text(s, p + 1, v, Seq::empty());
            assert(Seq::<char>::empty() + v =~= v);
        },
        SExprView::List(items) => {
            let n = text_items(items).len() as int;
            assert(t =~= seq!['('] + text_items(items) + seq![')']);
            assert(s.subrange(p + 1, p + 1 + n) =~= text_items(items)) by {
                assert forall|k: int| 0 <= k < n implies s[p + 1 + k] == text_items(items)[k] by {
                    assert(s.subrange(p, p + t.len())[1 + k] == t[1 + k]);
                }
            }
            assert(s[p + 1 + n] == ')') by {
                assert(s.subrange(p, p + t.len())[1 + n as int] == t[1 + n as int]);
            }
            lemma_read_items_text(s, p + 1, p + 1, items, Seq::empty());
            assert(Seq::<SExprView>::empty() + items =~= items);
        },
    }
}

/// Reading the texts of well-formed items followed by `)` gives them back.
proof fn lemma_read_items_text(
    s: Seq<char>,
    p: int,
    q: int,
    items: Seq<SExprView>,
    acc: Seq<SExprView>,
)
    requires
        wf_items(items),
        0 <= p <= q,
        forall|k: int| p <= k < q ==> is_ws(s[k]),
        q + text_items(items).len() < s.len(),
        s.subrange(q, q + text_items(items).len()) == text_items(items),
        s[q + text_items(items).len()] == ')',
    ensures
        read_items(s, p, acc) == Ok::<(SExprView, int), Seq<char>>(
            (SExprView::List(acc + items), q + text_items(items).len() + 1),
        ),
    decreases items, 1int,
{
    lemma_skip_ws_run(s, p, q);
    lemma_skip_ws(s, q);
    if items.len() == 0 {
        assert(acc + items =~= acc);
    } else {
        let first = items[0];
        lemma_wf_items_index(items, 0);
        lemma_text_start(first);
        let tf = text(first);
        let n = text_items(items).len();
        if items.len() == 1 {
            assert(text_items(items) == tf);
        } else {
            lemma_text_items_front(items);
        }
        assert(s.subrange(q, q + tf.len()) =~= tf) by {
            assert forall|k: int| 0 <= k < tf.len() implies s[q + k] == tf[k] by {
                assert(s.subrange(q, q + n)[k] == text_items(items)[k]);
            }
        }
        assert(s[q] == tf[0]);
        let k = q + tf.len();
        if items.len() == 1 {
            assert(s[k] == ')');
        } else {
            assert(s[k] == ' ') by {
                assert(s.subrange(q, q + n)[tf.len() as int] == text_items(items)[tf.len() as int]);
            }
        }
        lemma_read_text(s, q, first);
        assert(skip_ws(s, p) == q);
        assert(read(s, q) == Ok::<(SExprView, int), Seq<char>>((first, k)));
        if items.len() == 1 {
            lemma_skip_ws(s, k);
            assert(acc.push(first) =~= acc + items);
        } else {
            let rest = items.drop_first();
            lemma_wf_items_drop_first(items);
            let nr = text_items(rest).len();
            assert(s.subrange(k + 1, k + 1 + nr) =~= text_items(rest)) by {
                assert forall|j: int| 0 <= j < nr implies s[k + 1 + j] == text_items(rest)[j] by {
                    assert(s.subrange(q, q + n)[tf.len() + 1 + j] == text_items(items)[tf.len()
                        + 1 + j]);
                }
            }
            lemma_read_items_text(s, k, k + 1, rest, acc.push(first));
            assert(acc.push(first) + rest =~= acc + items);
        }
    }
}

/// Printing a well-formed S-expression and parsing the text gives the same
/// S-expression back.
pub proof fn lemma_parse_text_roundtrip(e: SExprView)
    requires
        wf(e),
    ensures
        parse_spec(text(e)) == Ok::<SExprView, Seq<char>>(e),
{
    let s = text(e);
    assert(s.subrange(0, s.len() as int) =~= s);
    lemma_read_text(s, 0, e);
    lemma_skip_ws(s, s.len() as int);
}

/// After `set(field)`, looking up the field's tag finds that field.
pub proof fn lemma_set_then_field(items: Seq<SExprView>, field: SExprView)
    requires
        tag_of(field) is Some,
    ensures
        ({
            let updated = without_tag(items, tag_of(field)).push(field);
            first_tagged(updated, tag_of(field)->0) == Some((updated.len() - 1) as int)
        }),
{
    let name = tag_of(field)->0;
    let kept = without_tag(items, tag_of(field));
    lemma_without_tag_untagged(items, tag_of(field));
    lemma_first_tagged_none(kept, name);
    assert(kept.push(field).drop_last() =~= kept);
}

/// After `remove(name)`, no item is tagged `name`.
pub proof fn lemma_remove_then_field(items: Seq<SExprView>, name: Seq<char>)
    ensures
        first_tagged(without_tag(items, Some(name)), name) is None,
{
    lemma_without_tag_untagged(items, Some(name));
    lemma_first_tagged_none(without_tag(items, Some(name)), name);
}

proof fn lemma_without_tag_untagged(items: Seq<SExprView>, tag: Option<Seq<char>>)
    ensures
        forall|k: int|
            0 <= k < without_tag(items, tag).len() ==> tag_of(
                #[trigger] without_tag(items, tag)[k],
            ) != tag,
    decreases items.len(),
{
    if items.len() > 0 {
        lemma_without_tag_untagged(items.drop_last(), tag);
    }
}

proof fn lemma_first_tagged_none(items: Seq<SExprView>, name: Seq<char>)
    requires
        forall|k: int| 0 <= k < items.len() ==> tag_of(#[trigger] items[k]) != Some(name),
    ensures
        first_tagged(items, name) is None,
    decreases items.len(),
{
    if items.len() > 0 {
        lemma_first_tagged_none(items.drop_last(), name);
    }
}

} // verus!
