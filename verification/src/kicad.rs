//! KiCad export text processing: reference prefixes, identifiers, escaping,
//! copper layer names, and symbol-library definitions (finding, inheriting,
//! renaming and selecting unit-one pins).
use vstd::prelude::*;
use crate::circuit::{component_wf, CircuitDesign, Component};
use crate::sexpr::{
    drain_in_order, items_of, parse_spec, tag_of, text, text_of, value_of, SExpr, SExprView,
    view_items, lemma_view_items_len, lemma_view_items_index, lemma_view_items_push,
};
use crate::text::{
    after_last, after_last_chars, chars_eq, chars_of, decimal, decimal_chars, find_chars,
    find_from, hex, hex_chars, index_of_from, is_digit, is_ascii_digit, lemma_find_from, push_all,
    replace_all, replace_all_chars, replace_first, replace_first_chars, scan_to, slice_chars,
    string_of, upper, to_ascii_uppercase, words_from, split_whitespace_chars, occurs_at,
    strings_view, str_eq,
};

verus! {

// ---------------------------------------------------------------------------
// Small text helpers for export
// ---------------------------------------------------------------------------

/// The reference prefix guessed from a symbol's library identifier: the
/// upper-cased first letter of the entry name when it is one of R, C, L, D,
/// V, I, J, and `U` otherwise.
pub open spec fn reference_prefix_spec(symbol: Seq<char>) -> Seq<char> {
    let name = after_last(symbol, ':');
    let c = if name.len() == 0 {
        'U'
    } else {
        upper(name[0])
    };
    if c == 'R' || c == 'C' || c == 'L' || c == 'D' || c == 'V' || c == 'I' || c == 'J' {
        seq![c]
    } else {
        seq!['U']
    }
}

pub fn reference_prefix(symbol: &str) -> (r: String)
    ensures
        r@ == reference_prefix_spec(symbol@),
{
    let s = chars_of(symbol);
    let name = after_last_chars(s.as_slice(), ':');
    let c = if name.len() == 0 {
        'U'
    } else {
        to_ascii_uppercase(name[0])
    };
    let mut out: Vec<char> = Vec::new();
    if c == 'R' || c == 'C' || c == 'L' || c == 'D' || c == 'V' || c == 'I' || c == 'J' {
        out.push(c);
    } else {
        out.push('U');
    }
    assert(out@ =~= reference_prefix_spec(symbol@));
    string_of(out.as_slice())
}

/// The deterministic identifier of item `item` of component `component`.
pub open spec fn uuid_spec(component: nat, item: nat) -> Seq<char> {
    "00000000-0000-4000-8000-"@ + hex(component, 6) + hex(item, 6)
}

pub fn uuid(component: usize, item: usize) -> (r: String)
    ensures
        r@ == uuid_spec(component as nat, item as nat),
{
    let mut out = chars_of("00000000-0000-4000-8000-");
    let a = hex_chars(component, 6);
    let b = hex_chars(item, 6);
    push_all(&mut out, a.as_slice());
    push_all(&mut out, b.as_slice());
    string_of(out.as_slice())
}

/// How one character is written inside a KiCad quoted string.
pub open spec fn esc_char(c: char) -> Seq<char> {
    if c == '\\' {
        seq!['\\', '\\']
    } else if c == '"' {
        seq!['\\', '"']
    } else if c == '\n' {
        seq![' ']
    } else {
        seq![c]
    }
}

pub open spec fn esc_spec(v: Seq<char>) -> Seq<char>
    decreases v.len(),
{
    if v.len() == 0 {
        Seq::empty()
    } else {
        esc_spec(v.drop_last()) + esc_char(v.last())
    }
}

/// Escapes backslashes and quotes and flattens newlines to spaces.
pub fn esc(value: &str) -> (r: String)
    ensures
        r@ == esc_spec(value@),
{
    let s = chars_of(value);
    let mut out: Vec<char> = Vec::new();
    let mut i: usize = 0;
    while i < s.len()
        invariant
            i <= s@.len(),
            out@ == esc_spec(s@.take(i as int)),
        decreases s@.len() - i,
    {
        let c = s[i];
        if c == '\\' {
            out.push('\\');
            out.push('\\');
        } else if c == '"' {
            out.push('\\');
            out.push('"');
        } else if c == '\n' {
            out.push(' ');
        } else {
            out.push(c);
        }
        proof {
            assert(s@.take(i + 1).drop_last() =~= s@.take(i as int));
        }
        i = i + 1;
        assert(out@ =~= esc_spec(s@.take(i as int)));
    }
    assert(s@.take(s@.len() as int) =~= s@);
    string_of(out.as_slice())
}

/// The KiCad copper layer of index `layer` in a stack of `count` layers.
pub open spec fn copper_layer_spec(layer: nat, count: nat) -> Seq<char> {
    if layer == 0 || count == 1 {
        seq!['F', '.', 'C', 'u']
    } else if layer + 1 >= count {
        seq!['B', '.', 'C', 'u']
    } else {
        seq!['I', 'n'] + decimal(layer) + seq!['.', 'C', 'u']
    }
}

pub fn copper_layer_name(layer: usize, count: usize) -> (r: String)
    requires
        layer < usize::MAX,
    ensures
        r@ == copper_layer_spec(layer as nat, count as nat),
{
    let mut out: Vec<char> = Vec::new();
    if layer == 0 || count == 1 {
        out.push('F');
    } else if layer + 1 >= count {
        out.push('B');
    } else {
        out.push('I');
        out.push('n');
        let d = decimal_chars(layer);
        push_all(&mut out, d.as_slice());
    }
    out.push('.');
    out.push('C');
    out.push('u');
    assert(out@ =~= copper_layer_spec(layer as nat, count as nat));
    string_of(out.as_slice())
}

// ---------------------------------------------------------------------------
// Symbol library definitions
// ---------------------------------------------------------------------------

/// The scanning state after reading `s` from the start of a library file:
/// parenthesis depth, whether inside a quoted string, and whether the last
/// character was an escaping backslash inside one.
pub open spec fn depth_state(s: Seq<char>) -> (int, bool, bool)
    decreases s.len(),
{
    if s.len() == 0 {
        (0, false, false)
    } else {
        let (d, q, e) = depth_state(s.drop_last());
        let c = s.last();
        if q {
            if e {
                (d, true, false)
            } else if c == '\\' {
                (d, true, true)
            } else if c == '"' {
                (d, false, false)
            } else {
                (d, true, false)
            }
        } else if c == '"' {
            (d, true, false)
        } else if c == '(' {
            (d + 1, false, false)
        } else if c == ')' {
            (d - 1, false, false)
        } else {
            (d, false, false)
        }
    }
}

pub open spec fn depth_spec(s: Seq<char>) -> int {
    depth_state(s).0
}

proof fn lemma_depth_bound(s: Seq<char>)
    ensures
        -s.len() <= depth_state(s).0 <= s.len(),
        !depth_state(s).1 ==> !depth_state(s).2,
    decreases s.len(),
{
    if s.len() > 0 {
        lemma_depth_bound(s.drop_last());
    }
}

fn depth_chars(s: &[char]) -> (r: isize)
    requires
        s@.len() <= isize::MAX,
    ensures
        r == depth_spec(s@),
{
    let mut depth: isize = 0;
    let mut quoted = false;
    let mut escaped = false;
    let mut i: usize = 0;
    while i < s.len()
        invariant
            i <= s@.len() <= isize::MAX,
            (depth as int, quoted, escaped) == depth_state(s@.take(i as int)),
        decreases s@.len() - i,
    {
        proof {
            assert(s@.take(i + 1).drop_last() =~= s@.take(i as int));
            lemma_depth_bound(s@.take(i as int));
        }
        let c = s[i];
        if quoted {
            if escaped {
                escaped = false;
            } else if c == '\\' {
                escaped = true;
            } else if c == '"' {
                quoted = false;
            }
        } else if c == '"' {
            quoted = true;
        } else if c == '(' {
            depth = depth + 1;
        } else if c == ')' {
            depth = depth - 1;
        }
        i = i + 1;
    }
    assert(s@.take(s@.len() as int) =~= s@);
    depth
}

/// The parenthesis depth at the end of `source`, ignoring parentheses inside
/// quoted strings.
pub fn expression_depth(source: &str) -> (r: isize)
    requires
        source@.len() <= isize::MAX,
    ensures
        r == depth_spec(source@),
{
    let s = chars_of(source);
    depth_chars(s.as_slice())
}

/// The outcome of scanning for the end of a balanced expression.
pub enum Scan {
    /// The expression ends just before this index.
    Found(int),
    /// The text ends first.
    Missing,
    /// A closing parenthesis appears at depth zero.
    Underflow,
}

/// Scans from index `i` at depth `d` (with the quote state `q`, `e`) for the
/// closing parenthesis that brings the depth back to zero.
pub open spec fn balanced_scan(s: Seq<char>, i: int, d: int, q: bool, e: bool) -> Scan
    decreases s.len() - i,
{
    if i < 0 || i >= s.len() {
        Scan::Missing
    } else {
        let c = s[i];
        if q {
            if e {
                balanced_scan(s, i + 1, d, true, false)
            } else if c == '\\' {
                balanced_scan(s, i + 1, d, true, true)
            } else if c == '"' {
                balanced_scan(s, i + 1, d, false, false)
            } else {
                balanced_scan(s, i + 1, d, true, false)
            }
        } else if c == '"' {
            balanced_scan(s, i + 1, d, true, false)
        } else if c == '(' {
            balanced_scan(s, i + 1, d + 1, false, false)
        } else if c == ')' {
            if d == 0 {
                Scan::Underflow
            } else if d == 1 {
                Scan::Found(i + 1)
            } else {
                balanced_scan(s, i + 1, d - 1, false, false)
            }
        } else {
            balanced_scan(s, i + 1, d, false, false)
        }
    }
}

proof fn lemma_balanced_scan(s: Seq<char>, i: int, d: int, q: bool, e: bool)
    requires
        0 <= i,
        d >= 1,
    ensures
        !(balanced_scan(s, i, d, q, e) is Underflow),
        balanced_scan(s, i, d, q, e) matches Scan::Found(k) ==> i < k <= s.len(),
    decreases s.len() - i,
{
    if i < s.len() {
        let c = s[i];
        if q {
            if e {
                lemma_balanced_scan(s, i + 1, d, true, false);
            } else if c == '\\' {
                lemma_balanced_scan(s, i + 1, d, true, true);
            } else if c == '"' {
                lemma_balanced_scan(s, i + 1, d, false, false);
            } else {
                lemma_balanced_scan(s, i + 1, d, true, false);
            }
        } else if c == '"' {
            lemma_balanced_scan(s, i + 1, d, true, false);
        } else if c == '(' {
            lemma_balanced_scan(s, i + 1, d + 1, false, false);
        } else if c == ')' {
            if d > 1 {
                lemma_balanced_scan(s, i + 1, d - 1, false, false);
            }
        } else {
            lemma_balanced_scan(s, i + 1, d, false, false);
        }
    }
}

proof fn lemma_balanced_scan_found(s: Seq<char>, i: int, d: int, q: bool, e: bool)
    requires
        0 <= i,
        d >= 0,
    ensures
        balanced_scan(s, i, d, q, e) matches Scan::Found(k) ==> i < k <= s.len(),
    decreases s.len() - i,
{
    if i < s.len() {
        let c = s[i];
        if q {
            if e {
                lemma_balanced_scan_found(s, i + 1, d, true, false);
            } else if c == '\\' {
                lemma_balanced_scan_found(s, i + 1, d, true, true);
            } else if c == '"' {
                lemma_balanced_scan_found(s, i + 1, d, false, false);
            } else {
                lemma_balanced_scan_found(s, i + 1, d, true, false);
            }
        } else if c == '"' {
            lemma_balanced_scan_found(s, i + 1, d, true, false);
        } else if c == '(' {
            lemma_balanced_scan_found(s, i + 1, d + 1, false, false);
        } else if c == ')' {
            if d > 1 {
                lemma_balanced_scan_found(s, i + 1, d - 1, false, false);
            }
        } else {
            lemma_balanced_scan_found(s, i + 1, d, false, false);
        }
    }
}

/// The end of the balanced expression starting at `start`.
fn balanced_end(s: &[char], start: usize) -> (r: Option<usize>)
    requires
        start <= s@.len(),
        !(balanced_scan(s@, start as int, 0, false, false) is Underflow),
    ensures
        match balanced_scan(s@, start as int, 0, false, false) {
            Scan::Found(k) => r == Some(k as usize) && start < k <= s@.len(),
            _ => r is None,
        },
{
    proof {
        lemma_balanced_scan_found(s@, start as int, 0, false, false);
    }
    let mut depth: usize = 0;
    let mut quoted = false;
    let mut escaped = false;
    let mut i = start;
    while i < s.len()
        invariant
            start <= i <= s@.len(),
            depth <= i - start,
            !quoted ==> !escaped,
            !(balanced_scan(s@, start as int, 0, false, false) is Underflow),
            balanced_scan(s@, i as int, depth as int, quoted, escaped) == balanced_scan(
                s@,
                start as int,
                0,
                false,
                false,
            ),
        decreases s@.len() - i,
    {
        let c = s[i];
        if quoted {
            if escaped {
                escaped = false;
            } else if c == '\\' {
                escaped = true;
            } else if c == '"' {
                quoted = false;
            }
        } else if c == '"' {
            quoted = true;
        } else if c == '(' {
            depth = depth + 1;
        } else if c == ')' {
            if depth == 1 {
                return Some(i + 1);
            }
            depth = depth - 1;
        }
        i = i + 1;
    }
    None
}

/// The balanced parenthesised expression starting at character index
/// `start`, if the text closes it.
pub open spec fn balanced_spec(s: Seq<char>, start: int) -> Option<Seq<char>> {
    match balanced_scan(s, start, 0, false, false) {
        Scan::Found(k) => Some(s.subrange(start, k)),
        _ => None,
    }
}

/// The balanced expression of `source` starting at character index `start`.
/// The scan must not meet a closing parenthesis before any opening one.
pub fn balanced_expression(source: &str, start: usize) -> (r: Option<String>)
    requires
        start <= source@.len(),
        !(balanced_scan(source@, start as int, 0, false, false) is Underflow),
    ensures
        match r {
            Some(t) => balanced_spec(source@, start as int) == Some(t@),
            None => balanced_spec(source@, start as int) is None,
        },
{
    let s = chars_of(source);
    match balanced_end(s.as_slice(), start) {
        Some(k) => {
            let t = slice_chars(s.as_slice(), start, k);
            Some(string_of(t.as_slice()))
        },
        None => None,
    }
}

/// `(symbol "` followed by `name` and a quote.
pub open spec fn symbol_needle(name: Seq<char>) -> Seq<char> {
    seq!['(', 's', 'y', 'm', 'b', 'o', 'l', ' ', '"'] + name + seq!['"']
}

fn symbol_needle_chars(name: &[char]) -> (r: Vec<char>)
    ensures
        r@ == symbol_needle(name@),
{
    let mut out: Vec<char> = Vec::new();
    out.push('(');
    out.push('s');
    out.push('y');
    out.push('m');
    out.push('b');
    out.push('o');
    out.push('l');
    out.push(' ');
    out.push('"');
    push_all(&mut out, name);
    out.push('"');
    assert(out@ =~= symbol_needle(name@));
    out
}

/// The first occurrence of `needle` at or after `from` (in left-to-right,
/// non-overlapping order) that stands at depth one.
pub open spec fn top_level_from(s: Seq<char>, needle: Seq<char>, from: int) -> Option<int>
    decreases s.len() + 1 - from,
{
    match find_from(s, needle, from) {
        None => None,
        Some(p) => if depth_spec(s.take(p)) == 1 {
            Some(p)
        } else if p + needle.len() <= from || from < 0 || needle.len() == 0 || p + needle.len()
            > s.len() {
            None
        } else {
            top_level_from(s, needle, p + needle.len())
        },
    }
}

/// The top-level definition of symbol `name` in a library text.
pub open spec fn find_definition_spec(s: Seq<char>, name: Seq<char>) -> Option<Seq<char>> {
    match top_level_from(s, symbol_needle(name), 0) {
        None => None,
        Some(p) => balanced_spec(s, p),
    }
}

fn top_level_chars(s: &[char], needle: &[char]) -> (r: Option<usize>)
    requires
        s@.len() <= isize::MAX,
        needle@.len() > 0,
    ensures
        match r {
            Some(p) => top_level_from(s@, needle@, 0) == Some(p as int) && occurs_at(
                s@,
                p as int,
                needle@,
            ),
            None => top_level_from(s@, needle@, 0) is None,
        },
{
    let mut from: usize = 0;
    loop
        invariant
            s@.len() <= isize::MAX,
            needle@.len() > 0,
            from <= s@.len() + 1,
            top_level_from(s@, needle@, from as int) == top_level_from(s@, needle@, 0),
        decreases s@.len() + 1 - from,
    {
        proof {
            lemma_find_from(s@, needle@, from as int);
        }
        match find_chars(s, needle, from) {
            None => {
                return None;
            },
            Some(p) => {
                let prefix = slice_chars(s, 0, p);
                assert(prefix@ =~= s@.take(p as int));
                if depth_chars(prefix.as_slice()) == 1 {
                    return Some(p);
                }
                from = p + needle.len();
            },
        }
    }
}

/// The text of the top-level definition of symbol `name` in a library text.
pub fn find_definition(source: &str, name: &str) -> (r: Option<String>)
    requires
        source@.len() <= isize::MAX,
    ensures
        match r {
            Some(t) => find_definition_spec(source@, name@) == Some(t@),
            None => find_definition_spec(source@, name@) is None,
        },
{
    let s = chars_of(source);
    let n = chars_of(name);
    let needle = symbol_needle_chars(n.as_slice());
    match top_level_chars(s.as_slice(), needle.as_slice()) {
        None => None,
        Some(p) => {
            proof {
                assert(s@[p as int] == needle@[0]) by {
                    assert(s@.subrange(p as int, p + needle@.len())[0] == needle@[0]);
                }
                lemma_balanced_scan(s@, p + 1, 1, false, false);
                assert(balanced_scan(s@, p as int, 0, false, false) == balanced_scan(
                    s@,
                    p + 1,
                    1,
                    false,
                    false,
                ));
            }
            match balanced_end(s.as_slice(), p) {
                Some(k) => {
                    let t = slice_chars(s.as_slice(), p, k);
                    Some(string_of(t.as_slice()))
                },
                None => None,
            }
        },
    }
}

/// The name a definition opens with: the text after `(symbol "` up to the
/// next quote (or the end).
pub open spec fn opening_name_spec(d: Seq<char>) -> Option<Seq<char>> {
    let prefix = seq!['(', 's', 'y', 'm', 'b', 'o', 'l', ' ', '"'];
    if d.len() >= 9 && d.take(9) == prefix {
        Some(d.subrange(9, index_of_from(d, '"', 9)))
    } else {
        None
    }
}

pub fn opening_name(definition: &str) -> (r: Option<String>)
    ensures
        match r {
            Some(t) => opening_name_spec(definition@) == Some(t@),
            None => opening_name_spec(definition@) is None,
        },
{
    let d = chars_of(definition);
    let prefix = ['(', 's', 'y', 'm', 'b', 'o', 'l', ' ', '"'];
    assert(prefix@ =~= seq!['(', 's', 'y', 'm', 'b', 'o', 'l', ' ', '"']);
    if d.len() >= 9 && crate::text::matches_at(d.as_slice(), 0, &prefix) {
        assert(d@.subrange(0, 9) =~= d@.take(9));
        let e = scan_to(d.as_slice(), '"', 9);
        let t = slice_chars(d.as_slice(), 9, e);
        Some(string_of(t.as_slice()))
    } else {
        proof {
            if d@.len() >= 9 {
                assert(d@.subrange(0, 9) =~= d@.take(9));
            }
        }
        None
    }
}

/// A definition renamed from `old` to `new`: its opening name, and the
/// `"old_` prefixes of its unit names (which take the entry part of `new`).
pub open spec fn rename_spec(d: Seq<char>, old: Seq<char>, new: Seq<char>) -> Seq<char> {
    let first = replace_first(d, symbol_needle(old), symbol_needle(new));
    replace_all(first, seq!['"'] + old + seq!['_'], seq!['"'] + after_last(new, ':') + seq!['_'])
}

pub fn rename_definition(definition: &str, old: &str, new: &str) -> (r: String)
    ensures
        r@ == rename_spec(definition@, old@, new@),
{
    let d = chars_of(definition);
    let o = chars_of(old);
    let n = chars_of(new);
    let from = symbol_needle_chars(o.as_slice());
    let to = symbol_needle_chars(n.as_slice());
    let first = replace_first_chars(d.as_slice(), from.as_slice(), to.as_slice());
    let mut pat: Vec<char> = Vec::new();
    pat.push('"');
    push_all(&mut pat, o.as_slice());
    pat.push('_');
    let entry = after_last_chars(n.as_slice(), ':');
    let mut rep: Vec<char> = Vec::new();
    rep.push('"');
    push_all(&mut rep, entry.as_slice());
    rep.push('_');
    assert(pat@ =~= seq!['"'] + old@ + seq!['_']);
    assert(rep@ =~= seq!['"'] + after_last(new@, ':') + seq!['_']);
    let out = replace_all_chars(first.as_slice(), pat.as_slice(), rep.as_slice());
    string_of(out.as_slice())
}

/// `(field "` for a field name.
pub open spec fn field_string_needle(field: Seq<char>) -> Seq<char> {
    seq!['('] + field + seq![' ', '"']
}

/// The quoted value of the first `(field "…` in a text.
pub open spec fn field_string_spec(s: Seq<char>, field: Seq<char>) -> Option<Seq<char>> {
    match find_from(s, field_string_needle(field), 0) {
        None => None,
        Some(p) => {
            let start = p + field_string_needle(field).len();
            Some(s.subrange(start, index_of_from(s, '"', start)))
        },
    }
}

pub fn field_string(source: &str, field: &str) -> (r: Option<String>)
    ensures
        match r {
            Some(t) => field_string_spec(source@, field@) == Some(t@),
            None => field_string_spec(source@, field@) is None,
        },
{
    let s = chars_of(source);
    let f = chars_of(field);
    let mut needle: Vec<char> = Vec::new();
    needle.push('(');
    push_all(&mut needle, f.as_slice());
    needle.push(' ');
    needle.push('"');
    assert(needle@ =~= field_string_needle(field@));
    match find_chars(s.as_slice(), needle.as_slice(), 0) {
        None => None,
        Some(p) => {
            proof {
                lemma_find_from(s@, needle@, 0);
                assert(s@.len() == s.len());
            }
            let start = p + needle.len();
            let end = scan_to(s.as_slice(), '"', start);
            let t = slice_chars(s.as_slice(), start, end);
            Some(string_of(t.as_slice()))
        },
    }
}

/// `(field ` for a field name.
pub open spec fn field_values_needle(field: Seq<char>) -> Seq<char> {
    seq!['('] + field + seq![' ']
}

/// The white-space separated values of the first `(field …)` in a text.
pub open spec fn field_values_spec(s: Seq<char>, field: Seq<char>) -> Option<Seq<Seq<char>>> {
    match find_from(s, field_values_needle(field), 0) {
        None => None,
        Some(p) => {
            let start = p + field_values_needle(field).len();
            let end = index_of_from(s, ')', start);
            if end >= s.len() {
                None
            } else {
                Some(words_from(s.subrange(start, end), 0))
            }
        },
    }
}

pub fn field_values(source: &str, field: &str) -> (r: Option<Vec<String>>)
    ensures
        match field_values_spec(source@, field@) {
            None => r is None,
            Some(words) => r matches Some(v) && v@.len() == words.len() && forall|k: int|
                0 <= k < words.len() ==> (#[trigger] v@[k])@ == words[k],
        },
{
    let s = chars_of(source);
    let f = chars_of(field);
    let mut needle: Vec<char> = Vec::new();
    needle.push('(');
    push_all(&mut needle, f.as_slice());
    needle.push(' ');
    assert(needle@ =~= field_values_needle(field@));
    match find_chars(s.as_slice(), needle.as_slice(), 0) {
        None => None,
        Some(p) => {
            proof {
                lemma_find_from(s@, needle@, 0);
                assert(s@.len() == s.len());
            }
            let start = p + needle.len();
            let end = scan_to(s.as_slice(), ')', start);
            if end >= s.len() {
                return None;
            }
            let inner = slice_chars(s.as_slice(), start, end);
            let words = split_whitespace_chars(inner.as_slice());
            let mut out: Vec<String> = Vec::new();
            let mut k: usize = 0;
            while k < words.len()
                invariant
                    k <= words@.len(),
                    out@.len() == k,
                    forall|j: int| 0 <= j < k ==> (#[trigger] out@[j])@ == words@[j]@,
                decreases words@.len() - k,
            {
                out.push(string_of(words[k].as_slice()));
                k = k + 1;
            }
            Some(out)
        },
    }
}


// ---------------------------------------------------------------------------
// Inheritance
// ---------------------------------------------------------------------------

pub open spec fn property_word() -> Seq<char> {
    seq!['p', 'r', 'o', 'p', 'e', 'r', 't', 'y']
}

pub open spec fn extends_word() -> Seq<char> {
    seq!['e', 'x', 't', 'e', 'n', 'd', 's']
}

/// Whether a child field `f` replaces the base item `old`: same tag, and for
/// properties also the same property name.
pub open spec fn replaces(old: SExprView, f: SExprView) -> bool {
    tag_of(old) == tag_of(f) && (tag_of(f) != Some(property_word()) || value_of(old, 1)
        == value_of(f, 1))
}

/// The items that `f` does not replace, in order.
pub open spec fn drop_replaced(items: Seq<SExprView>, f: SExprView) -> Seq<SExprView>
    decreases items.len(),
{
    if items.len() == 0 {
        Seq::empty()
    } else if replaces(items.last(), f) {
        drop_replaced(items.drop_last(), f)
    } else {
        drop_replaced(items.drop_last(), f).push(items.last())
    }
}

/// The base items after applying the child's fields in order; an `extends`
/// field is skipped, any other field replaces what it overrides and is
/// appended.
pub open spec fn merge_fields(acc: Seq<SExprView>, fields: Seq<SExprView>) -> Seq<SExprView>
    decreases fields.len(),
{
    if fields.len() == 0 {
        acc
    } else {
        let a = merge_fields(acc, fields.drop_last());
        let f = fields.last();
        if tag_of(f) == Some(extends_word()) {
            a
        } else {
            drop_replaced(a, f).push(f)
        }
    }
}

/// The fields of a definition: its items after the `symbol` tag and name.
pub open spec fn own_fields(e: SExprView) -> Seq<SExprView> {
    if items_of(e).len() >= 2 {
        items_of(e).skip(2)
    } else {
        Seq::empty()
    }
}

/// Whether some field of a definition is merged into its base, that is, is
/// not an `extends` field.
pub open spec fn has_merged_field(fields: Seq<SExprView>) -> bool {
    exists|i: int| 0 <= i < fields.len() && tag_of(#[trigger] fields[i]) != Some(extends_word())
}

/// The text of a base definition with a child's fields merged in; a base
/// that is not a list is printed unchanged.
pub open spec fn merge_spec(base: Seq<char>, child: Seq<char>) -> Result<Seq<char>, Seq<char>> {
    match parse_spec(base) {
        Err(m) => Err(m),
        Ok(b) => match parse_spec(child) {
            Err(m) => Err(m),
            Ok(c) => if b is List {
                Ok(text(SExprView::List(merge_fields(items_of(b), own_fields(c)))))
            } else {
                Ok(text(b))
            },
        },
    }
}

fn opt_chars(t: Option<&str>) -> (r: Option<Vec<char>>)
    ensures
        match t {
            Some(x) => r matches Some(v) && v@ == x@,
            None => r is None,
        },
{
    match t {
        Some(x) => Some(chars_of(x)),
        None => None,
    }
}

fn opt_eq(a: &Option<Vec<char>>, b: &Option<Vec<char>>) -> (r: bool)
    ensures
        r == (match (a, b) {
            (Some(x), Some(y)) => x@ == y@,
            (None, None) => true,
            _ => false,
        }),
{
    match (a, b) {
        (Some(x), Some(y)) => chars_eq(x.as_slice(), y.as_slice()),
        (None, None) => true,
        _ => false,
    }
}

pub open spec fn opt_view(t: Option<Vec<char>>) -> Option<Seq<char>> {
    match t {
        Some(v) => Some(v@),
        None => None,
    }
}

/// Removes from `items` what `f` (with tag `f_tag` and name `f_name`)
/// replaces.
fn drop_replaced_exec(
    items: &mut Vec<SExpr>,
    f: &SExpr,
    f_tag: &Option<Vec<char>>,
    f_name: &Option<Vec<char>>,
)
    requires
        opt_view(*f_tag) == tag_of(f.view()),
        opt_view(*f_name) == value_of(f.view(), 1),
    ensures
        view_items(final(items)@) == drop_replaced(view_items(old(items)@), f.view()),
{
    let ghost original = items@;
    let mut pending = drain_in_order(items);
    let n = pending.len();
    let mut k: usize = 0;
    let property = ['p', 'r', 'o', 'p', 'e', 'r', 't', 'y'];
    assert(property@ =~= property_word());
    let is_property = match f_tag {
        Some(t) => chars_eq(t.as_slice(), &property),
        None => false,
    };
    proof {
        assert(view_items(items@) =~= Seq::<SExprView>::empty());
        assert(original.take(0) =~= Seq::<SExpr>::empty());
        assert(view_items(original.take(0)) =~= Seq::<SExprView>::empty());
    }
    while k < n
        invariant
            n == original.len(),
            k <= n,
            pending@.len() == n - k,
            opt_view(*f_tag) == tag_of(f.view()),
            opt_view(*f_name) == value_of(f.view(), 1),
            is_property == (tag_of(f.view()) == Some(property_word())),
            forall|j: int| 0 <= j < n - k ==> pending@[j] == original[n - 1 - j],
            view_items(items@) == drop_replaced(view_items(original.take(k as int)), f.view()),
        decreases n - k,
    {
        let e = pending.pop().unwrap();
        proof {
            assert(e == original[k as int]);
            assert(original.take(k + 1) =~= original.take(k as int).push(e));
            lemma_view_items_push(original.take(k as int), e);
            assert(view_items(original.take(k as int)).push(e.view()).drop_last()
                =~= view_items(original.take(k as int)));
        }
        let e_tag = opt_chars(e.tag());
        let e_name = opt_chars(e.value(1));
        let same_tag = opt_eq(&e_tag, f_tag);
        let replaced = same_tag && (!is_property || opt_eq(&e_name, f_name));
        if !replaced {
            proof {
                lemma_view_items_push(items@, e);
            }
            items.push(e);
        }
        k = k + 1;
    }
    proof {
        assert(original.take(n as int) =~= original);
    }
}

/// Merges the fields of a derived symbol definition into its base: each
/// child field replaces the base items with the same tag (for properties,
/// the same tag and name), `extends` is dropped, and the result is printed.
pub fn merge_inherited(base: &str, child: &str) -> (r: Result<String, String>)
    requires
        parse_spec(base@) matches Ok(b) && !(b is List) ==> !(parse_spec(child@) matches Ok(c)
            && has_merged_field(own_fields(c))),
    ensures
        match (r, merge_spec(base@, child@)) {
            (Ok(t), Ok(u)) => t@ == u,
            (Err(m), Err(u)) => m@ == u,
            _ => false,
        },
{
    let mut base_expr = match SExpr::parse(base) {
        Ok(e) => e,
        Err(m) => {
            return Err(m);
        },
    };
    let child_expr = match SExpr::parse(child) {
        Ok(e) => e,
        Err(m) => {
            return Err(m);
        },
    };
    // A base that is not a list takes no fields: it is printed as it is.
    match &base_expr {
        SExpr::List(_) => {},
        _ => {
            return Ok(base_expr.to_string());
        },
    }
    let ghost b0 = base_expr.view();
    let ghost c0 = child_expr.view();
    let mut child_items = match child_expr {
        SExpr::List(v) => v,
        _ => Vec::new(),
    };
    proof {
        assert(view_items(child_items@) == items_of(c0)) by {
            if !(c0 is List) {
                assert(view_items(child_items@) =~= Seq::<SExprView>::empty());
            }
        }
        lemma_view_items_len(child_items@);
    }
    let ghost fields_all = view_items(child_items@);
    let ghost child_seq = child_items@;
    let mut pending = drain_in_order(&mut child_items);
    let n = pending.len();
    proof {
        assert forall|j: int| 0 <= j < n implies (#[trigger] pending@[j]).view() == fields_all[n
            - 1 - j] by {
            lemma_view_items_index(child_seq, n - 1 - j);
        }
    }
    let items = base_expr.items_mut();
    let ghost acc0 = view_items(items@);
    let extends = ['e', 'x', 't', 'e', 'n', 'd', 's'];
    assert(extends@ =~= extends_word());
    let ghost fields = own_fields(c0);
    // The first two items are the tag and the name.
    let mut k: usize = 0;
    while k < n && k < 2
        invariant
            k <= n,
            k <= 2,
            pending@.len() == n - k,
            n == fields_all.len(),
            forall|j: int| 0 <= j < n - k ==> (#[trigger] pending@[j]).view() == fields_all[n - 1 - j],
        decreases n - k,
    {
        let _ = pending.pop();
        k = k + 1;
    }
    proof {
        assert(fields == if n >= 2 { fields_all.skip(2) } else { Seq::<SExprView>::empty() });
        assert(merge_fields(acc0, fields.take(0)) == acc0) by {
            assert(fields.take(0) =~= Seq::<SExprView>::empty());
        }
    }
    let ghost start = k;
    while k < n
        invariant
            start <= k <= n,
            start == (if n >= 2 { 2 } else { n }),
            n == fields_all.len(),
            fields == (if n >= 2 { fields_all.skip(2) } else { Seq::<SExprView>::empty() }),
            pending@.len() == n - k,
            extends@ == extends_word(),
            forall|j: int| 0 <= j < n - k ==> (#[trigger] pending@[j]).view() == fields_all[n - 1 - j],
            view_items(items@) == merge_fields(acc0, fields.take(k - start)),
        decreases n - k,
    {
        let f = pending.pop().unwrap();
        proof {
            assert(f.view() == fields_all[k as int]);
            assert(fields[k - start] == fields_all[k as int]);
            assert(fields.take(k - start + 1).drop_last() =~= fields.take(k - start));
            assert(fields.take(k - start + 1).last() == f.view());
        }
        let f_tag = opt_chars(f.tag());
        let f_name = opt_chars(f.value(1));
        let is_extends = match &f_tag {
            Some(t) => chars_eq(t.as_slice(), &extends),
            None => false,
        };
        if !is_extends {
            drop_replaced_exec(items, &f, &f_tag, &f_name);
            proof {
                lemma_view_items_push(items@, f);
            }
            items.push(f);
        }
        k = k + 1;
    }
    proof {
        assert(fields.take(n - start) =~= fields);
    }
    Ok(base_expr.to_string())
}


// ---------------------------------------------------------------------------
// Resolving inheritance chains
// ---------------------------------------------------------------------------

/// Whether a name holds no quote.
pub open spec fn quote_free(n: Seq<char>) -> bool {
    forall|k: int| 0 <= k < n.len() ==> n[k] != '"'
}

/// The names being resolved: distinct, each with a top-level definition, and
/// all but the outermost without quotes.
pub open spec fn valid_stack(s: Seq<char>, stack: Seq<Seq<char>>) -> bool {
    &&& stack.no_duplicates()
    &&& forall|k: int| 0 <= k < stack.len() ==> top_level_from(
        s,
        symbol_needle(#[trigger] stack[k]),
        0,
    ) is Some
    &&& forall|k: int| 1 <= k < stack.len() ==> quote_free(#[trigger] stack[k])
}

pub open spec fn cycle_message(name: Seq<char>) -> Seq<char> {
    "cyclic KiCad symbol inheritance involving `"@ + name + "`"@
}

pub open spec fn missing_base_message(base: Seq<char>, name: Seq<char>) -> Seq<char> {
    "base KiCad symbol `"@ + base + "` for `"@ + name + "` was not found"@
}

/// Resolves the definition of `name`, merging in the chain of definitions it
/// extends; `stack` holds the names being resolved. The result comes with the
/// final stack: names pushed on the way to an error stay on it.
pub open spec fn resolve_spec(s: Seq<char>, name: Seq<char>, stack: Seq<Seq<char>>) -> (
    Result<Option<Seq<char>>, Seq<char>>,
    Seq<Seq<char>>,
)
    decreases s.len() + 2 - stack.len(),
{
    if stack.contains(name) {
        (Err(cycle_message(name)), stack)
    } else {
        match find_definition_spec(s, name) {
            None => (Ok(None), stack),
            Some(def) => match field_string_spec(def, extends_word()) {
                None => (Ok(Some(def)), stack),
                Some(base) => if stack.len() > s.len() {
                    (Ok(None), stack)
                } else {
                    let (inner, st) = resolve_spec(s, base, stack.push(name));
                    match inner {
                        Err(m) => (Err(m), st),
                        Ok(None) => (Err(missing_base_message(base, name)), stack),
                        Ok(Some(bd)) => match merge_spec(rename_spec(bd, base, name), def) {
                            Ok(t) => (Ok(Some(t)), stack),
                            Err(m) => (Err(m), stack),
                        },
                    }
                },
            },
        }
    }
}

proof fn lemma_needle_injective(s: Seq<char>, p: int, n1: Seq<char>, n2: Seq<char>)
    requires
        occurs_at(s, p, symbol_needle(n1)),
        occurs_at(s, p, symbol_needle(n2)),
        quote_free(n1),
        quote_free(n2),
    ensures
        n1 == n2,
{
    let a = symbol_needle(n1);
    let b = symbol_needle(n2);
    assert forall|k: int| 0 <= k < a.len() implies s[p + k] == a[k] by {
        assert(s.subrange(p, p + a.len())[k] == a[k]);
    }
    assert forall|k: int| 0 <= k < b.len() implies s[p + k] == b[k] by {
        assert(s.subrange(p, p + b.len())[k] == b[k]);
    }
    if n1.len() < n2.len() {
        assert(a[9 + n1.len() as int] == '"');
        assert(b[9 + n1.len() as int] == n2[n1.len() as int]);
    } else if n2.len() < n1.len() {
        assert(b[9 + n2.len() as int] == '"');
        assert(a[9 + n2.len() as int] == n1[n2.len() as int]);
    } else {
        assert forall|k: int| 0 <= k < n1.len() implies n1[k] == n2[k] by {
            assert(a[9 + k] == n1[k]);
            assert(b[9 + k] == n2[k]);
        }
        assert(n1 =~= n2);
    }
}

proof fn lemma_top_level(s: Seq<char>, needle: Seq<char>, from: int)
    requires
        0 <= from,
    ensures
        top_level_from(s, needle, from) matches Some(p) ==> occurs_at(s, p, needle) && p
            + needle.len() <= s.len(),
    decreases s.len() + 1 - from,
{
    lemma_find_from(s, needle, from);
    match find_from(s, needle, from) {
        None => {},
        Some(p) => {
            if depth_spec(s.take(p)) != 1 && !(p + needle.len() <= from || from < 0 || needle.len()
                == 0 || p + needle.len() > s.len()) {
                lemma_top_level(s, needle, p + needle.len());
            }
        },
    }
}

/// A valid stack is no longer than the text plus one.
proof fn lemma_stack_bound(s: Seq<char>, stack: Seq<Seq<char>>)
    requires
        valid_stack(s, stack),
    ensures
        stack.len() <= s.len() + 1,
{
    if stack.len() > 0 {
        let tail = stack.drop_first();
        let pos = tail.map_values(
            |n: Seq<char>| top_level_from(s, symbol_needle(n), 0)->0,
        );
        assert forall|i: int, j: int|
            0 <= i < pos.len() && 0 <= j < pos.len() && i != j implies pos[i] != pos[j] by {
            let p = pos[i];
            assert(tail[i] == stack[i + 1]);
            assert(tail[j] == stack[j + 1]);
            lemma_top_level(s, symbol_needle(tail[i]), 0);
            lemma_top_level(s, symbol_needle(tail[j]), 0);
            if pos[i] == pos[j] {
                lemma_needle_injective(s, p, tail[i], tail[j]);
            }
        }
        assert(pos.no_duplicates());
        pos.unique_seq_to_set();
        let range = vstd::set_lib::set_int_range(0, s.len() as int);
        vstd::set_lib::lemma_int_range(0, s.len() as int);
        assert forall|x: int| pos.to_set().contains(x) implies range.contains(x) by {
            let i = choose|i: int| 0 <= i < pos.len() && pos[i] == x;
            assert(tail[i] == stack[i + 1]);
            lemma_top_level(s, symbol_needle(tail[i]), 0);
        }
        vstd::set_lib::lemma_len_subset(pos.to_set(), range);
    }
}

proof fn lemma_index_of_from(s: Seq<char>, c: char, i: int)
    requires
        0 <= i <= s.len(),
    ensures
        i <= index_of_from(s, c, i) <= s.len(),
        forall|k: int| i <= k < index_of_from(s, c, i) ==> s[k] != c,
    decreases s.len() - i,
{
    if i < s.len() && s[i] != c {
        lemma_index_of_from(s, c, i + 1);
    }
}

proof fn lemma_field_string_quote_free(s: Seq<char>, field: Seq<char>)
    ensures
        field_string_spec(s, field) matches Some(v) ==> quote_free(v),
{
    let needle = field_string_needle(field);
    lemma_find_from(s, needle, 0);
    match find_from(s, needle, 0) {
        None => {},
        Some(p) => {
            let start = p + needle.len();
            lemma_index_of_from(s, '"', start);
        },
    }
}

/// A resolved definition starts with an opening parenthesis.
proof fn lemma_resolve_starts_open(s: Seq<char>, name: Seq<char>, stack: Seq<Seq<char>>)
    ensures
        resolve_spec(s, name, stack).0 matches Ok(Some(t)) ==> t.len() > 0 && t[0] == '(',
    decreases s.len() + 2 - stack.len(),
{
    if !stack.contains(name) {
        match find_definition_spec(s, name) {
            None => {},
            Some(def) => {
                lemma_definition_starts_open(s, name);
                match field_string_spec(def, extends_word()) {
                    None => {},
                    Some(base) => {
                        if stack.len() <= s.len() {
                            let (inner, st) = resolve_spec(s, base, stack.push(name));
                            match inner {
                                Ok(Some(bd)) => {
                                    match merge_spec(rename_spec(bd, base, name), def) {
                                        Ok(t) => {
                                            lemma_resolve_starts_open(s, base, stack.push(name));
                                            lemma_rename_starts_open(bd, base, name);
                                            lemma_merge_starts_open(rename_spec(bd, base, name), def);
                                        },
                                        Err(_) => {},
                                    }
                                },
                                _ => {},
                            }
                        }
                    },
                }
            },
        }
    }
}

proof fn lemma_definition_starts_open(s: Seq<char>, name: Seq<char>)
    ensures
        find_definition_spec(s, name) matches Some(t) ==> t.len() > 0 && t[0] == '(',
{
    let needle = symbol_needle(name);
    lemma_top_level(s, needle, 0);
    match top_level_from(s, needle, 0) {
        None => {},
        Some(p) => {
            assert(s[p] == '(') by {
                assert(s.subrange(p, p + needle.len())[0] == needle[0]);
            }
            lemma_balanced_scan_found(s, p, 0, false, false);
        },
    }
}

proof fn lemma_merge_starts_open(base: Seq<char>, child: Seq<char>)
    requires
        base.len() > 0,
        base[0] == '(',
    ensures
        merge_spec(base, child) matches Ok(t) ==> t.len() > 0 && t[0] == '(',
{
    lemma_parse_open_paren(base);
}

/// Reading a text that starts with `(` gives a list (or an error).
proof fn lemma_parse_open_paren(t: Seq<char>)
    requires
        t.len() > 0,
        t[0] == '(',
    ensures
        parse_spec(t) matches Ok(e) ==> e is List,
{
    assert(!crate::text::is_ws('('));
    assert(crate::text::skip_ws(t, 0) == 0);
    lemma_read_items_list(t, 1, Seq::empty());
}

proof fn lemma_read_items_list(s: Seq<char>, i: int, acc: Seq<SExprView>)
    ensures
        crate::sexpr::read_items(s, i, acc) matches Ok((e, _)) ==> e is List,
    decreases s.len() - i,
{
    let j = crate::text::skip_ws(s, i);
    crate::text::lemma_skip_ws(s, i);
    if !(j < i || j > s.len() || i < 0) && !(j < s.len() && s[j] == ')') {
        match crate::sexpr::read(s, j) {
            Err(_) => {},
            Ok((e, k)) => {
                if !(k <= i || k > s.len()) {
                    lemma_read_items_list(s, k, acc.push(e));
                }
            },
        }
    }
}

/// Renaming keeps the opening parenthesis.
proof fn lemma_rename_starts_open(d: Seq<char>, old: Seq<char>, new: Seq<char>)
    requires
        d.len() > 0,
        d[0] == '(',
    ensures
        rename_spec(d, old, new).len() > 0,
        rename_spec(d, old, new)[0] == '(',
{
    let first = replace_first(d, symbol_needle(old), symbol_needle(new));
    lemma_find_from(d, symbol_needle(old), 0);
    match find_from(d, symbol_needle(old), 0) {
        Some(p) => {
            if p == 0 {
                assert(first[0] == symbol_needle(new)[0]);
            } else {
                assert(first[0] == d[0]);
            }
        },
        None => {},
    }
    assert(first.len() > 0 && first[0] == '(');
    let pat = seq!['"'] + old + seq!['_'];
    assert(!occurs_at(first, 0, pat)) by {
        if occurs_at(first, 0, pat) {
            assert(first.subrange(0, pat.len() as int)[0] == pat[0]);
        }
    }
}

proof fn lemma_resolve_ok_stack(s: Seq<char>, name: Seq<char>, stack: Seq<Seq<char>>)
    ensures
        resolve_spec(s, name, stack).0 is Ok ==> resolve_spec(s, name, stack).1 == stack,
{
}


fn stack_contains(stack: &Vec<String>, name: &str) -> (r: bool)
    ensures
        r == strings_view(stack@).contains(name@),
{
    let mut i: usize = 0;
    while i < stack.len()
        invariant
            i <= stack@.len(),
            forall|k: int| 0 <= k < i ==> stack@[k]@ != name@,
        decreases stack@.len() - i,
    {
        if crate::text::str_eq(stack[i].as_str(), name) {
            assert(strings_view(stack@)[i as int] == name@);
            return true;
        }
        i = i + 1;
    }
    proof {
        if strings_view(stack@).contains(name@) {
            let k = choose|k: int|
                0 <= k < strings_view(stack@).len() && strings_view(stack@)[k] == name@;
            assert(stack@[k]@ == name@);
        }
    }
    false
}

fn message_parts(a: &str, b: &[char], c: &str) -> (r: String)
    ensures
        r@ == a@ + b@ + c@,
{
    let mut out = chars_of(a);
    push_all(&mut out, b);
    let t = chars_of(c);
    push_all(&mut out, t.as_slice());
    assert(out@ =~= a@ + b@ + c@);
    string_of(out.as_slice())
}

/// Resolves the definition of symbol `name` in a library text, merging in the
/// definitions it extends. `resolving` holds the names already being resolved
/// (empty for an outside call).
pub fn resolve_definition(source: &str, name: &str, resolving: &mut Vec<String>) -> (r: Result<
    Option<String>,
    String,
>)
    requires
        source@.len() <= isize::MAX,
        valid_stack(source@, strings_view(old(resolving)@)),
        old(resolving)@.len() > 0 ==> quote_free(name@),
    ensures
        ({
            let (res, st) = resolve_spec(source@, name@, strings_view(old(resolving)@));
            &&& strings_view(final(resolving)@) == st
            &&& match (r, res) {
                (Ok(Some(t)), Ok(Some(u))) => t@ == u,
                (Ok(None), Ok(None)) => true,
                (Err(m), Err(u)) => m@ == u,
                _ => false,
            }
        }),
    decreases source@.len() + 2 - old(resolving)@.len(),
{
    let ghost stack0 = strings_view(resolving@);
    if stack_contains(resolving, name) {
        let n = chars_of(name);
        return Err(message_parts("cyclic KiCad symbol inheritance involving `", n.as_slice(), "`"));
    }
    let definition = match find_definition(source, name) {
        None => {
            return Ok(None);
        },
        Some(d) => d,
    };
    proof {
        reveal_strlit("extends");
        assert("extends"@ =~= extends_word());
    }
    let base = match field_string(definition.as_str(), "extends") {
        None => {
            return Ok(Some(definition));
        },
        Some(b) => b,
    };
    proof {
        lemma_field_string_quote_free(definition@, extends_word());
    }
    let ghost pushed = stack0.push(name@);
    proof {
        assert(valid_stack(source@, pushed)) by {
            assert forall|i: int, j: int|
                0 <= i < pushed.len() && 0 <= j < pushed.len() && i != j implies pushed[i]
                != pushed[j] by {
                if i < stack0.len() && j < stack0.len() {
                } else if i == stack0.len() {
                    assert(!stack0.contains(name@));
                    assert(pushed[j] == stack0[j]);
                } else {
                    assert(!stack0.contains(name@));
                    assert(pushed[i] == stack0[i]);
                }
            }
            assert forall|k: int| 0 <= k < pushed.len() implies top_level_from(
                source@,
                symbol_needle(#[trigger] pushed[k]),
                0,
            ) is Some by {
                if k == stack0.len() {
                    assert(pushed[k] == name@);
                }
            }
        }
        lemma_stack_bound(source@, pushed);
    }
    resolving.push(name.to_owned());
    proof {
        assert(strings_view(resolving@) =~= pushed);
    }
    let resolved = resolve_definition(source, base.as_str(), resolving);
    let resolved = match resolved {
        Err(m) => {
            return Err(m);
        },
        Ok(x) => x,
    };
    proof {
        lemma_resolve_ok_stack(source@, base@, pushed);
        assert(strings_view(resolving@) == pushed);
    }
    let ghost before_pop = resolving@;
    let _ = resolving.pop();
    proof {
        assert(resolving@ =~= before_pop.drop_last());
        assert(strings_view(resolving@) =~= strings_view(before_pop).drop_last());
        assert(pushed.drop_last() =~= stack0);
        assert(strings_view(resolving@) =~= stack0);
    }
    match resolved {
        None => {
            let b = chars_of(base.as_str());
            let n = chars_of(name);
            let mut out = chars_of("base KiCad symbol `");
            push_all(&mut out, b.as_slice());
            let mid = chars_of("` for `");
            push_all(&mut out, mid.as_slice());
            push_all(&mut out, n.as_slice());
            let tail = chars_of("` was not found");
            push_all(&mut out, tail.as_slice());
            assert(out@ =~= missing_base_message(base@, name@));
            Err(string_of(out.as_slice()))
        },
        Some(base_definition) => {
            let renamed = rename_definition(base_definition.as_str(), base.as_str(), name);
            proof {
                lemma_resolve_starts_open(source@, base@, pushed);
                lemma_rename_starts_open(base_definition@, base@, name@);
                lemma_parse_open_paren(renamed@);
            }
            match merge_inherited(renamed.as_str(), definition.as_str()) {
                Ok(t) => Ok(Some(t)),
                Err(m) => Err(m),
            }
        },
    }
}


// ---------------------------------------------------------------------------
// Units, pins and references
// ---------------------------------------------------------------------------

/// The digits of a `u32` literal: the text without one leading `+`.
pub open spec fn u32_digits(t: Seq<char>) -> Seq<char> {
    if t.len() > 0 && t[0] == '+' {
        t.drop_first()
    } else {
        t
    }
}

/// Every character of `d` is an ASCII digit.
pub open spec fn all_digits(d: Seq<char>) -> bool {
    forall|k: int| 0 <= k < d.len() ==> is_digit(#[trigger] d[k])
}

/// `str::parse::<u32>`: an optional `+` followed by at least one decimal
/// digit, with a value that fits in 32 bits.
pub open spec fn parse_u32_spec(t: Seq<char>) -> Option<nat> {
    let d = u32_digits(t);
    if d.len() > 0 && all_digits(d) && crate::tokenizer::digits_value(d) <= u32::MAX {
        Some(crate::tokenizer::digits_value(d) as nat)
    } else {
        None
    }
}

pub fn parse_u32(t: &[char]) -> (r: Option<u32>)
    ensures
        match parse_u32_spec(t@) {
            Some(v) => v <= u32::MAX && r == Some(v as u32),
            None => r is None,
        },
{
    let start: usize = if t.len() > 0 && t[0] == '+' {
        1
    } else {
        0
    };
    let d = slice_chars(t, start, t.len());
    proof {
        if t@.len() > 0 && t@[0] == '+' {
            assert(d@ =~= t@.drop_first());
        } else {
            assert(d@ =~= t@);
        }
    }
    if d.len() == 0 {
        return None;
    }
    let mut value: u64 = 0;
    let mut k: usize = 0;
    proof {
        assert(d@.take(0) =~= Seq::<char>::empty());
    }
    while k < d.len()
        invariant
            d@ == u32_digits(t@),
            k <= d@.len(),
            forall|m: int| 0 <= m < k ==> is_digit(#[trigger] d@[m]),
            value as int == crate::tokenizer::digits_value(d@.take(k as int)),
            value <= u32::MAX,
        decreases d@.len() - k,
    {
        let c = d[k];
        if !is_ascii_digit(c) {
            proof {
                assert(!is_digit(d@[k as int]));
                assert(!all_digits(d@));
                assert(parse_u32_spec(t@) is None);
            }
            return None;
        }
        proof {
            assert(d@.take(k + 1) =~= d@.take(k as int).push(c));
            crate::tokenizer::lemma_digits_value_push(d@.take(k as int), c);
        }
        value = value * 10 + (c as u32 - '0' as u32) as u64;
        k = k + 1;
        if value > 0xffff_ffff {
            proof {
                if all_digits(d@) {
                    crate::tokenizer::lemma_digits_prefix_le(d@, k as int);
                    assert(crate::tokenizer::digits_value(d@) > u32::MAX);
                }
                assert(parse_u32_spec(t@) is None);
            }
            return None;
        }
    }
    proof {
        assert(d@.take(k as int) =~= d@);
    }
    Some(value as u32)
}

/// The index of the last `c` in `s`.
pub open spec fn last_index(s: Seq<char>, c: char) -> Option<int>
    decreases s.len(),
{
    if s.len() == 0 {
        None
    } else if s.last() == c {
        Some(s.len() - 1)
    } else {
        last_index(s.drop_last(), c)
    }
}

/// The unit or style number read from a segment of a unit name; 1 when it
/// is absent or not a number.
pub open spec fn number_or_one(t: Option<Seq<char>>) -> nat {
    match t {
        Some(x) => match parse_u32_spec(x) {
            Some(v) => v,
            None => 1,
        },
        None => 1,
    }
}

/// A unit symbol name `NAME_UNIT_STYLE`: its unit number (second segment
/// from the end, split at `_`) and style (last segment).
pub open spec fn unit_of(name: Seq<char>) -> nat {
    number_or_one(
        match last_index(name, '_') {
            Some(k) => Some(after_last(name.take(k), '_')),
            None => None,
        },
    )
}

pub open spec fn style_of(name: Seq<char>) -> nat {
    number_or_one(Some(after_last(name, '_')))
}

pub open spec fn symbol_word() -> Seq<char> {
    seq!['s', 'y', 'm', 'b', 'o', 'l']
}

/// Whether an item of a definition is a unit-one, normal-style unit symbol.
pub open spec fn is_unit_one(item: SExprView) -> bool {
    let name = match value_of(item, 1) {
        Some(n) => n,
        None => Seq::empty(),
    };
    tag_of(item) == Some(symbol_word()) && unit_of(name) <= 1 && style_of(name) <= 1
}

/// The texts of the unit-one, normal-style units of a definition, in order.
pub open spec fn unit_one_texts(items: Seq<SExprView>) -> Seq<Seq<char>>
    decreases items.len(),
{
    if items.len() == 0 {
        Seq::empty()
    } else if is_unit_one(items.last()) {
        unit_one_texts(items.drop_last()).push(text(items.last()))
    } else {
        unit_one_texts(items.drop_last())
    }
}

fn last_index_chars(s: &[char], c: char) -> (r: Option<usize>)
    ensures
        match last_index(s@, c) {
            Some(k) => r == Some(k as usize) && 0 <= k < s@.len(),
            None => r is None,
        },
{
    let mut k = s.len();
    proof {
        assert(s@.take(k as int) =~= s@);
    }
    while k > 0 && s[k - 1] != c
        invariant
            k <= s@.len(),
            last_index(s@, c) == last_index(s@.take(k as int), c),
        decreases k,
    {
        proof {
            assert(s@.take(k as int).drop_last() =~= s@.take(k - 1));
        }
        k = k - 1;
    }
    proof {
        assert(s@.take(s@.len() as int) =~= s@);
    }
    if k == 0 {
        proof {
            assert(s@.take(0) =~= Seq::<char>::empty());
        }
        None
    } else {
        proof {
            assert(s@.take(k as int).last() == c);
        }
        Some(k - 1)
    }
}

fn number_or_one_exec(t: Option<Vec<char>>) -> (r: u32)
    ensures
        r == number_or_one(opt_view(t)),
{
    match t {
        Some(x) => match parse_u32(x.as_slice()) {
            Some(v) => v,
            None => 1,
        },
        None => 1,
    }
}

fn unit_one_check(item: &SExpr) -> (r: bool)
    ensures
        r == is_unit_one(item.view()),
{
    let symbol = ['s', 'y', 'm', 'b', 'o', 'l'];
    assert(symbol@ =~= symbol_word());
    let tagged = match item.tag() {
        Some(t) => crate::text::str_is(t, &symbol),
        None => false,
    };
    if !tagged {
        return false;
    }
    let name: Vec<char> = match item.value(1) {
        Some(n) => chars_of(n),
        None => Vec::new(),
    };
    let second = match last_index_chars(name.as_slice(), '_') {
        Some(k) => {
            let before = slice_chars(name.as_slice(), 0, k);
            assert(before@ =~= name@.take(k as int));
            Some(after_last_chars(before.as_slice(), '_'))
        },
        None => None,
    };
    let unit = number_or_one_exec(second);
    let style = number_or_one_exec(Some(after_last_chars(name.as_slice(), '_')));
    unit <= 1 && style <= 1
}

/// The texts of the unit-one, normal-style unit symbols of a definition.
pub fn unit_one_units(definition: &str) -> (r: Result<Vec<String>, String>)
    ensures
        match (r, parse_spec(definition@)) {
            (Ok(v), Ok(e)) => v@.len() == unit_one_texts(items_of(e)).len() && forall|k: int|
                0 <= k < v@.len() ==> (#[trigger] v@[k])@ == unit_one_texts(items_of(e))[k],
            (Err(m), Err(u)) => m@ == u,
            _ => false,
        },
{
    let parsed = match SExpr::parse(definition) {
        Ok(e) => e,
        Err(m) => {
            return Err(m);
        },
    };
    let items = parsed.items();
    let ghost views = items_of(parsed.view());
    proof {
        lemma_view_items_len(items@);
    }
    let mut out: Vec<String> = Vec::new();
    let mut i: usize = 0;
    proof {
        assert(views.take(0) =~= Seq::<SExprView>::empty());
    }
    while i < items.len()
        invariant
            views == view_items(items@),
            views.len() == items@.len(),
            i <= items@.len(),
            out@.len() == unit_one_texts(views.take(i as int)).len(),
            forall|k: int|
                0 <= k < out@.len() ==> (#[trigger] out@[k])@ == unit_one_texts(
                    views.take(i as int),
                )[k],
        decreases items@.len() - i,
    {
        proof {
            lemma_view_items_index(items@, i as int);
            assert(views.take(i + 1).drop_last() =~= views.take(i as int));
            assert(views.take(i + 1).last() == items@[i as int].view());
        }
        if unit_one_check(&items[i]) {
            let t = items[i].to_string();
            out.push(t);
        }
        i = i + 1;
    }
    proof {
        assert(views.take(i as int) =~= views);
    }
    Ok(out)
}

pub open spec fn pin_needle() -> Seq<char> {
    seq!['(', 'p', 'i', 'n', ' ']
}

pub open spec fn at_word() -> Seq<char> {
    seq!['a', 't']
}

pub open spec fn number_word() -> Seq<char> {
    seq!['n', 'u', 'm', 'b', 'e', 'r']
}

/// The pin candidates of a definition from character index `offset`: for each
/// `(pin …)` expression in order, its `number` and the first two `at` values,
/// where both fields are present and `at` has at least two values.
pub open spec fn pins_from(s: Seq<char>, offset: int) -> Seq<(Seq<char>, Seq<char>, Seq<char>)>
    decreases s.len() + 1 - offset,
{
    match find_from(s, pin_needle(), offset) {
        None => Seq::empty(),
        Some(start) => match balanced_spec(s, start) {
            None => Seq::empty(),
            Some(pin) => {
                let next = start + pin.len();
                let rest = if next > offset && offset >= 0 && next <= s.len() {
                    pins_from(s, next)
                } else {
                    Seq::empty()
                };
                match (field_values_spec(pin, at_word()), field_string_spec(pin, number_word())) {
                    (Some(at), Some(num)) => if at.len() >= 2 {
                        seq![(num, at[0], at[1])] + rest
                    } else {
                        rest
                    },
                    _ => rest,
                }
            },
        },
    }
}

/// The pin candidates of a definition: `(number, x, y)` in order of
/// appearance (coordinates as written; the first occurrence of a number wins
/// when they are read).
pub fn pin_candidates(definition: &str) -> (r: Vec<(String, String, String)>)
    requires
        definition@.len() <= isize::MAX,
    ensures
        r@.len() == pins_from(definition@, 0).len(),
        forall|k: int|
            0 <= k < r@.len() ==> {
                let (n, x, y) = #[trigger] pins_from(definition@, 0)[k];
                &&& r@[k].0@ == n
                &&& r@[k].1@ == x
                &&& r@[k].2@ == y
            },
{
    let s = chars_of(definition);
    let needle = ['(', 'p', 'i', 'n', ' '];
    assert(needle@ =~= pin_needle());
    let mut out: Vec<(String, String, String)> = Vec::new();
    let ghost mut done: Seq<(Seq<char>, Seq<char>, Seq<char>)> = Seq::empty();
    let mut offset: usize = 0;
    proof {
        reveal_strlit("at");
        reveal_strlit("number");
        assert("at"@ =~= at_word());
        assert("number"@ =~= number_word());
        assert(done + pins_from(s@, 0) =~= pins_from(s@, 0));
    }
    loop
        invariant
            s@ == definition@,
            s@.len() <= isize::MAX,
            needle@ == pin_needle(),
            "at"@ == at_word(),
            "number"@ == number_word(),
            offset <= s@.len() + 1,
            done + pins_from(s@, offset as int) == pins_from(s@, 0),
            out@.len() == done.len(),
            forall|k: int|
                0 <= k < out@.len() ==> {
                    let (n, x, y) = #[trigger] done[k];
                    &&& out@[k].0@ == n
                    &&& out@[k].1@ == x
                    &&& out@[k].2@ == y
                },
        decreases s@.len() + 1 - offset,
    {
        proof {
            lemma_find_from(s@, needle@, offset as int);
        }
        let start = match find_chars(s.as_slice(), &needle, offset) {
            None => {
                proof {
                    assert(done =~= pins_from(s@, 0));
                }
                return out;
            },
            Some(p) => p,
        };
        proof {
            assert(s@[start as int] == '(') by {
                assert(s@.subrange(start as int, start + 5)[0] == needle@[0]);
            }
            lemma_balanced_scan(s@, start + 1, 1, false, false);
            assert(balanced_scan(s@, start as int, 0, false, false) == balanced_scan(
                s@,
                start + 1,
                1,
                false,
                false,
            ));
        }
        let end = match balanced_end(s.as_slice(), start) {
            None => {
                proof {
                    assert(done =~= pins_from(s@, 0));
                }
                return out;
            },
            Some(k) => k,
        };
        let pin_chars = slice_chars(s.as_slice(), start, end);
        let pin = string_of(pin_chars.as_slice());
        let at = field_values(pin.as_str(), "at");
        let number = field_string(pin.as_str(), "number");
        let ghost rest = pins_from(s@, end as int);
        match (at, number) {
            (Some(at), Some(number)) => {
                if at.len() >= 2 {
                    let x = at[0].clone();
                    let y = at[1].clone();
                    proof {
                        assert(pins_from(s@, offset as int) == seq![(number@, x@, y@)] + rest);
                        done = done.push((number@, x@, y@));
                        assert(done + rest =~= pins_from(s@, 0));
                    }
                    out.push((number, x, y));
                } else {
                    proof {
                        assert(pins_from(s@, offset as int) == rest);
                    }
                }
            },
            _ => {
                proof {
                    assert(pins_from(s@, offset as int) == rest);
                }
            },
        }
        offset = end;
    }
}

pub open spec fn reference_word() -> Seq<char> {
    seq!['R', 'e', 'f', 'e', 'r', 'e', 'n', 'c', 'e']
}

/// The third item (as text) of the first `(property "Reference" …)` item.
pub open spec fn reference_in(items: Seq<SExprView>) -> Option<Seq<char>>
    decreases items.len(),
{
    if items.len() == 0 {
        None
    } else {
        match reference_in(items.drop_last()) {
            Some(v) => Some(v),
            None => {
                let f = items.last();
                if tag_of(f) == Some(property_word()) && value_of(f, 1) == Some(reference_word()) {
                    Some(value_of(f, 2)->0)
                } else {
                    None
                }
            },
        }
    }
}

/// The reference prefix a library definition declares through its
/// `Reference` property.
pub fn reference_property(definition: &str) -> (r: Result<Option<String>, String>)
    ensures
        match (r, parse_spec(definition@)) {
            (Ok(v), Ok(e)) => match (v, first_reference(items_of(e))) {
                (Some(t), Some(u)) => t@ == u,
                (None, None) => true,
                _ => false,
            },
            (Err(m), Err(u)) => m@ == u,
            _ => false,
        },
{
    let parsed = match SExpr::parse(definition) {
        Ok(e) => e,
        Err(m) => {
            return Err(m);
        },
    };
    let items = parsed.items();
    let ghost views = items_of(parsed.view());
    proof {
        lemma_view_items_len(items@);
    }
    let property = ['p', 'r', 'o', 'p', 'e', 'r', 't', 'y'];
    let reference = ['R', 'e', 'f', 'e', 'r', 'e', 'n', 'c', 'e'];
    assert(property@ =~= property_word());
    assert(reference@ =~= reference_word());
    let mut i: usize = 0;
    while i < items.len()
        invariant
            views == view_items(items@),
            views == items_of(parsed.view()),
            parse_spec(definition@) == Ok::<SExprView, Seq<char>>(parsed.view()),
            views.len() == items@.len(),
            property@ == property_word(),
            reference@ == reference_word(),
            i <= items@.len(),
            forall|k: int| 0 <= k < i ==> !reference_match(#[trigger] views[k]),
        decreases items@.len() - i,
    {
        proof {
            lemma_view_items_index(items@, i as int);
        }
        let item = &items[i];
        let is_property = match item.tag() {
            Some(t) => crate::text::str_is(t, &property),
            None => false,
        };
        let is_reference = match item.value(1) {
            Some(t) => crate::text::str_is(t, &reference),
            None => false,
        };
        if is_property && is_reference {
            proof {
                assert(item.view() == views[i as int]);
                assert(reference_match(views[i as int]));
                lemma_first_reference(views, i as int);
                assert(first_reference(views) == value_of(item.view(), 2));
            }
            return Ok(
                match item.value(2) {
                    Some(t) => Some(t.to_owned()),
                    None => None,
                },
            );
        }
        i = i + 1;
    }
    proof {
        lemma_first_reference_none(views);
    }
    Ok(None)
}

/// Whether an item is `(property "Reference" …)`.
pub open spec fn reference_match(f: SExprView) -> bool {
    tag_of(f) == Some(property_word()) && value_of(f, 1) == Some(reference_word())
}

/// The value of the first `Reference` property: the text of its third item,
/// `None` when there is no such property or that item is missing.
pub open spec fn first_reference(items: Seq<SExprView>) -> Option<Seq<char>>
    decreases items.len(),
{
    if items.len() == 0 {
        None
    } else if reference_match(items[0]) {
        value_of(items[0], 2)
    } else {
        first_reference(items.drop_first())
    }
}

proof fn lemma_first_reference(items: Seq<SExprView>, i: int)
    requires
        0 <= i < items.len(),
        forall|k: int| 0 <= k < i ==> !reference_match(#[trigger] items[k]),
        reference_match(items[i]),
    ensures
        first_reference(items) == value_of(items[i], 2),
    decreases i,
{
    if i > 0 {
        assert forall|k: int| 0 <= k < i - 1 implies !reference_match(
            #[trigger] items.drop_first()[k],
        ) by {
            assert(items.drop_first()[k] == items[k + 1]);
        }
        lemma_first_reference(items.drop_first(), i - 1);
    }
}

proof fn lemma_first_reference_none(items: Seq<SExprView>)
    requires
        forall|k: int| 0 <= k < items.len() ==> !reference_match(#[trigger] items[k]),
    ensures
        first_reference(items) is None,
    decreases items.len(),
{
    if items.len() > 0 {
        assert forall|k: int| 0 <= k < items.len() - 1 implies !reference_match(
            #[trigger] items.drop_first()[k],
        ) by {
            assert(items.drop_first()[k] == items[k + 1]);
        }
        lemma_first_reference_none(items.drop_first());
    }
}

/// How many times `p` occurs in `v`.
pub open spec fn count_of(v: Seq<Seq<char>>, p: Seq<char>) -> nat
    decreases v.len(),
{
    if v.len() == 0 {
        0
    } else {
        count_of(v.drop_last(), p) + if v.last() == p {
            1nat
        } else {
            0nat
        }
    }
}

/// Reference designators: each component's prefix followed by its running
/// count among the components with the same prefix (`R1`, `R2`, `C1`, …).
pub fn number_references(prefixes: &Vec<String>) -> (r: Vec<String>)
    ensures
        r@.len() == prefixes@.len(),
        forall|i: int|
            0 <= i < r@.len() ==> (#[trigger] r@[i])@ == prefixes@[i]@ + decimal(
                count_of(strings_view(prefixes@).take(i + 1), prefixes@[i]@),
            ),
{
    let ghost ps = strings_view(prefixes@);
    let mut out: Vec<String> = Vec::new();
    let mut i: usize = 0;
    while i < prefixes.len()
        invariant
            ps == strings_view(prefixes@),
            i <= prefixes@.len(),
            out@.len() == i,
            forall|k: int|
                0 <= k < i ==> (#[trigger] out@[k])@ == prefixes@[k]@ + decimal(
                    count_of(ps.take(k + 1), prefixes@[k]@),
                ),
        decreases prefixes@.len() - i,
    {
        let p = chars_of(prefixes[i].as_str());
        let mut count: usize = 0;
        let mut j: usize = 0;
        proof {
            assert(ps.take(0) =~= Seq::<Seq<char>>::empty());
        }
        while j <= i
            invariant
                ps == strings_view(prefixes@),
                i < prefixes.len(),
                p@ == prefixes@[i as int]@,
                j <= i + 1,
                count == count_of(ps.take(j as int), p@),
                count <= j,
            decreases i + 1 - j,
        {
            proof {
                assert(ps.take(j + 1).drop_last() =~= ps.take(j as int));
                assert(ps[j as int] == prefixes@[j as int]@);
            }
            if crate::text::str_eq(prefixes[j].as_str(), prefixes[i].as_str()) {
                count = count + 1;
            }
            j = j + 1;
        }
        let mut t = p.clone();
        let d = decimal_chars(count);
        push_all(&mut t, d.as_slice());
        out.push(string_of(t.as_slice()));
        i = i + 1;
    }
    out
}


// ---------------------------------------------------------------------------
// Checking the KiCad links of a design
// ---------------------------------------------------------------------------

/// A KiCad symbol identifier `library:name` with both parts non-empty.
pub open spec fn valid_symbol_id(s: Seq<char>) -> bool {
    let i = index_of_from(s, ':', 0);
    0 < i && i + 1 < s.len()
}

/// The pin number mapped to `port`: that of the first pair naming it.
pub open spec fn pin_number(pins: Seq<(String, String)>, port: Seq<char>) -> Option<Seq<char>>
    decreases pins.len(),
{
    if pins.len() == 0 {
        None
    } else {
        match pin_number(pins.drop_last(), port) {
            Some(n) => Some(n),
            None => if pins.last().0@ == port {
                Some(pins.last().1@)
            } else {
                None
            },
        }
    }
}

pub open spec fn no_link_message(kind: Seq<char>) -> Seq<char> {
    "component kind `"@ + kind
        + "` has no KiCad link; add kicad: { symbol, footprint, pins } to use_symbol"@
}

pub open spec fn invalid_symbol_message(symbol: Seq<char>) -> Seq<char> {
    "invalid KiCad symbol identifier `"@ + symbol + "`"@
}

pub open spec fn missing_pin_message(kind: Seq<char>, port: Seq<char>) -> Seq<char> {
    "component `"@ + kind + "` has no KiCad pin mapping for port `"@ + port + "`"@
}

pub open spec fn repeated_pin_message(kind: Seq<char>) -> Seq<char> {
    "component `"@ + kind + "` has an empty or repeated KiCad pin number"@
}

/// Checks the ports of a component in order: each needs a non-empty pin
/// number that no earlier port has; on success, the pin numbers used.
pub open spec fn ports_check(kind: Seq<char>, pins: Seq<(String, String)>, ports: Seq<(String, u64)>) -> Result<
    Set<Seq<char>>,
    Seq<char>,
>
    decreases ports.len(),
{
    if ports.len() == 0 {
        Ok(Set::empty())
    } else {
        match ports_check(kind, pins, ports.drop_last()) {
            Err(e) => Err(e),
            Ok(seen) => match pin_number(pins, ports.last().0@) {
                None => Err(missing_pin_message(kind, ports.last().0@)),
                Some(num) => if num.len() == 0 || seen.contains(num) {
                    Err(repeated_pin_message(kind))
                } else {
                    Ok(seen.insert(num))
                },
            },
        }
    }
}

/// What is wrong with the KiCad link of a component, if anything.
pub open spec fn component_link_error(c: Component) -> Option<Seq<char>> {
    match c.kicad {
        None => Some(no_link_message(c.kind@)),
        Some(link) => if !valid_symbol_id(link.symbol@) {
            Some(invalid_symbol_message(link.symbol@))
        } else {
            match ports_check(c.kind@, link.pins@, c.ports@) {
                Err(e) => Some(e),
                Ok(_) => None,
            }
        },
    }
}

/// The error of the first component whose KiCad link is unusable.
pub open spec fn links_error(cs: Seq<Component>) -> Option<Seq<char>>
    decreases cs.len(),
{
    if cs.len() == 0 {
        None
    } else {
        match links_error(cs.drop_last()) {
            Some(e) => Some(e),
            None => component_link_error(cs.last()),
        }
    }
}

fn find_pin<'a>(pins: &'a Vec<(String, String)>, port: &str) -> (r: Option<&'a String>)
    ensures
        match r {
            Some(n) => pin_number(pins@, port@) == Some(n@),
            None => pin_number(pins@, port@) is None,
        },
{
    let mut i: usize = 0;
    proof {
        assert(pins@.take(0) =~= Seq::<(String, String)>::empty());
    }
    while i < pins.len()
        invariant
            i <= pins@.len(),
            pin_number(pins@.take(i as int), port@) is None,
        decreases pins@.len() - i,
    {
        proof {
            assert(pins@.take(i + 1).drop_last() =~= pins@.take(i as int));
        }
        if str_eq(pins[i].0.as_str(), port) {
            proof {
                lemma_pin_number_prefix(pins@, port@, i as int + 1);
            }
            return Some(&pins[i].1);
        }
        i = i + 1;
    }
    proof {
        assert(pins@.take(pins@.len() as int) =~= pins@);
    }
    None
}

proof fn lemma_pin_number_prefix(pins: Seq<(String, String)>, port: Seq<char>, n: int)
    requires
        0 <= n <= pins.len(),
        pin_number(pins.take(n), port) is Some,
    ensures
        pin_number(pins, port) == pin_number(pins.take(n), port),
    decreases pins.len() - n,
{
    if n < pins.len() {
        assert(pins.take(n + 1).drop_last() =~= pins.take(n));
        lemma_pin_number_prefix(pins, port, n + 1);
    } else {
        assert(pins.take(n) =~= pins);
    }
}

fn contains_text(v: &Vec<String>, t: &str) -> (r: bool)
    ensures
        r == strings_view(v@).contains(t@),
{
    let mut i: usize = 0;
    while i < v.len()
        invariant
            i <= v@.len(),
            forall|j: int| 0 <= j < i ==> strings_view(v@)[j] != t@,
        decreases v@.len() - i,
    {
        if str_eq(v[i].as_str(), t) {
            assert(strings_view(v@)[i as int] == t@);
            return true;
        }
        i = i + 1;
    }
    false
}

fn component_link_check(c: &Component) -> (r: Option<String>)
    ensures
        match r {
            Some(m) => component_link_error(*c) == Some(m@),
            None => component_link_error(*c) is None,
        },
{
    let kind = chars_of(c.kind.as_str());
    match &c.kicad {
        None => Some(
            message_parts(
                "component kind `",
                kind.as_slice(),
                "` has no KiCad link; add kicad: { symbol, footprint, pins } to use_symbol",
            ),
        ),
        Some(link) => {
            let symbol = chars_of(link.symbol.as_str());
            let i = scan_to(symbol.as_slice(), ':', 0);
            if !(0 < i && i < symbol.len() && i + 1 < symbol.len()) {
                return Some(message_parts("invalid KiCad symbol identifier `", symbol.as_slice(), "`"));
            }
            let mut seen: Vec<String> = Vec::new();
            let mut j: usize = 0;
            proof {
                assert(c.ports@.take(0) =~= Seq::<(String, u64)>::empty());
                assert(strings_view(seen@).to_set() =~= Set::<Seq<char>>::empty());
            }
            while j < c.ports.len()
                invariant
                    kind@ == c.kind@,
                    c.kicad == Some(*link),
                    valid_symbol_id(link.symbol@),
                    j <= c.ports@.len(),
                    ports_check(c.kind@, link.pins@, c.ports@.take(j as int)) == Ok::<
                        Set<Seq<char>>,
                        Seq<char>,
                    >(strings_view(seen@).to_set()),
                decreases c.ports@.len() - j,
            {
                proof {
                    assert(c.ports@.take(j + 1).drop_last() =~= c.ports@.take(j as int));
                    assert(c.ports@.take(j + 1).last() == c.ports@[j as int]);
                }
                let port = &c.ports[j].0;
                match find_pin(&link.pins, port.as_str()) {
                    None => {
                        let p = chars_of(port.as_str());
                        let mut out = chars_of("component `");
                        push_all(&mut out, kind.as_slice());
                        let middle = chars_of("` has no KiCad pin mapping for port `");
                        push_all(&mut out, middle.as_slice());
                        push_all(&mut out, p.as_slice());
                        let tail = chars_of("`");
                        push_all(&mut out, tail.as_slice());
                        assert(out@ =~= missing_pin_message(c.kind@, port@));
                        proof {
                            lemma_ports_check_prefix(c.kind@, link.pins@, c.ports@, j as int + 1);
                        }
                        return Some(string_of(out.as_slice()));
                    },
                    Some(number) => {
                        let seen_before = contains_text(&seen, number.as_str());
                        proof {
                            if seen_before {
                                assert(strings_view(seen@).to_set().contains(number@));
                            } else {
                                assert(!strings_view(seen@).to_set().contains(number@));
                            }
                        }
                        let digits = chars_of(number.as_str());
                        if digits.len() == 0 || seen_before {
                            proof {
                                lemma_ports_check_prefix(c.kind@, link.pins@, c.ports@, j as int + 1);
                            }
                            return Some(
                                message_parts(
                                    "component `",
                                    kind.as_slice(),
                                    "` has an empty or repeated KiCad pin number",
                                ),
                            );
                        }
                        let ghost before = strings_view(seen@);
                        seen.push(number.clone());
                        proof {
                            assert(strings_view(seen@) =~= before.push(number@));
                            before.lemma_push_to_set_commute(number@);
                        }
                    },
                }
                j = j + 1;
            }
            proof {
                assert(c.ports@.take(c.ports@.len() as int) =~= c.ports@);
            }
            None
        },
    }
}

/// Checks that every component can be exported to KiCad: it has a link
/// with a `library:name` symbol, and each port maps to a non-empty pin number
/// that no other port of the component uses.
pub fn ensure_links(circuit: &CircuitDesign) -> (r: Result<(), String>)
    requires
        forall|i: int|
            0 <= i < circuit.components@.len() ==> component_wf(#[trigger] circuit.components@[i]),
    ensures
        match r {
            Ok(()) => links_error(circuit.components@) is None,
            Err(m) => links_error(circuit.components@) == Some(m@),
        },
{
    let mut k: usize = 0;
    proof {
        assert(circuit.components@.take(0) =~= Seq::<Component>::empty());
    }
    while k < circuit.components.len()
        invariant
            k <= circuit.components@.len(),
            links_error(circuit.components@.take(k as int)) is None,
        decreases circuit.components@.len() - k,
    {
        proof {
            assert(circuit.components@.take(k + 1).drop_last() =~= circuit.components@.take(k as int));
            assert(circuit.components@.take(k + 1).last() == circuit.components@[k as int]);
        }
        match component_link_check(&circuit.components[k]) {
            Some(m) => {
                proof {
                    lemma_links_error_prefix(circuit.components@, k as int + 1);
                }
                return Err(m);
            },
            None => {},
        }
        k = k + 1;
    }
    proof {
        assert(circuit.components@.take(circuit.components@.len() as int) =~= circuit.components@);
    }
    Ok(())
}

proof fn lemma_ports_check_prefix(
    kind: Seq<char>,
    pins: Seq<(String, String)>,
    ports: Seq<(String, u64)>,
    n: int,
)
    requires
        0 <= n <= ports.len(),
        ports_check(kind, pins, ports.take(n)) is Err,
    ensures
        ports_check(kind, pins, ports) == ports_check(kind, pins, ports.take(n)),
    decreases ports.len() - n,
{
    if n < ports.len() {
        assert(ports.take(n + 1).drop_last() =~= ports.take(n));
        lemma_ports_check_prefix(kind, pins, ports, n + 1);
    } else {
        assert(ports.take(n) =~= ports);
    }
}

proof fn lemma_links_error_prefix(cs: Seq<Component>, n: int)
    requires
        0 <= n <= cs.len(),
        links_error(cs.take(n)) is Some,
    ensures
        links_error(cs) == links_error(cs.take(n)),
    decreases cs.len() - n,
{
    if n < cs.len() {
        assert(cs.take(n + 1).drop_last() =~= cs.take(n));
        lemma_links_error_prefix(cs, n + 1);
    } else {
        assert(cs.take(n) =~= cs);
    }
}

/// The reference prefix of a component whose symbol is `library`: the
/// `Reference` property of its library definition when one was found and
/// declares it, and otherwise the prefix guessed from the identifier.
pub fn component_prefix(library: &str, definition: Option<&str>) -> (r: Result<String, String>)
    ensures
        match definition {
            None => r matches Ok(p) && p@ == reference_prefix_spec(library@),
            Some(d) => match parse_spec(d@) {
                Err(u) => r matches Err(m) && m@ == u,
                Ok(e) => r matches Ok(p) && p@ == match first_reference(items_of(e)) {
                    Some(t) => t,
                    None => reference_prefix_spec(library@),
                },
            },
        },
{
    match definition {
        None => Ok(reference_prefix(library)),
        Some(d) => match reference_property(d) {
            Err(m) => Err(m),
            Ok(Some(p)) => Ok(p),
            Ok(None) => Ok(reference_prefix(library)),
        },
    }
}

} // verus!
