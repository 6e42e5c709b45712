//! The language-server side of the editor support: editor positions (line
//! and UTF-16 column) and byte offsets, hover texts, completion items and
//! the semantic tokens of a document.
use vstd::prelude::*;
use vstd::string::StringSliceAdditionalSpecFns;
use crate::highlighting::{char_tokens, highlight, lemma_tokens_ordered, tokens, HighlightKind};
use crate::text::{
    chars_of, lemma_byte_offset_end, lemma_byte_offset_mono, lemma_byte_offset_step,
    lemma_text_less_total, lemma_text_less_trans, len_utf8, push_all, slice_chars, str_eq, str_less,
    string_of, text_less, utf8_len,
};

verus! {

// ---------------------------------------------------------------------------
// Positions
// ---------------------------------------------------------------------------

/// The number of UTF-16 code units of a character.
pub open spec fn utf16_len(c: char) -> nat {
    if (c as u32) < 0x10000 {
        1
    } else {
        2
    }
}

/// The number of UTF-16 code units of a text.
pub open spec fn utf16_count(s: Seq<char>) -> nat
    decreases s.len(),
{
    if s.len() == 0 {
        0
    } else {
        utf16_count(s.drop_last()) + utf16_len(s.last())
    }
}

/// The number of line breaks in a text.
pub open spec fn newlines(s: Seq<char>) -> nat
    decreases s.len(),
{
    if s.len() == 0 {
        0
    } else {
        newlines(s.drop_last()) + if s.last() == '\n' {
            1nat
        } else {
            0nat
        }
    }
}

/// The text after the last line break.
pub open spec fn last_line(s: Seq<char>) -> Seq<char>
    decreases s.len(),
{
    if s.len() == 0 {
        s
    } else if s.last() == '\n' {
        Seq::empty()
    } else {
        last_line(s.drop_last()).push(s.last())
    }
}

/// The number of characters, from index `k` on, that end at or before byte
/// `b`, plus `k`: the character boundary at or before `b`.
pub open spec fn floor_from(s: Seq<char>, b: int, k: int) -> int
    decreases s.len() - k,
{
    if 0 <= k < s.len() && crate::text::byte_offset(s, k + 1) <= b {
        floor_from(s, b, k + 1)
    } else {
        k
    }
}

/// The editor position of byte `b` of a text, rounded down to a character
/// boundary: its line and its UTF-16 column, each as a 32-bit count.
pub open spec fn position_spec(s: Seq<char>, b: int) -> (u32, u32) {
    let p = s.take(floor_from(s, b, 0));
    (newlines(p) as u32, utf16_count(last_line(p)) as u32)
}

fn len_utf16(c: char) -> (r: usize)
    ensures
        r == utf16_len(c),
{
    if (c as u32) < 0x10000 {
        1
    } else {
        2
    }
}

/// The editor position (line, UTF-16 column) of a byte of the source.
pub fn position(source: &str, byte: usize) -> (r: (u32, u32))
    requires
        source.spec_bytes().len() <= usize::MAX,
    ensures
        r == position_spec(source@, byte as int),
{
    let s = chars_of(source);
    proof {
        lemma_byte_offset_end(s@);
        assert(source.spec_bytes() == vstd::utf8::encode_utf8(source@));
        assert(s@.take(0) =~= Seq::<char>::empty());
    }
    let ghost total = crate::text::byte_offset(s@, s@.len() as int);
    let mut k: usize = 0;
    let mut at: usize = 0;
    let mut lines: usize = 0;
    let mut col: usize = 0;
    loop
        invariant
            s@ == source@,
            total == crate::text::byte_offset(s@, s@.len() as int),
            total <= usize::MAX,
            k <= s@.len(),
            at == crate::text::byte_offset(s@, k as int),
            floor_from(s@, byte as int, 0) == floor_from(s@, byte as int, k as int),
            lines == newlines(s@.take(k as int)),
            lines <= k,
            col == utf16_count(last_line(s@.take(k as int))),
            col <= at,
        ensures
            floor_from(s@, byte as int, 0) == k,
            lines == newlines(s@.take(k as int)),
            col == utf16_count(last_line(s@.take(k as int))),
        decreases s@.len() - k,
    {
        if k >= s.len() {
            break;
        }
        let c = s[k];
        let w = len_utf8(c);
        proof {
            lemma_byte_offset_step(s@, k as int);
            lemma_byte_offset_mono(s@, k + 1, s@.len() as int);
        }
        if at + w > byte {
            break;
        }
        proof {
            assert(s@.take(k + 1).drop_last() =~= s@.take(k as int));
            assert(s@.take(k + 1).last() == c);
            if c != '\n' {
                assert(last_line(s@.take(k as int)).push(c).drop_last() =~= last_line(s@.take(k as int)));
            }
        }
        if c == '\n' {
            lines = lines + 1;
            col = 0;
        } else {
            col = col + len_utf16(c);
        }
        at = at + w;
        k = k + 1;
    }
    (#[verifier::truncate] (lines as u32), #[verifier::truncate] (col as u32))
}

/// The index of line break number `n` (from zero) at or after index `k`.
pub open spec fn nth_newline(s: Seq<char>, n: int, k: int) -> Option<int>
    decreases s.len() - k,
{
    if !(0 <= k < s.len()) {
        None
    } else if s[k] == '\n' {
        if n <= 0 {
            Some(k)
        } else {
            nth_newline(s, n - 1, k + 1)
        }
    } else {
        nth_newline(s, n, k + 1)
    }
}

/// The index at which line `line` (from zero) starts.
pub open spec fn line_start(s: Seq<char>, line: int) -> Option<int> {
    if line == 0 {
        Some(0)
    } else {
        match nth_newline(s, line - 1, 0) {
            Some(i) => Some(i + 1),
            None => None,
        }
    }
}

/// The index of the line break ending the line that holds index `k`, or
/// the end of the text.
pub open spec fn line_stop(s: Seq<char>, k: int) -> int
    decreases s.len() - k,
{
    if !(0 <= k < s.len()) {
        s.len() as int
    } else if s[k] == '\n' {
        k
    } else {
        line_stop(s, k + 1)
    }
}

proof fn lemma_line_stop_after(s: Seq<char>, k: int)
    requires
        0 <= k <= s.len(),
    ensures
        k <= line_stop(s, k) <= s.len(),
    decreases s.len() - k,
{
    if k < s.len() && s[k] != '\n' {
        lemma_line_stop_after(s, k + 1);
    }
}

/// Walking a line from index `k` to `end` with `acc` UTF-16 units behind:
/// the index of the character that starts exactly `target` units into the
/// line (the end of the line when it has exactly `target` units), or
/// nothing when `target` falls inside a character or past the line.
pub open spec fn column_walk(s: Seq<char>, k: int, end: int, acc: int, target: int) -> Option<int>
    decreases end - k,
{
    if acc == target {
        Some(k)
    } else if acc > target || k >= end {
        None
    } else {
        column_walk(s, k + 1, end, acc + utf16_len(s[k]), target)
    }
}

/// The character index of an editor position (line, UTF-16 column).
pub open spec fn position_index(s: Seq<char>, line: int, character: int) -> Option<int> {
    match line_start(s, line) {
        Some(start) => column_walk(s, start, line_stop(s, start), 0, character),
        None => None,
    }
}

/// The byte offset of an editor position: none when the text has no such
/// line, when the line is shorter than the column, or when the column falls
/// inside a character (between the two UTF-16 units of a surrogate pair).
pub fn byte_offset(source: &str, line: u32, character: u32) -> (r: Option<usize>)
    requires
        source.spec_bytes().len() <= usize::MAX,
    ensures
        match position_index(source@, line as int, character as int) {
            Some(k) => r matches Some(x) && x as int == crate::text::byte_offset(source@, k),
            None => r is None,
        },
{
    let s = chars_of(source);
    proof {
        lemma_byte_offset_end(s@);
        assert(source.spec_bytes() == vstd::utf8::encode_utf8(source@));
    }
    let ghost total = crate::text::byte_offset(s@, s@.len() as int);
    let ghost sv = s@;
    // find where the line starts
    let mut k: usize = 0;
    let mut at: usize = 0;
    if line > 0 {
        let mut seen: u32 = 0;
        loop
            invariant_except_break
                nth_newline(sv, line - 1, 0) == nth_newline(sv, line - 1 - seen, k as int),
            invariant
                sv == s@,
                sv == source@,
                total == crate::text::byte_offset(sv, sv.len() as int),
                total <= usize::MAX,
                0 < line,
                seen < line,
                k <= sv.len(),
                at == crate::text::byte_offset(sv, k as int),
            ensures
                k <= sv.len(),
                at == crate::text::byte_offset(sv, k as int),
                line_start(sv, line as int) == Some(k as int),
            decreases sv.len() - k,
        {
            if k >= s.len() {
                return None;
            }
            let c = s[k];
            proof {
                lemma_byte_offset_step(sv, k as int);
                lemma_byte_offset_mono(sv, k + 1, sv.len() as int);
            }
            at = at + len_utf8(c);
            k = k + 1;
            if c == '\n' {
                if seen + 1 == line {
                    break;
                }
                seen = seen + 1;
            }
        }
    }
    let ghost start = k as int;
    assert(line_start(sv, line as int) == Some(start));
    let mut acc: usize = 0;
    let target = character as usize;
    loop
        invariant
            sv == s@,
            sv == source@,
            total == crate::text::byte_offset(sv, sv.len() as int),
            total <= usize::MAX,
            line_start(sv, line as int) == Some(start),
            0 <= start <= k <= sv.len(),
            at == crate::text::byte_offset(sv, k as int),
            acc + crate::text::byte_offset(sv, start) <= at,
            target == character,
            line_stop(sv, start) == line_stop(sv, k as int),
            position_index(sv, line as int, character as int) == column_walk(
                sv,
                k as int,
                line_stop(sv, k as int),
                acc as int,
                target as int,
            ),
        decreases sv.len() - k,
    {
        if acc == target {
            return Some(at);
        }
        if acc > target || k >= s.len() || s[k] == '\n' {
            return None;
        }
        proof {
            lemma_line_stop_after(sv, k + 1);
        }
        let c = s[k];
        proof {
            lemma_byte_offset_step(sv, k as int);
            lemma_byte_offset_mono(sv, k + 1, sv.len() as int);
        }
        acc = acc + len_utf16(c);
        at = at + len_utf8(c);
        k = k + 1;
    }
}


proof fn lemma_newlines_concat(a: Seq<char>, b: Seq<char>)
    ensures
        newlines(a + b) == newlines(a) + newlines(b),
    decreases b.len(),
{
    if b.len() == 0 {
        assert(a + b =~= a);
    } else {
        lemma_newlines_concat(a, b.drop_last());
        assert((a + b).drop_last() =~= a + b.drop_last());
    }
}

proof fn lemma_utf16_concat(a: Seq<char>, b: Seq<char>)
    ensures
        utf16_count(a + b) == utf16_count(a) + utf16_count(b),
    decreases b.len(),
{
    if b.len() == 0 {
        assert(a + b =~= a);
    } else {
        lemma_utf16_concat(a, b.drop_last());
        assert((a + b).drop_last() =~= a + b.drop_last());
    }
}

proof fn lemma_utf16_positive(a: Seq<char>)
    ensures
        utf16_count(a) >= a.len(),
    decreases a.len(),
{
    if a.len() > 0 {
        lemma_utf16_positive(a.drop_last());
    }
}

/// The last line of a text is a suffix without line breaks, preceded by a
/// line break when it is not the whole text.
proof fn lemma_last_line(p: Seq<char>)
    ensures
        last_line(p).len() <= p.len(),
        last_line(p) == p.subrange(p.len() - last_line(p).len(), p.len() as int),
        forall|i: int| 0 <= i < last_line(p).len() ==> #[trigger] last_line(p)[i] != '\n',
        last_line(p).len() < p.len() ==> p[p.len() - last_line(p).len() - 1] == '\n',
    decreases p.len(),
{
    if p.len() > 0 && p.last() != '\n' {
        let q = p.drop_last();
        lemma_last_line(q);
        let l = last_line(q);
        assert(last_line(p) == l.push(p.last()));
        assert(last_line(p) =~= p.subrange(p.len() - last_line(p).len(), p.len() as int));
        assert forall|i: int| 0 <= i < last_line(p).len() implies #[trigger] last_line(p)[i] != '\n' by {
            if i < l.len() {
                assert(last_line(p)[i] == l[i]);
            }
        }
        if last_line(p).len() < p.len() {
            assert(p[p.len() - last_line(p).len() - 1] == q[q.len() - l.len() - 1]);
        }
    } else if p.len() > 0 {
        assert(p.subrange(p.len() as int, p.len() as int) =~= Seq::<char>::empty());
    } else {
        assert(p.subrange(0, 0) =~= p);
    }
}

proof fn lemma_no_newlines(q: Seq<char>)
    requires
        forall|i: int| 0 <= i < q.len() ==> #[trigger] q[i] != '\n',
    ensures
        newlines(q) == 0,
    decreases q.len(),
{
    if q.len() > 0 {
        lemma_no_newlines(q.drop_last());
    }
}

/// The character at which line break number `n` at or after `j` lies.
proof fn lemma_nth_newline(s: Seq<char>, j: int, m: int, n: int)
    requires
        0 <= j <= m < s.len(),
        s[m] == '\n',
        newlines(s.subrange(j, m)) == n,
    ensures
        nth_newline(s, n, j) == Some(m),
    decreases m - j,
{
    if j < m {
        assert(s.subrange(j, m) =~= seq![s[j]] + s.subrange(j + 1, m));
        lemma_newlines_concat(seq![s[j]], s.subrange(j + 1, m));
        let one = seq![s[j]];
        assert(one.drop_last() =~= Seq::<char>::empty());
        assert(one.last() == s[j]);
        assert(newlines(one) == newlines(one.drop_last()) + if s[j] == '\n' { 1nat } else { 0nat });
        lemma_nth_newline(s, j + 1, m, if s[j] == '\n' { n - 1 } else { n });
    } else {
        assert(s.subrange(j, m) =~= Seq::<char>::empty());
    }
}

proof fn lemma_line_stop_no_break(s: Seq<char>, j: int, k: int)
    requires
        0 <= j <= k <= s.len(),
        forall|i: int| j <= i < k ==> #[trigger] s[i] != '\n',
    ensures
        line_stop(s, j) == line_stop(s, k),
    decreases k - j,
{
    if j < k {
        lemma_line_stop_no_break(s, j + 1, k);
    }
}

proof fn lemma_walk_reaches(s: Seq<char>, st: int, j: int, k: int, stop: int)
    requires
        0 <= st <= j <= k <= stop <= s.len(),
    ensures
        column_walk(s, j, stop, utf16_count(s.subrange(st, j)) as int, utf16_count(s.subrange(st, k)) as int)
            == Some(k),
    decreases k - j,
{
    if j < k {
        assert(s.subrange(st, k) =~= s.subrange(st, j) + s.subrange(j, k));
        lemma_utf16_concat(s.subrange(st, j), s.subrange(j, k));
        lemma_utf16_positive(s.subrange(j, k));
        assert(s.subrange(st, j + 1).drop_last() =~= s.subrange(st, j));
        lemma_walk_reaches(s, st, j + 1, k, stop);
    }
}

proof fn lemma_floor_at(s: Seq<char>, k: int, j: int)
    requires
        0 <= j <= k <= s.len(),
    ensures
        floor_from(s, crate::text::byte_offset(s, k) as int, j) == k,
    decreases k - j,
{
    if j < k {
        lemma_byte_offset_mono(s, j + 1, k);
        lemma_floor_at(s, k, j + 1);
    } else if k < s.len() {
        lemma_byte_offset_step(s, k);
        crate::text::lemma_scalar_len(s[k]);
    }
}

/// Going from a character to the editor position of its first byte and
/// back finds the same character, whenever its line and column numbers fit
/// in 32 bits.
pub proof fn lemma_position_roundtrip(s: Seq<char>, k: int)
    requires
        0 <= k <= s.len(),
        newlines(s.take(k)) < 0x1_0000_0000,
        utf16_count(last_line(s.take(k))) < 0x1_0000_0000,
    ensures
        ({
            let pos = position_spec(s, crate::text::byte_offset(s, k) as int);
            position_index(s, pos.0 as int, pos.1 as int) == Some(k)
        }),
{
    lemma_floor_at(s, k, 0);
    let p = s.take(k);
    let q = last_line(p);
    lemma_last_line(p);
    let st = k - q.len();
    let line = newlines(p);
    assert(q =~= s.subrange(st, k));
    assert(p =~= s.take(st) + q);
    lemma_no_newlines(q);
    lemma_newlines_concat(s.take(st), q);
    if line == 0 {
        if st > 0 {
            assert(s.take(st) =~= s.take(st - 1).push('\n'));
        }
        assert(st == 0);
    } else {
        if st == 0 {
            assert(s.take(st) =~= Seq::<char>::empty());
        }
        assert(st > 0);
        assert(s[st - 1] == '\n');
        assert(s.take(st) =~= s.subrange(0, st - 1).push('\n'));
        assert(s.subrange(0, st - 1).push('\n').drop_last() =~= s.subrange(0, st - 1));
        lemma_nth_newline(s, 0, st - 1, line - 1);
    }
    assert(line_start(s, line as int) == Some(st));
    assert forall|i: int| st <= i < k implies #[trigger] s[i] != '\n' by {
        assert(q[i - st] == s[i]);
    }
    lemma_line_stop_no_break(s, st, k);
    lemma_line_stop_after(s, k);
    let stop = line_stop(s, st);
    assert(s.subrange(st, st) =~= Seq::<char>::empty());
    lemma_walk_reaches(s, st, st, k, stop);
}

// ---------------------------------------------------------------------------
// Hover
// ---------------------------------------------------------------------------

/// What hovering over a word of a given kind explains, if anything.
pub open spec fn hover_doc(word: Seq<char>, kind: HighlightKind) -> Option<Seq<char>> {
    if word == "let"@ {
        Some("Defines a value by matching a pattern against an expression."@)
    } else if word == "type"@ {
        Some("Defines a named Etch type."@)
    } else if word == "return"@ {
        Some("Returns a value from the current block."@)
    } else if word == "match"@ {
        Some("Evaluates pattern and optional guard arms in order."@)
    } else if word == "if"@ {
        Some("Introduces a condition on a match arm."@)
    } else if word == "from"@ {
        Some("Introduces the source path of an import."@)
    } else if word == "import"@ {
        Some("Imports names selected by a pattern."@)
    } else if word == "export"@ {
        Some("Makes a top-level definition available to importing files."@)
    } else if word == "Number"@ {
        Some("The numeric type. It may carry a unit symbol, for example `Number(symbol: \"V\")`."@)
    } else if word == "String"@ {
        Some("The UTF-8 string type."@)
    } else if word == "Bool"@ {
        Some("The Boolean type."@)
    } else if word == "Node"@ {
        Some("A circuit connection node."@)
    } else if word == "None"@ {
        Some("The type of no value."@)
    } else if word == "Never"@ {
        Some("The type of an expression that does not produce a value."@)
    } else if word == "true"@ || word == "false"@ {
        Some("A Boolean literal."@)
    } else if kind == HighlightKind::Number {
        Some("A numeric literal, optionally followed by an SI prefix and unit."@)
    } else if kind == HighlightKind::Identifier || kind == HighlightKind::Type {
        Some("A symbol in the current Etch document."@)
    } else {
        None
    }
}

/// The hover text of a word: the word as an Etch code block, then what it
/// means.
pub open spec fn hover_spec(word: Seq<char>, kind: HighlightKind) -> Option<Seq<char>> {
    match hover_doc(word, kind) {
        Some(d) => Some("```etch\n"@ + word + "\n```\n\n"@ + d),
        None => None,
    }
}

/// Every identifier, type name and number has a hover, the same for a word
/// whether it is taken as an identifier or as a type, and a hover always
/// starts with the word as an Etch code block. A word longer than any
/// documented one, taken as an identifier or a type, is described as a
/// symbol of the document.
pub proof fn lemma_symbols_have_hovers(word: Seq<char>, kind: HighlightKind)
    ensures
        (kind == HighlightKind::Identifier || kind == HighlightKind::Type || kind
            == HighlightKind::Number) ==> hover_spec(word, kind) is Some,
        hover_spec(word, HighlightKind::Identifier) == hover_spec(word, HighlightKind::Type),
        hover_spec(word, kind) matches Some(t) ==> t.len() >= 14 + word.len() && t.subrange(
            0,
            8 + word.len() + 6 as int,
        ) == "```etch\n"@ + word + "\n```\n\n"@,
        (word.len() >= 7 && (kind == HighlightKind::Identifier || kind == HighlightKind::Type))
            ==> hover_spec(word, kind) == Some(
            "```etch\n"@ + word + "\n```\n\n"@ + "A symbol in the current Etch document."@,
        ),
{
    reveal_strlit("```etch\n");
    reveal_strlit("\n```\n\n");
    match hover_spec(word, kind) {
        Some(t) => {
            let d = hover_doc(word, kind)->0;
            assert(t == "```etch\n"@ + word + "\n```\n\n"@ + d);
            assert(t.subrange(0, 8 + word.len() + 6 as int) =~= "```etch\n"@ + word + "\n```\n\n"@);
        },
        None => {},
    }
    if word.len() >= 7 {
        reveal_strlit("let");
        reveal_strlit("type");
        reveal_strlit("return");
        reveal_strlit("match");
        reveal_strlit("if");
        reveal_strlit("from");
        reveal_strlit("import");
        reveal_strlit("export");
        reveal_strlit("Number");
        reveal_strlit("String");
        reveal_strlit("Bool");
        reveal_strlit("Node");
        reveal_strlit("None");
        reveal_strlit("Never");
        reveal_strlit("true");
        reveal_strlit("false");
    }
}

fn hover_doc_exec(word: &str, kind: HighlightKind) -> (r: Option<&'static str>)
    ensures
        match hover_doc(word@, kind) {
            Some(d) => r matches Some(x) && x@ == d,
            None => r is None,
        },
{
    if str_eq(word, "let") {
        Some("Defines a value by matching a pattern against an expression.")
    } else if str_eq(word, "type") {
        Some("Defines a named Etch type.")
    } else if str_eq(word, "return") {
        Some("Returns a value from the current block.")
    } else if str_eq(word, "match") {
        Some("Evaluates pattern and optional guard arms in order.")
    } else if str_eq(word, "if") {
        Some("Introduces a condition on a match arm.")
    } else if str_eq(word, "from") {
        Some("Introduces the source path of an import.")
    } else if str_eq(word, "import") {
        Some("Imports names selected by a pattern.")
    } else if str_eq(word, "export") {
        Some("Makes a top-level definition available to importing files.")
    } else if str_eq(word, "Number") {
        Some("The numeric type. It may carry a unit symbol, for example `Number(symbol: \"V\")`.")
    } else if str_eq(word, "String") {
        Some("The UTF-8 string type.")
    } else if str_eq(word, "Bool") {
        Some("The Boolean type.")
    } else if str_eq(word, "Node") {
        Some("A circuit connection node.")
    } else if str_eq(word, "None") {
        Some("The type of no value.")
    } else if str_eq(word, "Never") {
        Some("The type of an expression that does not produce a value.")
    } else if str_eq(word, "true") || str_eq(word, "false") {
        Some("A Boolean literal.")
    } else if kind == HighlightKind::Number {
        Some("A numeric literal, optionally followed by an SI prefix and unit.")
    } else if kind == HighlightKind::Identifier || kind == HighlightKind::Type {
        Some("A symbol in the current Etch document.")
    } else {
        None
    }
}

/// The hover text of a word of a given kind: the word as an Etch code
/// block and what it means; none for words that mean nothing in particular.
pub fn hover_text(word: &str, kind: HighlightKind) -> (r: Option<String>)
    ensures
        match hover_spec(word@, kind) {
            Some(t) => r matches Some(x) && x@ == t,
            None => r is None,
        },
{
    match hover_doc_exec(word, kind) {
        Some(doc) => {
            let mut out = chars_of("```etch\n");
            let w = chars_of(word);
            push_all(&mut out, w.as_slice());
            let mid = chars_of("\n```\n\n");
            push_all(&mut out, mid.as_slice());
            let d = chars_of(doc);
            push_all(&mut out, d.as_slice());
            Some(string_of(out.as_slice()))
        },
        None => None,
    }
}

// ---------------------------------------------------------------------------
// Completions
// ---------------------------------------------------------------------------

/// What a completion item stands for.
#[derive(Clone, Copy, Debug, PartialEq, Eq, Structural)]
pub enum CompletionKind {
    Keyword,
    Value,
    Class,
    Variable,
}

/// A completion item: the text it inserts, its kind and a short note.
#[derive(Debug)]
pub struct Completion {
    pub label: String,
    pub kind: CompletionKind,
    pub detail: String,
}

/// A completion item as a value.
pub open spec fn completion_view(c: Completion) -> (Seq<char>, CompletionKind, Seq<char>) {
    (c.label@, c.kind, c.detail@)
}

/// The keywords, literals and built-in types offered in every document.
pub open spec fn builtin_completions() -> Seq<(Seq<char>, CompletionKind, Seq<char>)> {
    seq![
        ("let"@, CompletionKind::Keyword, "Define a value"@),
        ("type"@, CompletionKind::Keyword, "Define a type"@),
        ("return"@, CompletionKind::Keyword, "Return from a block"@),
        ("match"@, CompletionKind::Keyword, "Pattern-match a value"@),
        ("if"@, CompletionKind::Keyword, "Add a match guard"@),
        ("from"@, CompletionKind::Keyword, "Start an import"@),
        ("import"@, CompletionKind::Keyword, "Import selected names"@),
        ("export"@, CompletionKind::Keyword, "Export a definition"@),
        ("true"@, CompletionKind::Value, "Boolean literal"@),
        ("false"@, CompletionKind::Value, "Boolean literal"@),
        ("Number"@, CompletionKind::Class, "Built-in Etch type"@),
        ("String"@, CompletionKind::Class, "Built-in Etch type"@),
        ("Bool"@, CompletionKind::Class, "Built-in Etch type"@),
        ("Node"@, CompletionKind::Class, "Built-in Etch type"@),
        ("None"@, CompletionKind::Class, "Built-in Etch type"@),
        ("Never"@, CompletionKind::Class, "Built-in Etch type"@),
    ]
}

/// The items of the names of a document: each identifier and type name
/// among its tokens, in order.
pub open spec fn document_completions(s: Seq<char>, ts: Seq<(int, int, HighlightKind)>) -> Seq<
    (Seq<char>, CompletionKind, Seq<char>),
>
    decreases ts.len(),
{
    if ts.len() == 0 {
        Seq::empty()
    } else {
        let before = document_completions(s, ts.drop_last());
        let t = ts.last();
        if t.2 == HighlightKind::Identifier {
            before.push((s.subrange(t.0, t.1), CompletionKind::Variable, "Symbol in this document"@))
        } else if t.2 == HighlightKind::Type {
            before.push((s.subrange(t.0, t.1), CompletionKind::Class, "Symbol in this document"@))
        } else {
            before
        }
    }
}

/// Every candidate item of a document, in the order they are offered.
pub open spec fn completion_entries(s: Seq<char>) -> Seq<(Seq<char>, CompletionKind, Seq<char>)> {
    builtin_completions() + document_completions(s, tokens(s))
}

/// The first candidate with a label.
pub open spec fn first_with(es: Seq<(Seq<char>, CompletionKind, Seq<char>)>, label: Seq<char>) -> Option<
    (Seq<char>, CompletionKind, Seq<char>),
>
    decreases es.len(),
{
    if es.len() == 0 {
        None
    } else {
        match first_with(es.drop_last(), label) {
            Some(e) => Some(e),
            None => if es.last().0 == label {
                Some(es.last())
            } else {
                None
            },
        }
    }
}

proof fn lemma_first_with_found(es: Seq<(Seq<char>, CompletionKind, Seq<char>)>, label: Seq<char>)
    ensures
        first_with(es, label) matches Some(e) ==> e.0 == label && exists|k: int|
            0 <= k < es.len() && #[trigger] es[k].0 == label,
    decreases es.len(),
{
    if es.len() > 0 {
        lemma_first_with_found(es.drop_last(), label);
        if let Some(e) = first_with(es.drop_last(), label) {
            let k = choose|k: int| 0 <= k < es.drop_last().len() && #[trigger] es.drop_last()[k].0 == label;
            assert(es[k].0 == label);
        } else if es.last().0 == label {
            assert(es[es.len() - 1].0 == label);
        }
    }
}

fn builtin_items() -> (r: Vec<Completion>)
    ensures
        r@.len() == builtin_completions().len(),
        forall|i: int| 0 <= i < r@.len() ==> completion_view(#[trigger] r@[i]) == builtin_completions()[i],
{
    let mut r: Vec<Completion> = Vec::new();
    r.push(Completion { label: "let".to_owned(), kind: CompletionKind::Keyword, detail: "Define a value".to_owned() });
    r.push(Completion { label: "type".to_owned(), kind: CompletionKind::Keyword, detail: "Define a type".to_owned() });
    r.push(Completion { label: "return".to_owned(), kind: CompletionKind::Keyword, detail: "Return from a block".to_owned() });
    r.push(Completion { label: "match".to_owned(), kind: CompletionKind::Keyword, detail: "Pattern-match a value".to_owned() });
    r.push(Completion { label: "if".to_owned(), kind: CompletionKind::Keyword, detail: "Add a match guard".to_owned() });
    r.push(Completion { label: "from".to_owned(), kind: CompletionKind::Keyword, detail: "Start an import".to_owned() });
    r.push(Completion { label: "import".to_owned(), kind: CompletionKind::Keyword, detail: "Import selected names".to_owned() });
    r.push(Completion { label: "export".to_owned(), kind: CompletionKind::Keyword, detail: "Export a definition".to_owned() });
    r.push(Completion { label: "true".to_owned(), kind: CompletionKind::Value, detail: "Boolean literal".to_owned() });
    r.push(Completion { label: "false".to_owned(), kind: CompletionKind::Value, detail: "Boolean literal".to_owned() });
    r.push(Completion { label: "Number".to_owned(), kind: CompletionKind::Class, detail: "Built-in Etch type".to_owned() });
    r.push(Completion { label: "String".to_owned(), kind: CompletionKind::Class, detail: "Built-in Etch type".to_owned() });
    r.push(Completion { label: "Bool".to_owned(), kind: CompletionKind::Class, detail: "Built-in Etch type".to_owned() });
    r.push(Completion { label: "Node".to_owned(), kind: CompletionKind::Class, detail: "Built-in Etch type".to_owned() });
    r.push(Completion { label: "None".to_owned(), kind: CompletionKind::Class, detail: "Built-in Etch type".to_owned() });
    r.push(Completion { label: "Never".to_owned(), kind: CompletionKind::Class, detail: "Built-in Etch type".to_owned() });
    r
}

/// The candidate items of a document, builtins first.
fn candidates(s: &Vec<char>) -> (r: Vec<Completion>)
    ensures
        r@.len() == completion_entries(s@).len(),
        forall|i: int| 0 <= i < r@.len() ==> completion_view(#[trigger] r@[i]) == completion_entries(s@)[i],
{
    let mut r = builtin_items();
    let ts = char_tokens(s);
    let ghost bs = builtin_completions();
    let ghost tv = tokens(s@);
    proof {
        lemma_tokens_ordered(s@, 0);
        assert(tv.take(0) =~= Seq::<(int, int, HighlightKind)>::empty());
    }
    let mut i: usize = 0;
    while i < ts.len()
        invariant
            bs == builtin_completions(),
            tv == tokens(s@),
            ts@.len() == tv.len(),
            forall|k: int| 0 <= k < ts@.len() ==> (ts@[k].0 as int, ts@[k].1 as int, ts@[k].2) == #[trigger] tv[k],
            forall|k: int| 0 <= k < tv.len() ==> 0 <= #[trigger] tv[k].0 < tv[k].1 <= s@.len(),
            i <= ts@.len(),
            r@.len() == bs.len() + document_completions(s@, tv.take(i as int)).len(),
            forall|k: int| 0 <= k < r@.len() ==> completion_view(#[trigger] r@[k]) == (bs + document_completions(
                s@,
                tv.take(i as int),
            ))[k],
        decreases ts@.len() - i,
    {
        let (from, to, kind) = ts[i];
        proof {
            assert(tv.take(i + 1).drop_last() =~= tv.take(i as int));
            assert(tv.take(i + 1).last() == tv[i as int]);
            assert(tv[i as int] == (from as int, to as int, kind));
        }
        let ghost before = r@;
        if kind == HighlightKind::Identifier || kind == HighlightKind::Type {
            let label = string_of(slice_chars(s.as_slice(), from, to).as_slice());
            let k = if kind == HighlightKind::Type {
                CompletionKind::Class
            } else {
                CompletionKind::Variable
            };
            r.push(Completion { label, kind: k, detail: "Symbol in this document".to_owned() });
            proof {
                assert forall|k: int| 0 <= k < r@.len() implies completion_view(#[trigger] r@[k]) == (bs
                    + document_completions(s@, tv.take(i + 1)))[k] by {
                    if k < before.len() {
                        assert(r@[k] == before[k]);
                    }
                }
            }
        }
        i = i + 1;
    }
    proof {
        assert(tv.take(ts@.len() as int) =~= tv);
    }
    r
}

/// The completion items of a document: the keywords, literals and built-in
/// types, then each identifier and type name of the document, one item per
/// label (the first candidate for it), in order of label.
pub fn completions(source: &str) -> (r: Vec<Completion>)
    ensures
        forall|i: int, j: int|
            0 <= i < j < r@.len() ==> text_less(#[trigger] r@[i].label@, #[trigger] r@[j].label@),
        forall|i: int|
            0 <= i < r@.len() ==> first_with(completion_entries(source@), #[trigger] r@[i].label@)
                == Some(completion_view(r@[i])),
        forall|k: int|
            0 <= k < completion_entries(source@).len() ==> exists|i: int|
                0 <= i < r@.len() && #[trigger] r@[i].label@ == #[trigger] completion_entries(source@)[k].0,
{
    let s = chars_of(source);
    let mut es = candidates(&s);
    let ghost e = completion_entries(source@);
    let mut out: Vec<Completion> = Vec::new();
    let mut m: usize = 0;
    let n = es.len();
    proof {
        assert(e.take(0) =~= Seq::<(Seq<char>, CompletionKind, Seq<char>)>::empty());
    }
    while m < n
        invariant
            e == completion_entries(source@),
            n == e.len(),
            es@.len() == n,
            forall|k: int| 0 <= k < n ==> completion_view(#[trigger] es@[k]) == e[k],
            m <= n,
            forall|i: int, j: int|
                0 <= i < j < out@.len() ==> text_less(#[trigger] out@[i].label@, #[trigger] out@[j].label@),
            forall|i: int|
                0 <= i < out@.len() ==> first_with(e.take(m as int), #[trigger] out@[i].label@)
                    == Some(completion_view(out@[i])),
            forall|k: int|
                0 <= k < m ==> exists|i: int| 0 <= i < out@.len() && #[trigger] out@[i].label@ == #[trigger] e[k].0,
        decreases n - m,
    {
        let ghost em = e[m as int];
        proof {
            assert(e.take(m + 1).drop_last() =~= e.take(m as int));
            assert(e.take(m + 1).last() == em);
        }
        let mut p: usize = 0;
        while p < out.len() && str_less(out[p].label.as_str(), es[m].label.as_str())
            invariant
                es@.len() == n,
                m < n,
                em == completion_view(es@[m as int]),
                p <= out@.len(),
                forall|i: int| 0 <= i < p ==> text_less(#[trigger] out@[i].label@, em.0),
            decreases out@.len() - p,
        {
            p = p + 1;
        }
        let found = p < out.len() && str_eq(out[p].label.as_str(), es[m].label.as_str());
        let ghost old_out = out@;
        if !found {
            proof {
                if p < old_out.len() {
                    lemma_text_less_total(old_out[p as int].label@, em.0);
                }
                assert forall|i: int| 0 <= i < old_out.len() implies #[trigger] old_out[i].label@ != em.0 by {
                    lemma_text_less_total(old_out[i].label@, em.0);
                    if i > p {
                        lemma_text_less_trans(em.0, old_out[p as int].label@, old_out[i].label@);
                    }
                }
                lemma_first_with_found(e.take(m as int), em.0);
                if let Some(x) = first_with(e.take(m as int), em.0) {
                    let k = choose|k: int| 0 <= k < e.take(m as int).len() && #[trigger] e.take(m as int)[k].0 == em.0;
                    assert(e[k].0 == em.0);
                    let i = choose|i: int| 0 <= i < old_out.len() && #[trigger] old_out[i].label@ == e[k].0;
                    assert(false);
                }
            }
            let item = Completion {
                label: es[m].label.clone(),
                kind: es[m].kind,
                detail: es[m].detail.clone(),
            };
            out.insert(p, item);
            proof {
                assert forall|i: int, j: int| 0 <= i < j < out@.len() implies text_less(
                    #[trigger] out@[i].label@,
                    #[trigger] out@[j].label@,
                ) by {
                    if i < p && j < p {
                        assert(out@[i] == old_out[i]);
                        assert(out@[j] == old_out[j]);
                    } else if i < p && j == p {
                    } else if i < p && j > p {
                        assert(out@[i] == old_out[i]);
                        assert(out@[j] == old_out[j - 1]);
                    } else if i == p {
                        assert(out@[j] == old_out[j - 1]);
                        lemma_text_less_total(old_out[p as int].label@, em.0);
                        if j - 1 > p {
                            lemma_text_less_trans(em.0, old_out[p as int].label@, old_out[j - 1].label@);
                        }
                    } else {
                        assert(out@[i] == old_out[i - 1]);
                        assert(out@[j] == old_out[j - 1]);
                    }
                }
                assert forall|i: int| 0 <= i < out@.len() implies first_with(e.take(m + 1), #[trigger] out@[i].label@)
                    == Some(completion_view(out@[i])) by {
                    if i < p {
                        assert(out@[i] == old_out[i]);
                    } else if i > p {
                        assert(out@[i] == old_out[i - 1]);
                    }
                }
                assert forall|k: int| 0 <= k < m + 1 implies exists|i: int|
                    0 <= i < out@.len() && #[trigger] out@[i].label@ == #[trigger] e[k].0 by {
                    if k < m {
                        let i = choose|i: int| 0 <= i < old_out.len() && #[trigger] old_out[i].label@ == e[k].0;
                        if i < p {
                            assert(out@[i] == old_out[i]);
                        } else {
                            assert(out@[i + 1] == old_out[i]);
                        }
                    } else {
                        assert(out@[p as int].label@ == e[k].0);
                    }
                }
            }
        } else {
            proof {
                assert(old_out[p as int].label@ == em.0);
                assert forall|i: int| 0 <= i < out@.len() implies first_with(e.take(m + 1), #[trigger] out@[i].label@)
                    == Some(completion_view(out@[i])) by {
                }
                assert forall|k: int| 0 <= k < m + 1 implies exists|i: int|
                    0 <= i < out@.len() && #[trigger] out@[i].label@ == #[trigger] e[k].0 by {
                    if k == m {
                        assert(out@[p as int].label@ == e[k].0);
                    }
                }
            }
        }
        m = m + 1;
    }
    proof {
        assert(e.take(n as int) =~= e);
    }
    out
}


// ---------------------------------------------------------------------------
// Semantic tokens
// ---------------------------------------------------------------------------

/// The index of a highlight kind in the legend of token types.
pub open spec fn kind_number(kind: HighlightKind) -> u32 {
    match kind {
        HighlightKind::Comment => 0,
        HighlightKind::Keyword => 1,
        HighlightKind::String => 2,
        HighlightKind::Number => 3,
        HighlightKind::Boolean => 4,
        HighlightKind::Type => 5,
        HighlightKind::Identifier => 6,
        HighlightKind::Property => 7,
        HighlightKind::Operator => 8,
    }
}

/// The index of a highlight kind in the legend of token types.
pub fn kind_index(kind: HighlightKind) -> (r: u32)
    ensures
        r == kind_number(kind),
{
    match kind {
        HighlightKind::Comment => 0,
        HighlightKind::Keyword => 1,
        HighlightKind::String => 2,
        HighlightKind::Number => 3,
        HighlightKind::Boolean => 4,
        HighlightKind::Type => 5,
        HighlightKind::Identifier => 6,
        HighlightKind::Property => 7,
        HighlightKind::Operator => 8,
    }
}

/// A highlighted token in the relative encoding of editors: the lines and
/// (on the same line) the columns since the previous token's start, its
/// length in UTF-16 units, its type and no modifiers.
#[derive(Debug, PartialEq, Eq, Structural)]
pub struct SemanticToken {
    pub delta_line: u32,
    pub delta_start: u32,
    pub length: u32,
    pub token_type: u32,
    pub token_modifiers_bitset: u32,
}

/// The highlighted tokens of a text with their byte ranges.
pub open spec fn byte_tokens(s: Seq<char>) -> Seq<(int, int, HighlightKind)> {
    Seq::new(
        tokens(s).len(),
        |i: int| (crate::text::byte_offset(s, tokens(s)[i].0) as int, crate::text::byte_offset(s, tokens(s)[i].1) as int, tokens(s)[i].2),
    )
}

/// The encoding of the tokens `hs` that start and end on one line, the
/// previous one starting at `prev`; the counts are 32-bit and differences
/// wrap.
pub open spec fn token_data(s: Seq<char>, hs: Seq<(int, int, HighlightKind)>, prev: (u32, u32)) -> Seq<
    SemanticToken,
>
    decreases hs.len(),
{
    if hs.len() == 0 {
        Seq::empty()
    } else {
        let start = position_spec(s, hs[0].0);
        let end = position_spec(s, hs[0].1);
        if start.0 != end.0 {
            token_data(s, hs.drop_first(), prev)
        } else {
            let delta_line = start.0.wrapping_sub(prev.0);
            let delta_start = if delta_line == 0 {
                start.1.wrapping_sub(prev.1)
            } else {
                start.1
            };
            seq![
                SemanticToken {
                    delta_line,
                    delta_start,
                    length: end.1.wrapping_sub(start.1),
                    token_type: kind_number(hs[0].2),
                    token_modifiers_bitset: 0,
                },
            ] + token_data(s, hs.drop_first(), start)
        }
    }
}

/// The semantic tokens of a document: its highlighted tokens that lie on
/// one line, each relative to the previous one.
pub fn semantic_tokens(source: &str) -> (r: Vec<SemanticToken>)
    requires
        source.spec_bytes().len() <= usize::MAX,
    ensures
        r@ == token_data(source@, byte_tokens(source@), (0, 0)),
{
    let hs = highlight(source);
    let ghost bt = byte_tokens(source@);
    assert(bt.len() == hs@.len());
    let mut out: Vec<SemanticToken> = Vec::new();
    let mut prev: (u32, u32) = (0, 0);
    let mut i: usize = 0;
    proof {
        assert(bt.skip(0) =~= bt);
    }
    while i < hs.len()
        invariant
            source.spec_bytes().len() <= usize::MAX,
            bt == byte_tokens(source@),
            bt.len() == hs@.len(),
            forall|k: int|
                0 <= k < hs@.len() ==> (hs@[k].span.start as int, hs@[k].span.end as int, hs@[k].kind) == #[trigger] bt[k],
            i <= hs@.len(),
            out@ + token_data(source@, bt.skip(i as int), prev) == token_data(source@, bt, (0, 0)),
        decreases hs@.len() - i,
    {
        let ghost rest = bt.skip(i as int);
        proof {
            assert(rest.drop_first() =~= bt.skip(i + 1));
            assert(rest[0] == bt[i as int]);
            assert(bt[i as int] == (hs@[i as int].span.start as int, hs@[i as int].span.end as int, hs@[i as int].kind));
        }
        let start = position(source, hs[i].span.start);
        let end = position(source, hs[i].span.end);
        if start.0 == end.0 {
            let delta_line = start.0.wrapping_sub(prev.0);
            let delta_start = if delta_line == 0 {
                start.1.wrapping_sub(prev.1)
            } else {
                start.1
            };
            let t = SemanticToken {
                delta_line,
                delta_start,
                length: end.1.wrapping_sub(start.1),
                token_type: kind_index(hs[i].kind),
                token_modifiers_bitset: 0,
            };
            let ghost before = out@;
            out.push(t);
            proof {
                assert(out@ + token_data(source@, bt.skip(i + 1), start) =~= before + token_data(source@, rest, prev));
            }
            prev = start;
        }
        i = i + 1;
    }
    proof {
        assert(bt.skip(i as int) =~= Seq::<(int, int, HighlightKind)>::empty());
        assert(out@ + Seq::<SemanticToken>::empty() =~= out@);
    }
    out
}


// ---------------------------------------------------------------------------
// Hover at a position
// ---------------------------------------------------------------------------

/// What hovering shows: the text and the editor range of the word.
#[derive(Debug)]
pub struct HoverInfo {
    pub text: String,
    pub start: (u32, u32),
    pub end: (u32, u32),
}

/// The index of the first token whose byte range holds byte `b` (its end
/// included), from index `i` on.
pub open spec fn token_at_byte(hs: Seq<(int, int, HighlightKind)>, b: int, i: int) -> Option<int>
    decreases hs.len() - i,
{
    if !(0 <= i < hs.len()) {
        None
    } else if hs[i].0 <= b <= hs[i].1 {
        Some(i)
    } else {
        token_at_byte(hs, b, i + 1)
    }
}

/// What hovering at an editor position shows: the hover text of the token
/// there, with the range of the token.
pub open spec fn hover_at_spec(s: Seq<char>, line: int, character: int) -> Option<
    (Seq<char>, (u32, u32), (u32, u32)),
> {
    match position_index(s, line, character) {
        None => None,
        Some(k) => match token_at_byte(byte_tokens(s), crate::text::byte_offset(s, k) as int, 0) {
            None => None,
            Some(i) => {
                let t = tokens(s)[i];
                match hover_spec(s.subrange(t.0, t.1), t.2) {
                    None => None,
                    Some(text) => Some(
                        (text, position_spec(s, byte_tokens(s)[i].0), position_spec(s, byte_tokens(s)[i].1)),
                    ),
                }
            },
        },
    }
}

/// What hovering at an editor position (line, UTF-16 column) shows: the
/// hover text of the token under it and the token's range; nothing off the
/// text or off any token, or over a token that means nothing in particular.
pub fn hover(source: &str, line: u32, character: u32) -> (r: Option<HoverInfo>)
    requires
        source.spec_bytes().len() <= usize::MAX,
    ensures
        match hover_at_spec(source@, line as int, character as int) {
            Some((text, start, end)) => r matches Some(h) && h.text@ == text && h.start == start && h.end == end,
            None => r is None,
        },
{
    let b = match byte_offset(source, line, character) {
        Some(b) => b,
        None => {
            return None;
        },
    };
    let ghost pk = position_index(source@, line as int, character as int)->0;
    let hs = highlight(source);
    let s = chars_of(source);
    let ts = char_tokens(&s);
    let ghost bt = byte_tokens(source@);
    proof {
        lemma_tokens_ordered(s@, 0);
    }
    let mut i: usize = 0;
    while i < hs.len()
        invariant
            source.spec_bytes().len() <= usize::MAX,
            position_index(source@, line as int, character as int) == Some(pk),
            b as int == crate::text::byte_offset(source@, pk),
            bt == byte_tokens(source@),
            s@ == source@,
            bt.len() == hs@.len(),
            ts@.len() == hs@.len(),
            forall|k: int|
                0 <= k < hs@.len() ==> (hs@[k].span.start as int, hs@[k].span.end as int, hs@[k].kind) == #[trigger] bt[k],
            forall|k: int| 0 <= k < ts@.len() ==> (ts@[k].0 as int, ts@[k].1 as int, ts@[k].2) == #[trigger] tokens(s@)[k],
            forall|k: int| 0 <= k < ts@.len() ==> 0 <= #[trigger] tokens(s@)[k].0 < tokens(s@)[k].1 <= s@.len(),
            i <= hs@.len(),
            token_at_byte(bt, b as int, 0) == token_at_byte(bt, b as int, i as int),
        decreases hs@.len() - i,
    {
        assert(bt[i as int] == (hs@[i as int].span.start as int, hs@[i as int].span.end as int, hs@[i as int].kind));
        if hs[i].span.start <= b && b <= hs[i].span.end {
            assert(ts@[i as int].2 == hs@[i as int].kind);
            let (from, to, kind) = ts[i];
            let word = string_of(slice_chars(s.as_slice(), from, to).as_slice());
            return match hover_text(word.as_str(), kind) {
                Some(text) => Some(
                    HoverInfo {
                        text,
                        start: position(source, hs[i].span.start),
                        end: position(source, hs[i].span.end),
                    },
                ),
                None => None,
            };
        }
        i = i + 1;
    }
    None
}

} // verus!
