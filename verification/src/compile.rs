//! The front end of the compile pipeline: lexing, parsing and name
//! resolution of a source text, each stage reporting what it finds, and the
//! outcome types of the pipeline.
use vstd::prelude::*;
use vstd::string::StringSliceAdditionalSpecFns;
use std::ops::Range;
use crate::lexer::{error_span, lex, lex_spec, Spanned, TokenView};
use crate::parser::{fits, nodes_view, parse, program, tokens_view, SyntaxNode};
use crate::scoping::{diags, resolve_all, resolve_program, sizes, start_state, DiagView};
use crate::typing::{check_types, start_type_scopes, type_list};
use crate::text::{byte_offset, chars_of, str_eq, strings_view};

verus! {

/// A problem found while compiling: the stage that found it, what it is,
/// and the byte range of the source it concerns.
#[derive(Debug)]
pub struct CompileDiagnostic {
    pub stage: &'static str,
    pub message: String,
    pub span: Range<usize>,
}

/// The stage that strips the type annotations from a checked program.
#[derive(Debug)]
pub struct ExpressionStripper;

/// The tokens of a source text with their byte ranges.
pub open spec fn source_tokens(s: Seq<char>) -> Seq<(TokenView, int, int)> {
    Seq::new(
        lex_spec(s, 0).0.len(),
        |i: int| (lex_spec(s, 0).0[i].0, byte_offset(s, lex_spec(s, 0).0[i].1) as int, byte_offset(s, lex_spec(s, 0).0[i].2) as int),
    )
}

/// What the lexer reports: each character from which no token starts.
pub open spec fn lexer_diags(s: Seq<char>) -> Seq<DiagView> {
    Seq::new(
        lex_spec(s, 0).1.len(),
        |i: int| ("lexer"@, "unexpected character"@, error_span(s, lex_spec(s, 0).1[i]).0 as int, error_span(s, lex_spec(s, 0).1[i]).1 as int),
    )
}

/// What the parser reports when it stops at token `p`: that token.
pub open spec fn parser_diag(ts: Seq<(TokenView, int, int)>, p: int) -> DiagView {
    ("parser"@, "unexpected token"@, ts[p].1, ts[p].2)
}

/// The report for a program too large for its positions or symbols to be
/// numbered.
pub open spec fn too_large(stage: Seq<char>) -> DiagView {
    (stage, "program too large"@, 0, 0)
}

fn diagnostic(stage: &'static str, message: &str, start: usize, end: usize) -> (r: CompileDiagnostic)
    ensures
        r.stage@ == stage@,
        r.message@ == message@,
        r.span.start == start,
        r.span.end == end,
{
    CompileDiagnostic { stage, message: message.to_owned(), span: Range { start, end } }
}

fn count_node(n: &SyntaxNode, limit: u64) -> (r: u64)
    requires
        limit <= u32::MAX,
    ensures
        r == if crate::scoping::size(n.view()) < limit { crate::scoping::size(n.view()) as int } else { limit as int },
    decreases n,
{
    let c = count_nodes(&n.children, limit);
    if c + 1 < limit {
        c + 1
    } else {
        limit
    }
}

fn count_nodes(ns: &Vec<SyntaxNode>, limit: u64) -> (r: u64)
    requires
        limit <= u32::MAX,
    ensures
        r == if sizes(nodes_view(ns@)) < limit { sizes(nodes_view(ns@)) as int } else { limit as int },
    decreases ns,
{
    let ghost vs = nodes_view(ns@);
    proof {
        crate::parser::lemma_nodes_view(ns@);
    }
    let mut acc: u64 = 0;
    let mut i: usize = 0;
    while i < ns.len()
        invariant
            limit <= u32::MAX,
            vs == nodes_view(ns@),
            vs.len() == ns@.len(),
            forall|k: int| 0 <= k < vs.len() ==> #[trigger] vs[k] == ns@[k].view(),
            i <= vs.len(),
            acc == if sizes(vs.take(i as int)) < limit { sizes(vs.take(i as int)) as int } else { limit as int },
        decreases vs.len() - i,
    {
        assert(vs.take(i + 1).drop_last() =~= vs.take(i as int));
        let c = count_node(&ns[i], limit);
        if acc + c < limit {
            acc = acc + c;
        } else {
            acc = limit;
        }
        i = i + 1;
    }
    assert(vs.take(vs.len() as int) =~= vs);
    acc
}

/// The position of the first occurrence of `name` in `files`.
pub open spec fn first_index(files: Seq<Seq<char>>, name: Seq<char>) -> Option<int>
    decreases files.len(),
{
    if files.len() == 0 {
        None
    } else {
        match first_index(files.drop_last(), name) {
            Some(k) => Some(k),
            None => if files.last() == name {
                Some(files.len() - 1)
            } else {
                None
            },
        }
    }
}

proof fn lemma_first_index(files: Seq<Seq<char>>, name: Seq<char>, k: int)
    requires
        0 <= k < files.len(),
        files[k] == name,
        forall|j: int| 0 <= j < k ==> files[j] != name,
    ensures
        first_index(files, name) == Some(k),
    decreases files.len(),
{
    if k < files.len() - 1 {
        lemma_first_index(files.drop_last(), name, k);
    } else {
        lemma_first_index_none(files.drop_last(), name);
    }
}

proof fn lemma_first_index_none(files: Seq<Seq<char>>, name: Seq<char>)
    requires
        forall|j: int| 0 <= j < files.len() ==> files[j] != name,
    ensures
        first_index(files, name) is None,
    decreases files.len(),
{
    if files.len() > 0 {
        lemma_first_index_none(files.drop_last(), name);
    }
}

/// The import cycle that loading `name` would close, given the files being
/// loaded (outermost first): the files from the first load of `name` on,
/// then `name` again; nothing when `name` is not being loaded.
pub fn import_cycle(loading: &Vec<String>, name: &str) -> (r: Option<Vec<String>>)
    ensures
        match first_index(strings_view(loading@), name@) {
            Some(k) => r matches Some(c) && strings_view(c@) == strings_view(loading@).subrange(
                k,
                loading@.len() as int,
            ).push(name@),
            None => r is None,
        },
{
    let ghost files = strings_view(loading@);
    let mut k: usize = 0;
    while k < loading.len()
        invariant
            files == strings_view(loading@),
            k <= loading@.len(),
            forall|j: int| 0 <= j < k ==> files[j] != name@,
        decreases loading@.len() - k,
    {
        if str_eq(loading[k].as_str(), name) {
            proof {
                lemma_first_index(files, name@, k as int);
            }
            let mut cycle: Vec<String> = Vec::new();
            let mut j = k;
            while j < loading.len()
                invariant
                    files == strings_view(loading@),
                    k <= j <= loading@.len(),
                    strings_view(cycle@) == files.subrange(k as int, j as int),
                decreases loading@.len() - j,
            {
                let ghost before = cycle@;
                cycle.push(loading[j].clone());
                assert(strings_view(cycle@) =~= strings_view(before).push(loading@[j as int]@));
                assert(files[j as int] == loading@[j as int]@);
                assert(strings_view(cycle@) =~= files.subrange(k as int, j + 1));
                j = j + 1;
            }
            let ghost before = cycle@;
            cycle.push(name.to_owned());
            assert(strings_view(cycle@) =~= strings_view(before).push(name@));
            assert(strings_view(cycle@) =~= files.subrange(k as int, loading@.len() as int).push(name@));
            return Some(cycle);
        }
        k = k + 1;
    }
    proof {
        lemma_first_index_none(files, name@);
    }
    None
}

/// Lexes, parses, resolves the names of and type-checks a source text: the
/// program, or what the first failing stage reports. The lexer reports
/// every character from which no token starts; when the text still yields
/// tokens they are parsed too, and a parse that stops before the end adds a
/// report at the token where it stopped. Name resolution runs on a program
/// that lexed and parsed cleanly and reports each use of an undeclared
/// name; type checking runs on a program whose names all resolve.
pub fn resolve_source(source: &str) -> (r: Result<Vec<SyntaxNode>, Vec<CompileDiagnostic>>)
    requires
        source.spec_bytes().len() <= usize::MAX,
    ensures
        ({
            let s = source@;
            let ts = source_tokens(s);
            let ld = lexer_diags(s);
            if !lex_spec(s, 0).2 {
                r matches Err(d) && diags(d@) == ld
            } else if !(ts.len() + 8 < usize::MAX) {
                r matches Err(d) && diags(d@) == ld.push(too_large("parser"@))
            } else {
                match program(ts) {
                    Err(p) => r matches Err(d) && diags(d@) == ld.push(parser_diag(ts, p)),
                    Ok(items) => if ld.len() > 0 {
                        r matches Err(d) && diags(d@) == ld
                    } else if !(22 + sizes(items) < u32::MAX) {
                        r matches Err(d) && diags(d@) == seq![too_large("symbol resolver"@)]
                    } else if resolve_all(items, start_state()).1.len() > 0 {
                        r matches Err(d) && diags(d@) == resolve_all(items, start_state()).1
                    } else if type_list(items, start_type_scopes()).2.len() > 0 {
                        r matches Err(d) && diags(d@) == type_list(items, start_type_scopes()).2
                    } else {
                        r matches Ok(v) && nodes_view(v@) == items
                    },
                }
            }
        }),
{
    let (tokens, errors) = lex(source);
    let ghost s = source@;
    let ghost ld = lexer_diags(s);
    let mut out: Vec<CompileDiagnostic> = Vec::new();
    let mut i: usize = 0;
    while i < errors.len()
        invariant
            s == source@,
            ld == lexer_diags(s),
            i <= errors@.len(),
            errors@.len() == lex_spec(s, 0).1.len(),
            forall|k: int|
                0 <= k < errors@.len() ==> {
                    let j = #[trigger] lex_spec(s, 0).1[k];
                    &&& errors@[k].span.start == error_span(s, j).0
                    &&& errors@[k].span.end == error_span(s, j).1
                },
            diags(out@) == ld.take(i as int),
        decreases errors@.len() - i,
    {
        let ghost j = lex_spec(s, 0).1[i as int];
        let ghost before = diags(out@);
        out.push(diagnostic("lexer", "unexpected character", errors[i].span.start, errors[i].span.end));
        assert(diags(out@) =~= before.push(diags(out@).last()));
        assert(diags(out@) =~= ld.take(i + 1));
        i = i + 1;
    }
    assert(ld.take(ld.len() as int) =~= ld);
    let tokens: Vec<Spanned> = match tokens {
        Some(t) => t,
        None => {
            return Err(out);
        },
    };
    let ghost ts = source_tokens(s);
    assert(tokens_view(tokens@) =~= ts);
    if tokens.len() >= usize::MAX - 8 {
        out.push(diagnostic("parser", "program too large", 0, 0));
        assert(diags(out@) =~= ld.push(too_large("parser"@)));
        return Err(out);
    }
    match parse(&tokens) {
        Err(p) => {
            out.push(diagnostic("parser", "unexpected token", tokens[p].span.start, tokens[p].span.end));
            assert(diags(out@) =~= ld.push(parser_diag(ts, p as int)));
            Err(out)
        },
        Ok(items) => {
            if out.len() > 0 {
                return Err(out);
            }
            let limit: u64 = 4294967273;
            if count_nodes(&items, limit) >= limit {
                let mut big: Vec<CompileDiagnostic> = Vec::new();
                big.push(diagnostic("symbol resolver", "program too large", 0, 0));
                assert(diags(big@) =~= seq![too_large("symbol resolver"@)]);
                return Err(big);
            }
            let reported = resolve_program(&items);
            if reported.len() > 0 {
                return Err(reported);
            }
            let typed = check_types(&items);
            if typed.len() > 0 {
                Err(typed)
            } else {
                Ok(items)
            }
        },
    }
}

/// What to do with an import while checking a program's files.
#[derive(Debug)]
pub enum ImportStep {
    /// Loading the file would close this cycle of files.
    Cycle(Vec<String>),
    /// The file is one of the bundled standard library, or was checked
    /// already.
    Skip,
    /// The file is to be read and checked.
    Check,
}

/// Whether a path names a file of the bundled standard library.
pub open spec fn bundled(name: Seq<char>) -> bool {
    name.len() >= 4 && name.take(4) == seq!['s', 't', 'd', '/']
}

/// Decides what to do with the file `name`, given the files being loaded
/// (outermost first) and those checked already: report the cycle it would
/// close, pass over it, or check it.
pub fn import_step(loading: &Vec<String>, checked: &Vec<String>, name: &str) -> (r: ImportStep)
    ensures
        match first_index(strings_view(loading@), name@) {
            Some(k) => r matches ImportStep::Cycle(c) && strings_view(c@) == strings_view(
                loading@,
            ).subrange(k, loading@.len() as int).push(name@),
            None => if bundled(name@) || strings_view(checked@).contains(name@) {
                r is Skip
            } else {
                r is Check
            },
        },
{
    match import_cycle(loading, name) {
        Some(cycle) => ImportStep::Cycle(cycle),
        None => {
            let chars = chars_of(name);
            let std_prefix = ['s', 't', 'd', '/'];
            let in_std = chars.len() >= 4 && chars[0] == 's' && chars[1] == 't' && chars[2] == 'd'
                && chars[3] == '/';
            proof {
                assert(std_prefix@ =~= seq!['s', 't', 'd', '/']);
                if chars@.len() >= 4 {
                    if in_std {
                        assert(chars@.take(4) =~= seq!['s', 't', 'd', '/']);
                    } else {
                        assert(chars@.take(4)[0] == chars@[0]);
                        assert(chars@.take(4)[1] == chars@[1]);
                        assert(chars@.take(4)[2] == chars@[2]);
                        assert(chars@.take(4)[3] == chars@[3]);
                    }
                }
            }
            if in_std {
                return ImportStep::Skip;
            }
            let ghost seen = strings_view(checked@);
            let mut k: usize = 0;
            while k < checked.len()
                invariant
                    seen == strings_view(checked@),
                    k <= checked@.len(),
                    forall|j: int| 0 <= j < k ==> seen[j] != name@,
                    first_index(strings_view(loading@), name@) is None,
                    !bundled(name@),
                decreases checked@.len() - k,
            {
                if str_eq(checked[k].as_str(), name) {
                    proof {
                        assert(seen[k as int] == name@);
                        assert(seen.contains(name@));
                    }
                    return ImportStep::Skip;
                }
                k = k + 1;
            }
            proof {
                assert(!seen.contains(name@));
            }
            ImportStep::Check
        },
    }
}

} // verus!
