//! The decisions of the command-line tool that do not touch files: export
//! targets and formats, output-path checks, display file names and test
//! reports.
use vstd::prelude::*;
use crate::text::{
    chars_of, decimal, decimal_chars, is_alnum, is_ascii_alphanumeric, lower, push_all, str_eq,
    string_of, strings_view, to_ascii_lowercase,
};

verus! {

/// The file format of an export.
#[derive(Clone, Copy, Debug, PartialEq, Eq, Structural)]
pub enum ExportFormat {
    Svg,
    Kicad,
}

/// What to export: the logical schematic or the physical board of a
/// program, in a format, to an output path.
#[derive(Debug)]
pub enum ExportTarget {
    Schematic { file: String, format: ExportFormat, output: String },
    Pcb { file: String, format: ExportFormat, output: String },
}

// ---------------------------------------------------------------------------
// Output paths
// ---------------------------------------------------------------------------

/// The extension of a path as `std::path::Path::extension` reads it: that
/// of the final component's name after its last `.`, if any.
pub uninterp spec fn path_extension(path: Seq<char>) -> Option<Seq<char>>;

/// `Path::new(path).extension()` as text (`None` also when it is not
/// valid Unicode).
#[verifier::external_body]
fn extension_of(path: &str) -> (r: Option<String>)
    ensures
        match r {
            Some(e) => path_extension(path@) == Some(e@),
            None => path_extension(path@) is None,
        },
{
    std::path::Path::new(path).extension().and_then(|e| e.to_str()).map(|e| e.to_owned())
}

/// The complaint about an output path with the wrong extension.
pub open spec fn extension_message(kind: Seq<char>, expected: Seq<char>, path: Seq<char>) -> Seq<
    char,
> {
    kind + " output path must end in ."@ + expected + ": "@ + path
}

/// Checks the extension read from an output path: success when it is the
/// expected one, else the complaint.
pub fn extension_check(extension: Option<&str>, expected: &str, kind: &str, path: &str) -> (r: Result<
    (),
    String,
>)
    ensures
        match extension {
            Some(e) => e@ == expected@,
            None => false,
        } ==> r is Ok,
        !match extension {
            Some(e) => e@ == expected@,
            None => false,
        } ==> (r matches Err(m) && m@ == extension_message(kind@, expected@, path@)),
{
    let fits = match extension {
        Some(e) => str_eq(e, expected),
        None => false,
    };
    if fits {
        return Ok(());
    }
    let mut out = chars_of(kind);
    let middle = chars_of(" output path must end in .");
    push_all(&mut out, middle.as_slice());
    let x = chars_of(expected);
    push_all(&mut out, x.as_slice());
    let sep = chars_of(": ");
    push_all(&mut out, sep.as_slice());
    let p = chars_of(path);
    push_all(&mut out, p.as_slice());
    assert(out@ =~= extension_message(kind@, expected@, path@));
    Err(string_of(out.as_slice()))
}

/// Checks that an output path has the expected extension.
pub fn validate_output_extension(path: &str, expected: &str, kind: &str) -> (r: Result<(), String>)
    ensures
        path_extension(path@) == Some(expected@) ==> r is Ok,
        path_extension(path@) != Some(expected@) ==> (r matches Err(m) && m@ == extension_message(
            kind@,
            expected@,
            path@,
        )),
{
    let extension = extension_of(path);
    match &extension {
        Some(e) => extension_check(Some(e.as_str()), expected, kind, path),
        None => extension_check(None, expected, kind, path),
    }
}

/// The extension and the name of the output of a schematic export.
pub open spec fn schematic_output(format: ExportFormat) -> (Seq<char>, Seq<char>) {
    match format {
        ExportFormat::Svg => ("svg"@, "SVG schematic"@),
        ExportFormat::Kicad => ("kicad_sch"@, "KiCad schematic"@),
    }
}

/// The extension and the name of the output of a board export.
pub open spec fn pcb_output(format: ExportFormat) -> (Seq<char>, Seq<char>) {
    match format {
        ExportFormat::Svg => ("svg"@, "SVG PCB"@),
        ExportFormat::Kicad => ("kicad_pcb"@, "KiCad PCB"@),
    }
}

/// Checks the output path of an export before anything is evaluated or
/// written: a schematic (`pcb` false) or a board (`pcb` true).
pub fn check_export_output(pcb: bool, format: ExportFormat, output: &str) -> (r: Result<(), String>)
    ensures
        ({
            let (extension, kind) = if pcb {
                pcb_output(format)
            } else {
                schematic_output(format)
            };
            &&& path_extension(output@) == Some(extension) ==> r is Ok
            &&& path_extension(output@) != Some(extension) ==> (r matches Err(m) && m@
                == extension_message(kind, extension, output@))
        }),
{
    if pcb {
        match format {
            ExportFormat::Svg => validate_output_extension(output, "svg", "SVG PCB"),
            ExportFormat::Kicad => validate_output_extension(output, "kicad_pcb", "KiCad PCB"),
        }
    } else {
        match format {
            ExportFormat::Svg => validate_output_extension(output, "svg", "SVG schematic"),
            ExportFormat::Kicad => validate_output_extension(output, "kicad_sch", "KiCad schematic"),
        }
    }
}

/// The complaint about a simulation of no steps.
pub open spec fn zero_steps_message() -> Seq<char> {
    "simulation steps must be greater than zero"@
}

/// Checks the number of steps of a simulation before anything is
/// evaluated: a simulation runs at least one step.
pub fn check_simulation_steps(steps: usize) -> (r: Result<(), String>)
    ensures
        steps > 0 ==> r is Ok,
        steps == 0 ==> (r matches Err(m) && m@ == zero_steps_message()),
{
    if steps == 0 {
        let m = chars_of("simulation steps must be greater than zero");
        return Err(string_of(m.as_slice()));
    }
    Ok(())
}

// ---------------------------------------------------------------------------
// Display file names
// ---------------------------------------------------------------------------

/// How a character of a display name appears in its file name.
pub open spec fn slug_char(c: char) -> char {
    if is_alnum(c) {
        lower(c)
    } else {
        '-'
    }
}

/// The first index at or after `i` holding no dash.
pub open spec fn dash_run_end(s: Seq<char>, i: int) -> int
    decreases s.len() - i,
{
    if 0 <= i < s.len() && s[i] == '-' {
        dash_run_end(s, i + 1)
    } else {
        i
    }
}

/// The end of `s.take(j)` without its trailing dashes.
pub open spec fn dash_tail_start(s: Seq<char>, j: int) -> int
    decreases j,
{
    if 0 < j <= s.len() && s[j - 1] == '-' {
        dash_tail_start(s, j - 1)
    } else {
        j
    }
}

/// The file-name stem of a display: its name with every character but ASCII
/// letters and digits turned into a dash, lower-cased, without leading and
/// trailing dashes, or `display` when nothing is left.
pub open spec fn slug_spec(name: Seq<char>) -> Seq<char> {
    let m = name.map_values(|c: char| slug_char(c));
    let a = dash_run_end(m, 0);
    let b = dash_tail_start(m, m.len() as int);
    if a < b {
        m.subrange(a, b)
    } else {
        "display"@
    }
}

proof fn lemma_dash_run_end(s: Seq<char>, i: int)
    requires
        0 <= i <= s.len(),
    ensures
        i <= dash_run_end(s, i) <= s.len(),
        forall|k: int| i <= k < dash_run_end(s, i) ==> s[k] == '-',
        dash_run_end(s, i) < s.len() ==> s[dash_run_end(s, i)] != '-',
    decreases s.len() - i,
{
    if i < s.len() && s[i] == '-' {
        lemma_dash_run_end(s, i + 1);
    }
}

proof fn lemma_dash_tail_start(s: Seq<char>, j: int)
    requires
        0 <= j <= s.len(),
    ensures
        0 <= dash_tail_start(s, j) <= j,
        forall|k: int| dash_tail_start(s, j) <= k < j ==> s[k] == '-',
        dash_tail_start(s, j) > 0 ==> s[dash_tail_start(s, j) - 1] != '-',
    decreases j,
{
    if 0 < j && s[j - 1] == '-' {
        lemma_dash_tail_start(s, j - 1);
    }
}

/// The file-name stem of a display name.
pub fn slug(name: &str) -> (r: String)
    ensures
        r@ == slug_spec(name@),
{
    let chars = chars_of(name);
    let mut m: Vec<char> = Vec::new();
    let mut i: usize = 0;
    while i < chars.len()
        invariant
            i <= chars@.len(),
            m@ == chars@.take(i as int).map_values(|c: char| slug_char(c)),
        decreases chars@.len() - i,
    {
        let c = chars[i];
        let d = if is_ascii_alphanumeric(c) {
            to_ascii_lowercase(c)
        } else {
            '-'
        };
        m.push(d);
        assert(chars@.take(i + 1) =~= chars@.take(i as int).push(c));
        assert(m@ =~= chars@.take(i + 1).map_values(|c: char| slug_char(c)));
        i = i + 1;
    }
    assert(chars@.take(chars@.len() as int) =~= chars@);
    let ghost ms = m@;
    let mut a: usize = 0;
    while a < m.len() && m[a] == '-'
        invariant
            a <= m@.len(),
            dash_run_end(ms, 0) == dash_run_end(ms, a as int),
            ms == m@,
        decreases m@.len() - a,
    {
        a = a + 1;
    }
    let mut b: usize = m.len();
    while b > 0 && m[b - 1] == '-'
        invariant
            b <= m@.len(),
            dash_tail_start(ms, m@.len() as int) == dash_tail_start(ms, b as int),
            ms == m@,
        decreases b,
    {
        b = b - 1;
    }
    if a < b {
        let mut out: Vec<char> = Vec::new();
        let mut k = a;
        while k < b
            invariant
                a <= k <= b <= m@.len(),
                out@ == m@.subrange(a as int, k as int),
            decreases b - k,
        {
            out.push(m[k]);
            assert(out@ =~= m@.subrange(a as int, k + 1));
            k = k + 1;
        }
        string_of(out.as_slice())
    } else {
        let r = "display".to_owned();
        r
    }
}

/// The file name `base-k.svg`.
pub open spec fn numbered_name(base: Seq<char>, k: nat) -> Seq<char> {
    base + "-"@ + decimal(k) + ".svg"@
}

/// The file name `base.svg`.
pub open spec fn plain_name(base: Seq<char>) -> Seq<char> {
    base + ".svg"@
}

/// `name` is the file name given to a display with stem `base` when the
/// names in `taken` are in use: `base.svg` if it is free, else `base-k.svg`
/// for the smallest `k` from 2 on that is free.
pub open spec fn is_display_filename(base: Seq<char>, taken: Set<Seq<char>>, name: Seq<char>) -> bool {
    if !taken.contains(plain_name(base)) {
        name == plain_name(base)
    } else {
        exists|k: nat|
            k >= 2 && name == numbered_name(base, k) && !taken.contains(name) && forall|j: nat|
                2 <= j < k ==> taken.contains(#[trigger] numbered_name(base, j))
    }
}

pub proof fn lemma_decimal_len(n: nat)
    ensures
        decimal(n).len() >= 1,
        n >= 10 ==> decimal(n).len() >= 2,
    decreases n,
{
    if n >= 10 {
        lemma_decimal_len(n / 10);
    }
}

/// Different numbers are written differently.
pub proof fn lemma_decimal_injective(a: nat, b: nat)
    requires
        decimal(a) == decimal(b),
    ensures
        a == b,
    decreases a,
{
    lemma_decimal_len(a);
    lemma_decimal_len(b);
    let da = decimal(a);
    let db = decimal(b);
    if a < 10 && b < 10 {
        assert(da[0] == db[0]);
    } else if a >= 10 && b >= 10 {
        assert(da.last() == db.last());
        assert(da.drop_last() =~= decimal(a / 10));
        assert(db.drop_last() =~= decimal(b / 10));
        lemma_decimal_injective(a / 10, b / 10);
    } else {
        assert(da.len() == db.len());
    }
}

proof fn lemma_names_distinct(base: Seq<char>, j: nat, k: nat)
    ensures
        plain_name(base) != numbered_name(base, k),
        j != k ==> numbered_name(base, j) != numbered_name(base, k),
{
    reveal_strlit("-");
    reveal_strlit(".svg");
    lemma_decimal_len(k);
    lemma_decimal_len(j);
    assert(plain_name(base).len() < numbered_name(base, k).len());
    if numbered_name(base, j) == numbered_name(base, k) {
        let nj = numbered_name(base, j);
        let nk = numbered_name(base, k);
        assert(nj.len() == nk.len());
        assert(decimal(j).len() == decimal(k).len());
        let start: int = base.len() as int + 1;
        assert(decimal(j) =~= nj.subrange(start, start + decimal(j).len() as int));
        assert(decimal(k) =~= nk.subrange(start, start + decimal(k).len() as int));
        lemma_decimal_injective(j, k);
    }
}

fn name_chars(base: &Vec<char>, k: usize) -> (r: String)
    ensures
        r@ == numbered_name(base@, k as nat),
{
    let mut out = base.clone();
    out.push('-');
    let d = decimal_chars(k);
    push_all(&mut out, d.as_slice());
    let tail = chars_of(".svg");
    push_all(&mut out, tail.as_slice());
    proof {
        reveal_strlit("-");
    }
    assert(out@ =~= numbered_name(base@, k as nat));
    string_of(out.as_slice())
}

fn contains_name(taken: &Vec<String>, name: &String) -> (r: bool)
    ensures
        r == strings_view(taken@).to_set().contains(name@),
{
    let mut i: usize = 0;
    while i < taken.len()
        invariant
            i <= taken@.len(),
            forall|j: int| 0 <= j < i ==> taken@[j]@ != name@,
        decreases taken@.len() - i,
    {
        if str_eq(taken[i].as_str(), name.as_str()) {
            assert(strings_view(taken@)[i as int] == name@);
            return true;
        }
        i = i + 1;
    }
    assert(!strings_view(taken@).contains(name@)) by {
        if strings_view(taken@).contains(name@) {
            let j = choose|j: int| 0 <= j < taken@.len() && strings_view(taken@)[j] == name@;
            assert(taken@[j]@ == name@);
        }
    }
    false
}

/// The file name for a display with stem `base`, given the names already
/// used by earlier displays.
pub fn display_filename(base: &str, taken: &Vec<String>) -> (r: String)
    requires
        taken@.len() < usize::MAX,
    ensures
        is_display_filename(base@, strings_view(taken@).to_set(), r@),
{
    broadcast use vstd::seq_lib::group_seq_properties;
    let ghost used = strings_view(taken@).to_set();
    let b = chars_of(base);
    let mut plain = b.clone();
    let tail = chars_of(".svg");
    push_all(&mut plain, tail.as_slice());
    assert(plain@ =~= plain_name(base@));
    let first = string_of(plain.as_slice());
    if !contains_name(taken, &first) {
        return first;
    }
    let mut suffix: usize = 2;
    let mut candidate = name_chars(&b, suffix);
    let ghost mut tried: Seq<Seq<char>> = seq![plain_name(base@)];
    proof {
        assert(tried.no_duplicates());
    }
    while contains_name(taken, &candidate)
        invariant
            used == strings_view(taken@).to_set(),
            taken@.len() < usize::MAX,
            b@ == base@,
            2 <= suffix,
            candidate@ == numbered_name(base@, suffix as nat),
            used.contains(plain_name(base@)),
            forall|j: nat| 2 <= j < suffix ==> used.contains(#[trigger] numbered_name(base@, j)),
            tried.len() == suffix - 1,
            tried.no_duplicates(),
            forall|x: Seq<char>| #[trigger] tried.contains(x) ==> used.contains(x),
            forall|x: Seq<char>| #[trigger] tried.contains(x) ==> x == plain_name(base@) || exists|j: nat|
                2 <= j < suffix && x == numbered_name(base@, j),
        decreases taken@.len() + 1 - suffix,
    {
        proof {
            assert(used.contains(candidate@));
            assert(!tried.contains(candidate@)) by {
                if tried.contains(candidate@) {
                    lemma_names_distinct(base@, 0, suffix as nat);
                    if candidate@ != plain_name(base@) {
                        let j = choose|j: nat| 2 <= j < suffix && candidate@ == numbered_name(base@, j);
                        lemma_names_distinct(base@, j, suffix as nat);
                    }
                }
            }
            let next = tried.push(candidate@);
            assert forall|x: Seq<char>| #[trigger] next.contains(x) implies used.contains(x) by {
                if x != candidate@ {
                    let i = choose|i: int| 0 <= i < next.len() && next[i] == x;
                    assert(i < tried.len());
                    assert(tried[i] == x);
                    assert(tried.contains(x));
                }
            }
            assert(next.to_set().subset_of(used));
            vstd::set_lib::lemma_len_subset(next.to_set(), used);
            next.unique_seq_to_set();
            strings_view(taken@).lemma_cardinality_of_set();
            assert forall|x: Seq<char>| #[trigger] next.contains(x) implies x == plain_name(base@)
                || exists|j: nat| 2 <= j < suffix + 1 && x == numbered_name(base@, j) by {
                if x == candidate@ {
                    assert(x == numbered_name(base@, suffix as nat));
                } else {
                    let i = choose|i: int| 0 <= i < next.len() && next[i] == x;
                    assert(tried.contains(x));
                }
            }
            tried = next;
        }
        suffix = suffix + 1;
        candidate = name_chars(&b, suffix);
    }
    proof {
        assert(!used.contains(candidate@));
        assert(is_display_filename(base@, used, candidate@)) by {
            assert(candidate@ == numbered_name(base@, suffix as nat));
        }
    }
    candidate
}

// ---------------------------------------------------------------------------
// Test reports
// ---------------------------------------------------------------------------

/// The report line of one language test: its name and failure message, if
/// it failed.
pub open spec fn test_line(name: Seq<char>, failure: Option<Seq<char>>) -> Seq<char> {
    match failure {
        None => "PASS "@ + name,
        Some(m) => "FAIL "@ + name + ": "@ + m,
    }
}

/// The number of failed tests.
pub open spec fn failures(results: Seq<(Seq<char>, Option<Seq<char>>)>) -> nat
    decreases results.len(),
{
    if results.len() == 0 {
        0
    } else {
        failures(results.drop_last()) + if results.last().1 is Some {
            1nat
        } else {
            0nat
        }
    }
}

/// The lines of a test report: one per test, then the summary.
pub open spec fn report_lines(results: Seq<(Seq<char>, Option<Seq<char>>)>) -> Seq<Seq<char>> {
    Seq::new(results.len(), |i: int| test_line(results[i].0, results[i].1)).push(
        decimal((results.len() - failures(results)) as nat) + " passed; "@ + decimal(
            failures(results),
        ) + " failed"@,
    )
}

/// The test results as texts.
pub open spec fn results_view(results: Seq<(String, Option<String>)>) -> Seq<
    (Seq<char>, Option<Seq<char>>),
> {
    Seq::new(
        results.len(),
        |i: int|
            (
                results[i].0@,
                match results[i].1 {
                    Some(m) => Some(m@),
                    None => None,
                },
            ),
    )
}

proof fn lemma_failures_bound(results: Seq<(Seq<char>, Option<Seq<char>>)>)
    ensures
        failures(results) <= results.len(),
    decreases results.len(),
{
    if results.len() > 0 {
        lemma_failures_bound(results.drop_last());
    }
}

/// Reports the results of the language tests: the report lines, as a
/// success when no test failed.
pub fn test_report(results: &Vec<(String, Option<String>)>) -> (r: Result<Vec<String>, Vec<String>>)
    ensures
        match r {
            Ok(lines) => failures(results_view(results@)) == 0 && strings_view(lines@)
                == report_lines(results_view(results@)),
            Err(lines) => failures(results_view(results@)) > 0 && strings_view(lines@)
                == report_lines(results_view(results@)),
        },
{
    let ghost rv = results_view(results@);
    let mut lines: Vec<String> = Vec::new();
    let mut failed: usize = 0;
    let mut i: usize = 0;
    proof {
        assert(rv.take(0) =~= Seq::<(Seq<char>, Option<Seq<char>>)>::empty());
    }
    while i < results.len()
        invariant
            rv == results_view(results@),
            i <= results@.len(),
            lines@.len() == i,
            forall|j: int| 0 <= j < i ==> (#[trigger] lines@[j])@ == test_line(rv[j].0, rv[j].1),
            failed == failures(rv.take(i as int)),
            failed <= i,
        decreases results@.len() - i,
    {
        proof {
            assert(rv.take(i + 1).drop_last() =~= rv.take(i as int));
        }
        let name = chars_of(results[i].0.as_str());
        let line = match &results[i].1 {
            None => {
                let mut out = chars_of("PASS ");
                push_all(&mut out, name.as_slice());
                string_of(out.as_slice())
            },
            Some(m) => {
                let mut out = chars_of("FAIL ");
                push_all(&mut out, name.as_slice());
                let sep = chars_of(": ");
                push_all(&mut out, sep.as_slice());
                let mc = chars_of(m.as_str());
                push_all(&mut out, mc.as_slice());
                failed = failed + 1;
                string_of(out.as_slice())
            },
        };
        assert(line@ =~= test_line(rv[i as int].0, rv[i as int].1));
        lines.push(line);
        i = i + 1;
    }
    proof {
        assert(rv.take(results@.len() as int) =~= rv);
    }
    let passed = results.len() - failed;
    let mut summary = decimal_chars(passed);
    let middle = chars_of(" passed; ");
    push_all(&mut summary, middle.as_slice());
    let f = decimal_chars(failed);
    push_all(&mut summary, f.as_slice());
    let end = chars_of(" failed");
    push_all(&mut summary, end.as_slice());
    lines.push(string_of(summary.as_slice()));
    assert(strings_view(lines@) =~= report_lines(rv));
    if failed == 0 {
        Ok(lines)
    } else {
        Err(lines)
    }
}

} // verus!
