//! The checks that the interpreter makes on a call of a native function
//! before it computes anything: where the call stands, which arguments are
//! left over, and whether a test or a display takes a name already taken.
use vstd::prelude::*;
use crate::text::{
    chars_of, lemma_text_less_total, lemma_text_less_trans, push_all, str_eq, str_less, string_of,
    text_less,
};

verus! {

/// The native functions that the interpreter binds to the builtin names.
#[derive(Clone, Copy, Debug, PartialEq, Eq, Structural)]
pub enum NativeFunctionKind {
    Hook,
    UseNode,
    UseState,
    UseEquation,
    Voltage,
    Conductance,
    Current,
    FixVoltage,
    DriveVoltage,
    Time,
    DeltaTime,
    StateGet(u64),
    StateSet(u64),
    Test,
    Assert,
    AssertClose,
    Simulate,
    UseSymbol,
    Section,
    Net,
    Display,
    PcbConfig,
    Render,
}

/// Whether a native function is a hook: one that only a function body may
/// call.
pub open spec fn is_hook(kind: NativeFunctionKind) -> bool {
    ||| kind is Hook
    ||| kind is UseNode
    ||| kind is UseState
    ||| kind is UseEquation
}

/// Where a native function may be called: hooks inside a function
/// (`depth > 0`), `render` at the top level only (`depth == 0`).
pub open spec fn placement_spec(kind: NativeFunctionKind, depth: nat) -> Result<(), Seq<char>> {
    if is_hook(kind) && depth == 0 {
        Err("hooks can only be called inside a function"@)
    } else if kind is Render && depth != 0 {
        Err("render can only be called at the top level"@)
    } else {
        Ok(())
    }
}

/// Checks where a native function is called, `function_depth` being the
/// number of function bodies that the call stands in.
pub fn check_placement(kind: NativeFunctionKind, function_depth: usize) -> (r: Result<(), String>)
    ensures
        match (r, placement_spec(kind, function_depth as nat)) {
            (Ok(_), Ok(_)) => true,
            (Err(m), Err(u)) => m@ == u,
            _ => false,
        },
{
    let hook = match kind {
        NativeFunctionKind::Hook => true,
        NativeFunctionKind::UseNode => true,
        NativeFunctionKind::UseState => true,
        NativeFunctionKind::UseEquation => true,
        _ => false,
    };
    if hook && function_depth == 0 {
        let m = chars_of("hooks can only be called inside a function");
        return Err(string_of(m.as_slice()));
    }
    let render = match kind {
        NativeFunctionKind::Render => true,
        _ => false,
    };
    if render && function_depth != 0 {
        let m = chars_of("render can only be called at the top level");
        return Err(string_of(m.as_slice()));
    }
    Ok(())
}

/// Whether `names[i]` comes first among `names` in the order of `str`
/// comparison, the order in which a map of arguments lists its keys.
pub open spec fn is_least(names: Seq<String>, i: int) -> bool {
    &&& 0 <= i < names.len()
    &&& forall|j: int| 0 <= j < names.len() ==> !text_less(#[trigger] names[j]@, names[i]@)
}

/// Only one text comes first: whichever leftover name the check picks, the
/// complaint reads the same.
pub proof fn lemma_least_is_unique(names: Seq<String>, i: int, j: int)
    requires
        is_least(names, i),
        is_least(names, j),
    ensures
        names[i]@ == names[j]@,
{
    lemma_text_less_total(names[i]@, names[j]@);
}

/// The complaint about an argument that the called function does not take.
pub open spec fn unexpected_message(name: Seq<char>) -> Seq<char> {
    "unexpected argument `"@ + name + "`"@
}

/// Checks that no argument is left once a call has taken those it knows;
/// `remaining` holds the names of the others. The complaint names the
/// first of them in the order of `str` comparison.
pub fn ensure_no_args(remaining: &Vec<String>) -> (r: Result<(), String>)
    ensures
        remaining@.len() == 0 ==> r is Ok,
        remaining@.len() > 0 ==> (r matches Err(m) && exists|i: int|
            is_least(remaining@, i) && m@ == unexpected_message(remaining@[i]@)),
{
    if remaining.len() == 0 {
        return Ok(());
    }
    let mut best: usize = 0;
    let mut k: usize = 1;
    proof {
        lemma_text_less_total(remaining@[0]@, remaining@[0]@);
    }
    while k < remaining.len()
        invariant
            1 <= k <= remaining@.len(),
            best < k,
            forall|j: int| 0 <= j < k ==> !text_less(#[trigger] remaining@[j]@, remaining@[best as int]@),
        decreases remaining@.len() - k,
    {
        if str_less(remaining[k].as_str(), remaining[best].as_str()) {
            proof {
                let ghost b = remaining@[best as int]@;
                let ghost c = remaining@[k as int]@;
                assert forall|j: int| 0 <= j < k + 1 implies !text_less(
                    #[trigger] remaining@[j]@,
                    c,
                ) by {
                    if j == k {
                        lemma_text_less_total(c, c);
                    } else if text_less(remaining@[j]@, c) {
                        lemma_text_less_trans(remaining@[j]@, c, b);
                    }
                }
            }
            best = k;
        }
        k = k + 1;
    }
    let mut out = chars_of("unexpected argument `");
    let name = chars_of(remaining[best].as_str());
    push_all(&mut out, name.as_slice());
    let tail = chars_of("`");
    push_all(&mut out, tail.as_slice());
    assert(is_least(remaining@, best as int));
    assert(out@ =~= unexpected_message(remaining@[best as int]@));
    Err(string_of(out.as_slice()))
}

/// The complaint about a test or a display that takes a name already taken;
/// `what` says which of the two.
pub open spec fn duplicate_message(what: Seq<char>, name: Seq<char>) -> Seq<char> {
    "duplicate "@ + what + " name `"@ + name + "`"@
}

/// Whether a name is among the names taken.
pub open spec fn is_taken(taken: Seq<String>, name: Seq<char>) -> bool {
    exists|i: int| 0 <= i < taken.len() && (#[trigger] taken[i])@ == name
}

/// Checks that a new test or display (`what`) takes a name that none
/// before it has.
pub fn ensure_new_name(taken: &Vec<String>, name: &str, what: &str) -> (r: Result<(), String>)
    ensures
        !is_taken(taken@, name@) ==> r is Ok,
        is_taken(taken@, name@) ==> (r matches Err(m) && m@ == duplicate_message(what@, name@)),
{
    let mut k: usize = 0;
    while k < taken.len()
        invariant
            k <= taken@.len(),
            forall|j: int| 0 <= j < k ==> (#[trigger] taken@[j])@ != name@,
        decreases taken@.len() - k,
    {
        if str_eq(taken[k].as_str(), name) {
            let mut out = chars_of("duplicate ");
            let w = chars_of(what);
            push_all(&mut out, w.as_slice());
            let middle = chars_of(" name `");
            push_all(&mut out, middle.as_slice());
            let n = chars_of(name);
            push_all(&mut out, n.as_slice());
            let tail = chars_of("`");
            push_all(&mut out, tail.as_slice());
            assert(out@ =~= duplicate_message(what@, name@));
            assert(taken@[k as int]@ == name@);
            return Err(string_of(out.as_slice()));
        }
        k = k + 1;
    }
    Ok(())
}

/// The kinds of value an argument of a native function can have.
#[derive(Clone, Copy, Debug, PartialEq, Eq, Structural)]
pub enum ValueKind {
    Number,
    Quantity,
    String,
    Boolean,
    Array,
    Object,
    Lambda,
    Node,
    NativeFunction,
    Nil,
}

/// Whether a value of kind `found` is accepted where `expected` is asked
/// for: the same kind, or a quantity where a number is asked for.
pub open spec fn kind_fits(found: ValueKind, expected: ValueKind) -> bool {
    found == expected || (expected is Number && found is Quantity)
}

/// How a kind of value is named in a complaint.
pub open spec fn kind_phrase(k: ValueKind) -> Seq<char> {
    match k {
        ValueKind::Number => "a number"@,
        ValueKind::Quantity => "a quantity"@,
        ValueKind::String => "a string"@,
        ValueKind::Boolean => "a boolean"@,
        ValueKind::Array => "an array"@,
        ValueKind::Object => "an object"@,
        ValueKind::Lambda => "a lambda"@,
        ValueKind::Node => "a node"@,
        ValueKind::NativeFunction => "a native function"@,
        ValueKind::Nil => "none"@,
    }
}

fn kind_phrase_chars(k: ValueKind) -> (r: Vec<char>)
    ensures
        r@ == kind_phrase(k),
{
    match k {
        ValueKind::Number => chars_of("a number"),
        ValueKind::Quantity => chars_of("a quantity"),
        ValueKind::String => chars_of("a string"),
        ValueKind::Boolean => chars_of("a boolean"),
        ValueKind::Array => chars_of("an array"),
        ValueKind::Object => chars_of("an object"),
        ValueKind::Lambda => chars_of("a lambda"),
        ValueKind::Node => chars_of("a node"),
        ValueKind::NativeFunction => chars_of("a native function"),
        ValueKind::Nil => chars_of("none"),
    }
}

/// The complaint about a missing argument.
pub open spec fn missing_message(name: Seq<char>) -> Seq<char> {
    "missing argument `"@ + name + "`"@
}

/// The complaint about an argument of the wrong kind; `context` is what
/// the message starts with (`use_symbol ` for that function, else empty).
pub open spec fn wrong_kind_message(context: Seq<char>, name: Seq<char>, expected: ValueKind) -> Seq<
    char,
> {
    context + "argument `"@ + name + "` must be "@ + kind_phrase(expected)
}

/// Checks the kind of an argument that a native function requires:
/// `found` is the kind of the value given under `name`, if any.
pub fn expect_argument(context: &str, name: &str, found: Option<ValueKind>, expected: ValueKind) -> (r:
    Result<(), String>)
    ensures
        match found {
            None => r matches Err(m) && m@ == missing_message(name@),
            Some(k) => if kind_fits(k, expected) {
                r is Ok
            } else {
                r matches Err(m) && m@ == wrong_kind_message(context@, name@, expected)
            },
        },
{
    match found {
        None => {
            let mut out = chars_of("missing argument `");
            let n = chars_of(name);
            push_all(&mut out, n.as_slice());
            let tail = chars_of("`");
            push_all(&mut out, tail.as_slice());
            assert(out@ =~= missing_message(name@));
            Err(string_of(out.as_slice()))
        },
        Some(k) => {
            let fits = k == expected || (expected == ValueKind::Number && k == ValueKind::Quantity);
            if fits {
                return Ok(());
            }
            let mut out = chars_of(context);
            let a = chars_of("argument `");
            push_all(&mut out, a.as_slice());
            let n = chars_of(name);
            push_all(&mut out, n.as_slice());
            let b = chars_of("` must be ");
            push_all(&mut out, b.as_slice());
            let phrase = kind_phrase_chars(expected);
            push_all(&mut out, phrase.as_slice());
            assert(out@ =~= wrong_kind_message(context@, name@, expected));
            Err(string_of(out.as_slice()))
        },
    }
}

/// Names in strictly increasing order, as the keys of a map.
pub open spec fn keys_ordered(names: Seq<Seq<char>>) -> bool {
    forall|i: int, j: int| 0 <= i < j < names.len() ==> text_less(names[i], names[j])
}

/// The complaint about a pin mapping that is not a string.
pub open spec fn pin_not_text_message(port: Seq<char>) -> Seq<char> {
    "kicad pin mapping `"@ + port + "` must be a string"@
}

/// The complaint about a pin mapping for a port the symbol does not have.
pub open spec fn unknown_port_message(port: Seq<char>) -> Seq<char> {
    "kicad pin mapping references unknown port `"@ + port + "`"@
}

/// The complaint about symbol ports left without a pin.
pub open spec fn unmapped_ports_message() -> Seq<char> {
    "kicad.pins must map every symbol port"@
}

/// The pins read in order: each must be a string (`Some`) and name a port
/// of the symbol; the first that fails is reported.
pub open spec fn read_pins(ports: Seq<Seq<char>>, pins: Seq<(Seq<char>, Option<Seq<char>>)>) -> Result<
    Seq<(Seq<char>, Seq<char>)>,
    Seq<char>,
>
    decreases pins.len(),
{
    if pins.len() == 0 {
        Ok(Seq::empty())
    } else {
        match read_pins(ports, pins.drop_last()) {
            Err(m) => Err(m),
            Ok(acc) => {
                let (port, value) = pins.last();
                match value {
                    None => Err(pin_not_text_message(port)),
                    Some(pin) => if ports.contains(port) {
                        Ok(acc.push((port, pin)))
                    } else {
                        Err(unknown_port_message(port))
                    },
                }
            },
        }
    }
}

/// The KiCad pin mapping of a symbol: the pins read in order, which must
/// then be as many as the symbol's ports.
pub open spec fn pin_mapping_spec(ports: Seq<Seq<char>>, pins: Seq<(Seq<char>, Option<Seq<char>>)>) -> Result<
    Seq<(Seq<char>, Seq<char>)>,
    Seq<char>,
> {
    match read_pins(ports, pins) {
        Err(m) => Err(m),
        Ok(acc) => if acc.len() == ports.len() {
            Ok(acc)
        } else {
            Err(unmapped_ports_message())
        },
    }
}

/// The names of a sequence of strings.
pub open spec fn names_of(v: Seq<String>) -> Seq<Seq<char>> {
    Seq::new(v.len(), |i: int| v[i]@)
}

/// The pin entries as values.
pub open spec fn pin_entries(v: Seq<(String, Option<String>)>) -> Seq<(Seq<char>, Option<Seq<char>>)> {
    Seq::new(
        v.len(),
        |i: int|
            (
                v[i].0@,
                match v[i].1 {
                    Some(p) => Some(p@),
                    None => None,
                },
            ),
    )
}

/// The pin mapping as values.
pub open spec fn pairs_view(v: Seq<(String, String)>) -> Seq<(Seq<char>, Seq<char>)> {
    Seq::new(v.len(), |i: int| (v[i].0@, v[i].1@))
}

/// Checks the KiCad pin mapping of a symbol: `ports` are the names of the
/// symbol's ports and `pins` the entries of `kicad.pins`, each with its pin
/// when the value is a string; both in order of name, as maps hold them.
/// Gives the mapping from port to pin.
pub fn check_pin_mapping(ports: &Vec<String>, pins: &Vec<(String, Option<String>)>) -> (r: Result<
    Vec<(String, String)>,
    String,
>)
    requires
        keys_ordered(names_of(ports@)),
        keys_ordered(Seq::new(pins@.len(), |i: int| pins@[i].0@)),
    ensures
        match (r, pin_mapping_spec(names_of(ports@), pin_entries(pins@))) {
            (Ok(v), Ok(u)) => pairs_view(v@) == u,
            (Err(m), Err(u)) => m@ == u,
            _ => false,
        },
        r matches Ok(v) ==> maps_every_port(names_of(ports@), pairs_view(v@)),
{
    let ghost pv = names_of(ports@);
    let ghost ev = pin_entries(pins@);
    let mut out: Vec<(String, String)> = Vec::new();
    let mut k: usize = 0;
    proof {
        assert(ev.take(0) =~= Seq::<(Seq<char>, Option<Seq<char>>)>::empty());
        assert(pairs_view(out@) =~= Seq::<(Seq<char>, Seq<char>)>::empty());
    }
    while k < pins.len()
        invariant
            pv == names_of(ports@),
            ev == pin_entries(pins@),
            k <= pins@.len(),
            read_pins(pv, ev.take(k as int)) == Ok::<Seq<(Seq<char>, Seq<char>)>, Seq<char>>(
                pairs_view(out@),
            ),
        decreases pins@.len() - k,
    {
        let ghost before = pairs_view(out@);
        proof {
            assert(ev.take(k + 1).drop_last() =~= ev.take(k as int));
            assert(ev.take(k + 1).last() == ev[k as int]);
        }
        let port = &pins[k].0;
        match &pins[k].1 {
            None => {
                let mut m = chars_of("kicad pin mapping `");
                let p = chars_of(port.as_str());
                push_all(&mut m, p.as_slice());
                let tail = chars_of("` must be a string");
                push_all(&mut m, tail.as_slice());
                assert(m@ =~= pin_not_text_message(port@));
                proof {
                    lemma_read_pins_err(pv, ev, k as int + 1);
                }
                return Err(string_of(m.as_slice()));
            },
            Some(pin) => {
                let mut j: usize = 0;
                let mut known = false;
                while j < ports.len()
                    invariant
                        pv == names_of(ports@),
                        j <= ports@.len(),
                        known == exists|i: int| 0 <= i < j && pv[i] == port@,
                    decreases ports@.len() - j,
                {
                    if str_eq(ports[j].as_str(), port.as_str()) {
                        known = true;
                    }
                    proof {
                        if known {
                            if pv[j as int] == port@ {
                                assert(0 <= j < j + 1 && pv[j as int] == port@);
                            } else {
                                let i = choose|i: int| 0 <= i < j && pv[i] == port@;
                                assert(0 <= i < j + 1 && pv[i] == port@);
                            }
                        } else {
                            assert forall|i: int| 0 <= i < j + 1 implies pv[i] != port@ by {
                                if i < j {
                                    assert(!(0 <= i < j && pv[i] == port@));
                                }
                            }
                        }
                    }
                    j = j + 1;
                }
                proof {
                    if known {
                        let i = choose|i: int| 0 <= i < j && pv[i] == port@;
                        assert(pv.contains(port@));
                    } else {
                        assert(!pv.contains(port@));
                    }
                }
                if !known {
                    let mut m = chars_of("kicad pin mapping references unknown port `");
                    let p = chars_of(port.as_str());
                    push_all(&mut m, p.as_slice());
                    let tail = chars_of("`");
                    push_all(&mut m, tail.as_slice());
                    assert(m@ =~= unknown_port_message(port@));
                    proof {
                        lemma_read_pins_err(pv, ev, k as int + 1);
                    }
                    return Err(string_of(m.as_slice()));
                }
                out.push((port.clone(), pin.clone()));
                assert(pairs_view(out@) =~= before.push((port@, pin@)));
            },
        }
        k = k + 1;
    }
    proof {
        assert(ev.take(pins@.len() as int) =~= ev);
    }
    if out.len() != ports.len() {
        let m = chars_of("kicad.pins must map every symbol port");
        return Err(string_of(m.as_slice()));
    }
    proof {
        assert(Seq::new(ev.len(), |i: int| ev[i].0) =~= Seq::new(pins@.len(), |i: int| pins@[i].0@));
        lemma_pin_mapping_covers(pv, ev);
        assert(pairs_view(out@).len() == pv.len());
        assert(pin_mapping_spec(pv, ev) == Ok::<Seq<(Seq<char>, Seq<char>)>, Seq<char>>(
            pairs_view(out@),
        ));
        assert(maps_every_port(pv, pairs_view(out@)));
    }
    Ok(out)
}

/// Once reading the pins fails, reading more of them fails the same way.
proof fn lemma_read_pins_err(ports: Seq<Seq<char>>, pins: Seq<(Seq<char>, Option<Seq<char>>)>, k: int)
    requires
        0 <= k <= pins.len(),
        read_pins(ports, pins.take(k)) is Err,
    ensures
        read_pins(ports, pins) == read_pins(ports, pins.take(k)),
    decreases pins.len() - k,
{
    if k < pins.len() {
        assert(pins.take(k + 1).drop_last() =~= pins.take(k));
        lemma_read_pins_err(ports, pins, k + 1);
    } else {
        assert(pins.take(k) =~= pins);
    }
}

proof fn lemma_read_pins_ok(ports: Seq<Seq<char>>, pins: Seq<(Seq<char>, Option<Seq<char>>)>)
    ensures
        read_pins(ports, pins) matches Ok(acc) ==> {
            &&& acc.len() == pins.len()
            &&& forall|i: int|
                0 <= i < acc.len() ==> (#[trigger] acc[i]).0 == pins[i].0 && ports.contains(acc[i].0)
        },
    decreases pins.len(),
{
    if pins.len() > 0 {
        lemma_read_pins_ok(ports, pins.drop_last());
    }
}

proof fn lemma_ordered_no_duplicates(names: Seq<Seq<char>>)
    requires
        keys_ordered(names),
    ensures
        names.no_duplicates(),
{
    assert forall|i: int, j: int| 0 <= i < names.len() && 0 <= j < names.len() && i != j implies
        names[i] != names[j] by {
        lemma_text_less_total(names[i], names[i]);
    }
}

/// Whether every port has a pin in the mapping.
pub open spec fn maps_every_port(ports: Seq<Seq<char>>, mapping: Seq<(Seq<char>, Seq<char>)>) -> bool {
    forall|p: Seq<char>|
        ports.contains(p) ==> exists|i: int| 0 <= i < mapping.len() && (#[trigger] mapping[i]).0 == p
}

/// A pin mapping that passes the check maps every port of the symbol.
pub proof fn lemma_pin_mapping_covers(ports: Seq<Seq<char>>, pins: Seq<(Seq<char>, Option<Seq<char>>)>)
    requires
        keys_ordered(ports),
        keys_ordered(Seq::new(pins.len(), |i: int| pins[i].0)),
    ensures
        pin_mapping_spec(ports, pins) matches Ok(acc) ==> maps_every_port(ports, acc),
{
    lemma_read_pins_ok(ports, pins);
    if let Ok(acc) = pin_mapping_spec(ports, pins) {
        let names = Seq::new(acc.len(), |i: int| acc[i].0);
        let keys = Seq::new(pins.len(), |i: int| pins[i].0);
        assert(names =~= keys);
        lemma_ordered_no_duplicates(names);
        lemma_ordered_no_duplicates(ports);
        names.unique_seq_to_set();
        ports.unique_seq_to_set();
        assert(names.to_set().subset_of(ports.to_set())) by {
            assert forall|x: Seq<char>| names.to_set().contains(x) implies ports.to_set().contains(x) by {
                let i = choose|i: int| 0 <= i < names.len() && names[i] == x;
                assert(ports.contains(acc[i].0));
            }
        }
        vstd::set_lib::lemma_subset_equality(names.to_set(), ports.to_set());
        assert forall|p: Seq<char>| ports.contains(p) implies exists|i: int|
            0 <= i < acc.len() && (#[trigger] acc[i]).0 == p by {
            assert(ports.to_set().contains(p));
            assert(names.to_set().contains(p));
            let i = choose|i: int| 0 <= i < names.len() && names[i] == p;
            assert(acc[i].0 == p);
        }
    }
}

/// The outcome of `assert`: nothing when the condition holds, else the
/// caller's message, or `assertion failed` when it gave none.
pub open spec fn assert_spec(condition: bool, message: Option<Seq<char>>) -> Result<(), Seq<char>> {
    if condition {
        Ok(())
    } else {
        match message {
            Some(m) => Err(m),
            None => Err("assertion failed"@),
        }
    }
}

/// Decides an `assert` call.
pub fn assert_outcome(condition: bool, message: Option<String>) -> (r: Result<(), String>)
    ensures
        match (r, assert_spec(condition, match message {
            Some(m) => Some(m@),
            None => None,
        })) {
            (Ok(_), Ok(_)) => true,
            (Err(m), Err(u)) => m@ == u,
            _ => false,
        },
{
    if condition {
        return Ok(());
    }
    match message {
        Some(m) => Err(m),
        None => {
            let d = chars_of("assertion failed");
            Err(string_of(d.as_slice()))
        },
    }
}

} // verus!
