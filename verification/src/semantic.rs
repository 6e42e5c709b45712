//! The type algebra of the semantic checker: value types, their equality
//! and compatibility, unions, and the typing rule of each kind of
//! expression with the diagnostics it reports.
use vstd::prelude::*;
use crate::ast::{BinaryOperator, UnaryOperator};
use crate::resolver::{Symbol, SymbolView};
use crate::results::Results;
use crate::text::{
    chars_of, lemma_text_less_total, push_all, str_eq, string_of, strings_view,
    text_less,
};

verus! {

/// The type of a value as far as the checker knows it.
#[derive(Debug)]
pub enum ValueType {
    Unknown,
    Never,
    Node,
    Number,
    /// A number of a unit, named by its symbol (for example `V`).
    Quantity(String),
    String,
    Boolean,
    Nil,
    Array(Box<ValueType>),
    /// Field names and types, in increasing order of name (see
    /// [`type_wf`]).
    Object(Vec<(String, ValueType)>),
    /// Parameter names and types, in increasing order of name, and the
    /// result type.
    Lambda { params: Vec<(String, ValueType)>, rtn: Box<ValueType> },
    Optional(Box<ValueType>),
    Tuple(Vec<ValueType>),
    Union(Vec<ValueType>),
}

/// The mathematical value of a [`ValueType`].
pub enum TypeView {
    Unknown,
    Never,
    Node,
    Number,
    Quantity(Seq<char>),
    Str,
    Boolean,
    Nil,
    Array(Box<TypeView>),
    Object(Seq<(Seq<char>, TypeView)>),
    Lambda(Seq<(Seq<char>, TypeView)>, Box<TypeView>),
    Optional(Box<TypeView>),
    Tuple(Seq<TypeView>),
    Union(Seq<TypeView>),
}

impl ValueType {
    pub open spec fn view(&self) -> TypeView
        decreases self,
    {
        match self {
            ValueType::Unknown => TypeView::Unknown,
            ValueType::Never => TypeView::Never,
            ValueType::Node => TypeView::Node,
            ValueType::Number => TypeView::Number,
            ValueType::Quantity(u) => TypeView::Quantity(u@),
            ValueType::String => TypeView::Str,
            ValueType::Boolean => TypeView::Boolean,
            ValueType::Nil => TypeView::Nil,
            ValueType::Array(t) => TypeView::Array(Box::new(t.view())),
            ValueType::Object(fields) => TypeView::Object(fields_view(fields@)),
            ValueType::Lambda { params, rtn } => TypeView::Lambda(
                fields_view(params@),
                Box::new(rtn.view()),
            ),
            ValueType::Optional(t) => TypeView::Optional(Box::new(t.view())),
            ValueType::Tuple(ts) => TypeView::Tuple(types_view(ts@)),
            ValueType::Union(ts) => TypeView::Union(types_view(ts@)),
        }
    }
}

/// The values of a sequence of named types.
pub open spec fn fields_view(fields: Seq<(String, ValueType)>) -> Seq<(Seq<char>, TypeView)>
    decreases fields,
{
    if fields.len() == 0 {
        Seq::empty()
    } else {
        fields_view(fields.drop_last()).push((fields.last().0@, fields.last().1.view()))
    }
}

/// The values of a sequence of types.
pub open spec fn types_view(types: Seq<ValueType>) -> Seq<TypeView>
    decreases types,
{
    if types.len() == 0 {
        Seq::empty()
    } else {
        types_view(types.drop_last()).push(types.last().view())
    }
}

/// Names in strictly increasing order, so each name once: the shape of the
/// keys of a map.
pub open spec fn names_ordered(fields: Seq<(Seq<char>, TypeView)>) -> bool {
    forall|i: int, j: int| 0 <= i < j < fields.len() ==> text_less(fields[i].0, fields[j].0)
}

/// A well-formed type: the fields of every object type and the parameters
/// of every function type, at any depth, are held in increasing order of
/// name with no name twice, as the keys of a map.
pub open spec fn type_wf(t: TypeView) -> bool
    decreases t,
{
    match t {
        TypeView::Array(b) => type_wf(*b),
        TypeView::Optional(b) => type_wf(*b),
        TypeView::Object(fs) => names_ordered(fs) && fields_wf(fs),
        TypeView::Lambda(ps, r) => names_ordered(ps) && fields_wf(ps) && type_wf(*r),
        TypeView::Tuple(ts) => types_wf(ts),
        TypeView::Union(ts) => types_wf(ts),
        _ => true,
    }
}

/// Every type of a sequence of named types is well formed.
pub open spec fn fields_wf(fields: Seq<(Seq<char>, TypeView)>) -> bool
    decreases fields,
{
    if fields.len() == 0 {
        true
    } else {
        fields_wf(fields.drop_last()) && type_wf(fields.last().1)
    }
}

/// Every type of a sequence of types is well formed.
pub open spec fn types_wf(types: Seq<TypeView>) -> bool
    decreases types,
{
    if types.len() == 0 {
        true
    } else {
        types_wf(types.drop_last()) && type_wf(types.last())
    }
}

pub proof fn lemma_fields_view(fields: Seq<(String, ValueType)>)
    ensures
        fields_view(fields).len() == fields.len(),
        forall|i: int|
            0 <= i < fields.len() ==> #[trigger] fields_view(fields)[i] == (
                fields[i].0@,
                fields[i].1.view(),
            ),
    decreases fields.len(),
{
    if fields.len() > 0 {
        lemma_fields_view(fields.drop_last());
        assert forall|i: int| 0 <= i < fields.len() implies #[trigger] fields_view(fields)[i] == (
            fields[i].0@,
            fields[i].1.view(),
        ) by {
            if i < fields.len() - 1 {
                assert(fields.drop_last()[i] == fields[i]);
            }
        }
    }
}

pub proof fn lemma_types_view(types: Seq<ValueType>)
    ensures
        types_view(types).len() == types.len(),
        forall|i: int| 0 <= i < types.len() ==> #[trigger] types_view(types)[i] == types[i].view(),
    decreases types.len(),
{
    if types.len() > 0 {
        lemma_types_view(types.drop_last());
        assert forall|i: int| 0 <= i < types.len() implies #[trigger] types_view(types)[i]
            == types[i].view() by {
            if i < types.len() - 1 {
                assert(types.drop_last()[i] == types[i]);
            }
        }
    }
}

/// Two sequences with the same length and the same items are equal.
proof fn lemma_seq_pointwise<T>(a: Seq<T>, b: Seq<T>)
    requires
        a.len() == b.len(),
        forall|i: int| 0 <= i < a.len() ==> a[i] == b[i],
    ensures
        a == b,
{
    assert(a =~= b);
}

impl ValueType {
    /// A copy of the type.
    pub fn duplicate(&self) -> (r: ValueType)
        ensures
            r.view() == self.view(),
        decreases self,
    {
        match self {
            ValueType::Unknown => ValueType::Unknown,
            ValueType::Never => ValueType::Never,
            ValueType::Node => ValueType::Node,
            ValueType::Number => ValueType::Number,
            ValueType::Quantity(u) => ValueType::Quantity(u.clone()),
            ValueType::String => ValueType::String,
            ValueType::Boolean => ValueType::Boolean,
            ValueType::Nil => ValueType::Nil,
            ValueType::Array(t) => ValueType::Array(Box::new(t.duplicate())),
            ValueType::Optional(t) => ValueType::Optional(Box::new(t.duplicate())),
            ValueType::Object(fields) => {
                proof {
                    let ghost w = self->Object_0;
                    assert(decreases_to!(*self => w));
                }
                ValueType::Object(Self::duplicate_fields(fields, Ghost(*self)))
            },
            ValueType::Lambda { params, rtn } => {
                let p = Self::duplicate_fields(params, Ghost(*self));
                ValueType::Lambda { params: p, rtn: Box::new(rtn.duplicate()) }
            },
            ValueType::Tuple(ts) => ValueType::Tuple(Self::duplicate_types(ts, Ghost(*self))),
            ValueType::Union(ts) => ValueType::Union(Self::duplicate_types(ts, Ghost(*self))),
        }
    }

    fn duplicate_fields(fields: &Vec<(String, ValueType)>, Ghost(owner): Ghost<ValueType>) -> (r: Vec<
        (String, ValueType),
    >)
        requires
            decreases_to!(owner => *fields),
        ensures
            fields_view(r@) == fields_view(fields@),
        decreases owner, 0nat,
    {
        let mut out: Vec<(String, ValueType)> = Vec::new();
        let mut k: usize = 0;
        while k < fields.len()
            invariant
                decreases_to!(owner => *fields),
                k <= fields@.len(),
                out@.len() == k,
                forall|j: int| 0 <= j < k ==> (#[trigger] out@[j]).0@ == fields@[j].0@ && out@[j].1.view()
                    == fields@[j].1.view(),
            decreases fields@.len() - k,
        {
            proof {
                assert(decreases_to!(*fields => fields@));
                assert(decreases_to!(fields@ => fields@[k as int]));
                assert(decreases_to!(fields@[k as int] => fields@[k as int].1));
                assert(decreases_to!(owner => fields@[k as int].1));
            }
            let t = fields[k].1.duplicate();
            out.push((fields[k].0.clone(), t));
            k = k + 1;
        }
        proof {
            lemma_fields_view(out@);
            lemma_fields_view(fields@);
            lemma_seq_pointwise(fields_view(out@), fields_view(fields@));
        }
        out
    }

    fn duplicate_types(types: &Vec<ValueType>, Ghost(owner): Ghost<ValueType>) -> (r: Vec<ValueType>)
        requires
            decreases_to!(owner => *types),
        ensures
            types_view(r@) == types_view(types@),
        decreases owner, 0nat,
    {
        let mut out: Vec<ValueType> = Vec::new();
        let mut k: usize = 0;
        while k < types.len()
            invariant
                decreases_to!(owner => *types),
                k <= types@.len(),
                out@.len() == k,
                forall|j: int| 0 <= j < k ==> (#[trigger] out@[j]).view() == types@[j].view(),
            decreases types@.len() - k,
        {
            proof {
                assert(decreases_to!(*types => types@));
                assert(decreases_to!(types@ => types@[k as int]));
                assert(decreases_to!(owner => types@[k as int]));
            }
            let t = types[k].duplicate();
            out.push(t);
            k = k + 1;
        }
        proof {
            lemma_types_view(out@);
            lemma_types_view(types@);
            lemma_seq_pointwise(types_view(out@), types_view(types@));
        }
        out
    }
}


impl Clone for ValueType {
    fn clone(&self) -> (r: Self)
        ensures
            r.view() == self.view(),
    {
        self.duplicate()
    }
}

impl ValueType {
    /// Whether two types are written alike, field by field in the order
    /// held.
    fn same_in_order(&self, other: &ValueType) -> (r: bool)
        ensures
            r == (self.view() == other.view()),
        decreases self,
    {
        match (self, other) {
            (ValueType::Unknown, ValueType::Unknown) => true,
            (ValueType::Never, ValueType::Never) => true,
            (ValueType::Node, ValueType::Node) => true,
            (ValueType::Number, ValueType::Number) => true,
            (ValueType::Quantity(a), ValueType::Quantity(b)) => str_eq(a.as_str(), b.as_str()),
            (ValueType::String, ValueType::String) => true,
            (ValueType::Boolean, ValueType::Boolean) => true,
            (ValueType::Nil, ValueType::Nil) => true,
            (ValueType::Array(a), ValueType::Array(b)) => a.same_in_order(b),
            (ValueType::Optional(a), ValueType::Optional(b)) => a.same_in_order(b),
            (ValueType::Object(a), ValueType::Object(b)) => Self::same_fields(a, b, Ghost(*self)),
            (
                ValueType::Lambda { params: pa, rtn: ra },
                ValueType::Lambda { params: pb, rtn: rb },
            ) => {
                let p = Self::same_fields(pa, pb, Ghost(*self));
                let q = ra.same_in_order(rb);
                p && q
            },
            (ValueType::Tuple(a), ValueType::Tuple(b)) => Self::same_types(a, b, Ghost(*self)),
            (ValueType::Union(a), ValueType::Union(b)) => Self::same_types(a, b, Ghost(*self)),
            _ => false,
        }
    }

    fn same_fields(
        a: &Vec<(String, ValueType)>,
        b: &Vec<(String, ValueType)>,
        Ghost(owner): Ghost<ValueType>,
    ) -> (r: bool)
        requires
            decreases_to!(owner => *a),
        ensures
            r == (fields_view(a@) == fields_view(b@)),
        decreases owner, 0nat,
    {
        proof {
            lemma_fields_view(a@);
            lemma_fields_view(b@);
        }
        if a.len() != b.len() {
            return false;
        }
        let mut k: usize = 0;
        while k < a.len()
            invariant
                decreases_to!(owner => *a),
                a@.len() == b@.len(),
                k <= a@.len(),
                fields_view(a@).len() == a@.len(),
                fields_view(b@).len() == b@.len(),
                forall|i: int|
                    0 <= i < a@.len() ==> #[trigger] fields_view(a@)[i] == (a@[i].0@, a@[i].1.view()),
                forall|i: int|
                    0 <= i < b@.len() ==> #[trigger] fields_view(b@)[i] == (b@[i].0@, b@[i].1.view()),
                forall|j: int| 0 <= j < k ==> fields_view(a@)[j] == fields_view(b@)[j],
            decreases a@.len() - k,
        {
            proof {
                assert(decreases_to!(*a => a@));
                assert(decreases_to!(a@ => a@[k as int]));
                assert(decreases_to!(a@[k as int] => a@[k as int].1));
                assert(decreases_to!(owner => a@[k as int].1));
            }
            let names = str_eq(a[k].0.as_str(), b[k].0.as_str());
            let types = a[k].1.same_in_order(&b[k].1);
            if !(names && types) {
                assert(fields_view(a@)[k as int] != fields_view(b@)[k as int]);
                return false;
            }
            k = k + 1;
        }
        proof {
            lemma_seq_pointwise(fields_view(a@), fields_view(b@));
        }
        true
    }

    fn same_types(a: &Vec<ValueType>, b: &Vec<ValueType>, Ghost(owner): Ghost<ValueType>) -> (r:
        bool)
        requires
            decreases_to!(owner => *a),
        ensures
            r == (types_view(a@) == types_view(b@)),
        decreases owner, 0nat,
    {
        proof {
            lemma_types_view(a@);
            lemma_types_view(b@);
        }
        if a.len() != b.len() {
            return false;
        }
        let mut k: usize = 0;
        while k < a.len()
            invariant
                decreases_to!(owner => *a),
                a@.len() == b@.len(),
                k <= a@.len(),
                types_view(a@).len() == a@.len(),
                types_view(b@).len() == b@.len(),
                forall|i: int| 0 <= i < a@.len() ==> #[trigger] types_view(a@)[i] == a@[i].view(),
                forall|i: int| 0 <= i < b@.len() ==> #[trigger] types_view(b@)[i] == b@[i].view(),
                forall|j: int| 0 <= j < k ==> types_view(a@)[j] == types_view(b@)[j],
            decreases a@.len() - k,
        {
            proof {
                assert(decreases_to!(*a => a@));
                assert(decreases_to!(a@ => a@[k as int]));
                assert(decreases_to!(owner => a@[k as int]));
            }
            if !a[k].same_in_order(&b[k]) {
                assert(types_view(a@)[k as int] != types_view(b@)[k as int]);
                return false;
            }
            k = k + 1;
        }
        proof {
            lemma_seq_pointwise(types_view(a@), types_view(b@));
        }
        true
    }
}

impl ValueType {
    /// Whether two well-formed types are the same type: for object and
    /// function types, the same names with the same types.
    pub fn same(&self, other: &ValueType) -> (r: bool)
        requires
            type_wf(self.view()),
            type_wf(other.view()),
        ensures
            r == (self.view() == other.view()),
    {
        self.same_in_order(other)
    }
}

/// Values of the two types may meet: the types are the same, or one of them
/// is unknown.
pub open spec fn compatible_spec(a: TypeView, b: TypeView) -> bool {
    a == b || a is Unknown || b is Unknown
}

fn compatible_types(a: &ValueType, b: &ValueType) -> (r: bool)
    ensures
        r == compatible_spec(a.view(), b.view()),
{
    match (a, b) {
        (ValueType::Unknown, _) => true,
        (_, ValueType::Unknown) => true,
        _ => a.same_in_order(b),
    }
}

/// Whether values of two well-formed types may meet.
pub fn compatible(a: &ValueType, b: &ValueType) -> (r: bool)
    requires
        type_wf(a.view()),
        type_wf(b.view()),
    ensures
        r == compatible_spec(a.view(), b.view()),
{
    compatible_types(a, b)
}

/// Compatibility is reflexive and symmetric.
pub proof fn lemma_compatible_symmetric(a: TypeView, b: TypeView)
    ensures
        compatible_spec(a, a),
        compatible_spec(a, b) == compatible_spec(b, a),
{
}

/// The types of `types` without repetitions, each kept at its first place.
pub open spec fn distinct_types(types: Seq<TypeView>) -> Seq<TypeView>
    decreases types.len(),
{
    if types.len() == 0 {
        types
    } else {
        let d = distinct_types(types.drop_last());
        if d.contains(types.last()) {
            d
        } else {
            d.push(types.last())
        }
    }
}

/// The type of a value of any of `types`: none for no type, the type itself
/// for one, and their union otherwise.
pub open spec fn unify_spec(types: Seq<TypeView>) -> TypeView {
    let d = distinct_types(types);
    if d.len() == 0 {
        TypeView::Nil
    } else if d.len() == 1 {
        d[0]
    } else {
        TypeView::Union(d)
    }
}

/// The union of a type with itself is that type.
pub proof fn lemma_unify_same(t: TypeView)
    ensures
        unify_spec(seq![t]) == t,
        unify_spec(seq![t, t]) == t,
{
    let one = seq![t];
    let two = seq![t, t];
    assert(one.drop_last() =~= Seq::<TypeView>::empty());
    assert(two.drop_last() =~= one);
    assert(distinct_types(Seq::<TypeView>::empty()) =~= Seq::<TypeView>::empty());
    assert(!Seq::<TypeView>::empty().contains(t));
    assert(distinct_types(one) =~= Seq::<TypeView>::empty().push(t));
    assert(distinct_types(one)[0] == t);
    assert(distinct_types(one).contains(t));
}

pub(crate) fn unify_rule(types: Vec<ValueType>) -> (r: ValueType)
    ensures
        r.view() == unify_spec(types_view(types@)),
{
    let ghost tv = types_view(types@);
    proof {
        lemma_types_view(types@);
    }
    let mut unique: Vec<ValueType> = Vec::new();
    let mut k: usize = 0;
    proof {
        assert(tv.take(0) =~= Seq::<TypeView>::empty());
        assert(types_view(unique@) =~= Seq::<TypeView>::empty());
    }
    while k < types.len()
        invariant
            tv == types_view(types@),
            tv.len() == types@.len(),
            forall|i: int| 0 <= i < types@.len() ==> #[trigger] tv[i] == types@[i].view(),
            k <= types@.len(),
            types_view(unique@) == distinct_types(tv.take(k as int)),
        decreases types@.len() - k,
    {
        let ghost uv = types_view(unique@);
        proof {
            lemma_types_view(unique@);
            assert(tv.take(k + 1).drop_last() =~= tv.take(k as int));
            assert(tv.take(k + 1).last() == types@[k as int].view());
        }
        let mut j: usize = 0;
        let mut found = false;
        while j < unique.len()
            invariant
                uv == types_view(unique@),
                uv.len() == unique@.len(),
                forall|i: int| 0 <= i < unique@.len() ==> #[trigger] uv[i] == unique@[i].view(),
                k < types@.len(),
                j <= unique@.len(),
                found == exists|i: int| 0 <= i < j && uv[i] == types@[k as int].view(),
            decreases unique@.len() - j,
        {
            let ghost before = found;
            let hit = unique[j].same_in_order(&types[k]);
            if hit {
                found = true;
            }
            proof {
                assert(uv[j as int] == unique@[j as int].view());
                if hit {
                    assert(0 <= j < j + 1 && uv[j as int] == types@[k as int].view());
                } else if !before {
                    assert forall|i: int| 0 <= i < j + 1 implies uv[i] != types@[k as int].view() by {
                        if i < j {
                            assert(!(0 <= i < j && uv[i] == types@[k as int].view()));
                        }
                    }
                }
            }
            j = j + 1;
        }
        proof {
            if found {
                let i = choose|i: int| 0 <= i < j && uv[i] == types@[k as int].view();
                assert(uv.contains(types@[k as int].view()));
            } else {
                assert(!uv.contains(types@[k as int].view()));
            }
        }
        if !found {
            unique.push(types[k].duplicate());
            proof {
                lemma_types_view(unique@);
                lemma_seq_pointwise(types_view(unique@), uv.push(types@[k as int].view()));
            }
        }
        k = k + 1;
    }
    proof {
        assert(tv.take(types@.len() as int) =~= tv);
        lemma_types_view(unique@);
    }
    if unique.len() == 0 {
        ValueType::Nil
    } else if unique.len() == 1 {
        unique.pop().unwrap()
    } else {
        ValueType::Union(unique)
    }
}


// ---------------------------------------------------------------------------
// Typing rules
// ---------------------------------------------------------------------------

pub open spec fn operands_message() -> Seq<char> {
    "invalid operands for binary operator"@
}

pub open spec fn operand_message() -> Seq<char> {
    "invalid operand for unary operator"@
}

/// A type that numbers fit: a plain number, a number of a unit, or an
/// unknown type.
pub open spec fn numeric(t: TypeView) -> bool {
    t is Number || t is Quantity || t is Unknown
}

/// Two operands do not carry different units.
pub open spec fn units_agree(l: TypeView, r: TypeView) -> bool {
    !(l is Quantity && r is Quantity && l->Quantity_0 != r->Quantity_0)
}

/// The type of a sum or a scaled number: the unit of either operand, a
/// plain number when neither has one.
pub open spec fn measured(l: TypeView, r: TypeView) -> TypeView {
    match (l, r) {
        (TypeView::Quantity(u), _) => TypeView::Quantity(u),
        (_, TypeView::Quantity(u)) => TypeView::Quantity(u),
        _ => TypeView::Number,
    }
}

fn is_numeric(t: &ValueType) -> (r: bool)
    ensures
        r == numeric(t.view()),
{
    match t {
        ValueType::Number => true,
        ValueType::Quantity(_) => true,
        ValueType::Unknown => true,
        _ => false,
    }
}

fn agree(l: &ValueType, r: &ValueType) -> (b: bool)
    ensures
        b == units_agree(l.view(), r.view()),
{
    match (l, r) {
        (ValueType::Quantity(a), ValueType::Quantity(b)) => str_eq(a.as_str(), b.as_str()),
        _ => true,
    }
}

fn measure(l: &ValueType, r: &ValueType) -> (t: ValueType)
    ensures
        t.view() == measured(l.view(), r.view()),
{
    match (l, r) {
        (ValueType::Quantity(u), _) => ValueType::Quantity(u.clone()),
        (_, ValueType::Quantity(u)) => ValueType::Quantity(u.clone()),
        _ => ValueType::Number,
    }
}

/// The type of a binary operation on operands of types `l` and `r`.
pub open spec fn binary_type_spec(op: BinaryOperator, l: TypeView, r: TypeView) -> TypeView {
    match op {
        BinaryOperator::Equal => if compatible_spec(l, r) {
            TypeView::Boolean
        } else {
            TypeView::Unknown
        },
        BinaryOperator::LessThan
        | BinaryOperator::GreaterThan
        | BinaryOperator::LessThanOrEqual
        | BinaryOperator::GreaterThanOrEqual => if numeric(l) && numeric(r) && units_agree(l, r) {
            TypeView::Boolean
        } else {
            TypeView::Unknown
        },
        BinaryOperator::Add | BinaryOperator::Sub => if numeric(l) && numeric(r) && units_agree(l, r) {
            measured(l, r)
        } else {
            TypeView::Unknown
        },
        BinaryOperator::Mul | BinaryOperator::Div => if numeric(l) && numeric(r) {
            if l is Quantity && r is Quantity {
                TypeView::Number
            } else {
                measured(l, r)
            }
        } else {
            TypeView::Unknown
        },
        BinaryOperator::Wire => if compatible_spec(TypeView::Node, l) && compatible_spec(
            TypeView::Node,
            r,
        ) {
            TypeView::Node
        } else {
            TypeView::Unknown
        },
        BinaryOperator::Union => match (l, r) {
            (TypeView::Object(a), TypeView::Object(b)) => TypeView::Object(merge_fields(a, b)),
            _ => TypeView::Unknown,
        },
    }
}

/// The fields of two objects merged: for field lists in name order, the
/// union of the fields in name order, a field of `b` replacing the field of
/// `a` with the same name.
pub open spec fn merge_fields(a: Seq<(Seq<char>, TypeView)>, b: Seq<(Seq<char>, TypeView)>) -> Seq<
    (Seq<char>, TypeView),
>
    decreases a.len() + b.len(),
{
    if a.len() == 0 {
        b
    } else if b.len() == 0 {
        a
    } else if a[0].0 == b[0].0 {
        seq![b[0]] + merge_fields(a.drop_first(), b.drop_first())
    } else if text_less(a[0].0, b[0].0) {
        seq![a[0]] + merge_fields(a.drop_first(), b)
    } else {
        seq![b[0]] + merge_fields(a, b.drop_first())
    }
}

/// Arithmetic on plain numbers is plain arithmetic: for every arithmetic
/// operator, operands that are numbers (or of unknown type), with no unit,
/// give a number; comparisons of such operands give a boolean. Such an
/// operation, and an equality test, is never reported.
pub proof fn lemma_plain_arithmetic(op: BinaryOperator, l: TypeView, r: TypeView)
    requires
        l is Number || l is Unknown,
        r is Number || r is Unknown,
    ensures
        (op is Add || op is Sub || op is Mul || op is Div) ==> binary_type_spec(op, l, r)
            == TypeView::Number,
        (op is LessThan || op is GreaterThan || op is LessThanOrEqual || op is GreaterThanOrEqual)
            ==> binary_type_spec(op, l, r) == TypeView::Boolean,
        !(op is Union || op is Wire) ==> !(binary_type_spec(op, l, r) is Unknown),
{
}

/// Units carry through sums: adding or subtracting two numbers of one unit
/// gives a number of that unit, and numbers of two different units cannot
/// be added, subtracted or compared.
pub proof fn lemma_units_in_sums(op: BinaryOperator, u: Seq<char>, v: Seq<char>)
    ensures
        (op is Add || op is Sub) ==> binary_type_spec(op, TypeView::Quantity(u), TypeView::Quantity(u))
            == TypeView::Quantity(u),
        (u != v && (op is Add || op is Sub || op is LessThan || op is GreaterThan
            || op is LessThanOrEqual || op is GreaterThanOrEqual)) ==> binary_type_spec(
            op,
            TypeView::Quantity(u),
            TypeView::Quantity(v),
        ) is Unknown,
{
}

/// Merges the fields of two object types (see [`merge_fields`]).
fn merge_objects(a: &Vec<(String, ValueType)>, b: &Vec<(String, ValueType)>) -> (r: Vec<
    (String, ValueType),
>)
    ensures
        fields_view(r@) == merge_fields(fields_view(a@), fields_view(b@)),
{
    let ghost av = fields_view(a@);
    let ghost bv = fields_view(b@);
    proof {
        lemma_fields_view(a@);
        lemma_fields_view(b@);
        assert(av.skip(0) =~= av);
        assert(bv.skip(0) =~= bv);
    }
    let mut out: Vec<(String, ValueType)> = Vec::new();
    let mut i: usize = 0;
    let mut j: usize = 0;
    proof {
        lemma_fields_view(out@);
        assert(fields_view(out@) + merge_fields(av.skip(0), bv.skip(0)) =~= merge_fields(av, bv));
    }
    while i < a.len() || j < b.len()
        invariant
            av == fields_view(a@),
            bv == fields_view(b@),
            av.len() == a@.len(),
            bv.len() == b@.len(),
            forall|k: int| 0 <= k < a@.len() ==> #[trigger] av[k] == (a@[k].0@, a@[k].1.view()),
            forall|k: int| 0 <= k < b@.len() ==> #[trigger] bv[k] == (b@[k].0@, b@[k].1.view()),
            i <= a@.len(),
            j <= b@.len(),
            fields_view(out@) + merge_fields(av.skip(i as int), bv.skip(j as int)) == merge_fields(
                av,
                bv,
            ),
        decreases a@.len() + b@.len() - i - j,
    {
        let ghost before = fields_view(out@);
        let ghost sa = av.skip(i as int);
        let ghost sb = bv.skip(j as int);
        proof {
            lemma_fields_view(out@);
            if i < a@.len() {
                assert(sa[0] == av[i as int]);
                assert(sa.drop_first() =~= av.skip(i + 1));
            }
            if j < b@.len() {
                assert(sb[0] == bv[j as int]);
                assert(sb.drop_first() =~= bv.skip(j + 1));
            }
        }
        let take_a;
        let take_b;
        if i == a.len() {
            take_a = false;
            take_b = true;
        } else if j == b.len() {
            take_a = true;
            take_b = false;
        } else if str_eq(a[i].0.as_str(), b[j].0.as_str()) {
            take_a = false;
            take_b = true;
            i = i + 1;
        } else if crate::text::str_less(a[i].0.as_str(), b[j].0.as_str()) {
            take_a = true;
            take_b = false;
        } else {
            take_a = false;
            take_b = true;
        }
        if take_a {
            out.push((a[i].0.clone(), a[i].1.duplicate()));
            i = i + 1;
        } else {
            out.push((b[j].0.clone(), b[j].1.duplicate()));
            j = j + 1;
        }
        proof {
            lemma_fields_view(out@);
            let now = fields_view(out@);
            assert(now =~= before.push(now.last()));
            assert(now + merge_fields(av.skip(i as int), bv.skip(j as int)) =~= before + (seq![
                now.last(),
            ] + merge_fields(av.skip(i as int), bv.skip(j as int))));
        }
    }
    proof {
        assert(av.skip(i as int) =~= Seq::<(Seq<char>, TypeView)>::empty());
        assert(fields_view(out@) + merge_fields(av.skip(i as int), bv.skip(j as int)) =~= fields_view(
            out@,
        ));
    }
    out
}

fn text(s: &str) -> (r: String)
    ensures
        r@ == s@,
{
    s.to_owned()
}

/// Types a binary operation: an error is reported when the operation has
/// no type although both operand types are known.
pub(crate) fn binary_type_rule(op: BinaryOperator, lhs: &ValueType, rhs: &ValueType) -> (r: Results<
    ValueType,
    String,
>)
    ensures
        r.spec_value().view() == binary_type_spec(op, lhs.view(), rhs.view()),
        strings_view(r.spec_errors()) == if binary_type_spec(op, lhs.view(), rhs.view()) is Unknown
            && !(lhs.view() is Unknown) && !(rhs.view() is Unknown) {
            seq![operands_message()]
        } else {
            Seq::empty()
        },
{
    let node = ValueType::Node;
    let ty = match op {
        BinaryOperator::Equal => if compatible_types(lhs, rhs) {
            ValueType::Boolean
        } else {
            ValueType::Unknown
        },
        BinaryOperator::LessThan
        | BinaryOperator::GreaterThan
        | BinaryOperator::LessThanOrEqual
        | BinaryOperator::GreaterThanOrEqual => if is_numeric(lhs) && is_numeric(rhs) && agree(
            lhs,
            rhs,
        ) {
            ValueType::Boolean
        } else {
            ValueType::Unknown
        },
        BinaryOperator::Add | BinaryOperator::Sub => if is_numeric(lhs) && is_numeric(rhs) && agree(
            lhs,
            rhs,
        ) {
            measure(lhs, rhs)
        } else {
            ValueType::Unknown
        },
        BinaryOperator::Mul | BinaryOperator::Div => if is_numeric(lhs) && is_numeric(rhs) {
            let both = matches!(lhs, ValueType::Quantity(_)) && matches!(rhs, ValueType::Quantity(_));
            if both {
                ValueType::Number
            } else {
                measure(lhs, rhs)
            }
        } else {
            ValueType::Unknown
        },
        BinaryOperator::Wire => if compatible_types(&node, lhs) && compatible_types(&node, rhs) {
            ValueType::Node
        } else {
            ValueType::Unknown
        },
        BinaryOperator::Union => match (lhs, rhs) {
            (ValueType::Object(a), ValueType::Object(b)) => ValueType::Object(merge_objects(a, b)),
            _ => ValueType::Unknown,
        },
    };
    let unknown = matches!(ty, ValueType::Unknown) && !matches!(lhs, ValueType::Unknown)
        && !matches!(rhs, ValueType::Unknown);
    if unknown {
        let r = Results::with_error(ty, text("invalid operands for binary operator"));
        assert(strings_view(r.spec_errors()) =~= seq![operands_message()]);
        r
    } else {
        let r = Results::ok(ty);
        assert(strings_view(r.spec_errors()) =~= Seq::<Seq<char>>::empty());
        r
    }
}

/// The type of a unary operation on an operand of type `a`.
pub open spec fn unary_type_spec(op: UnaryOperator, a: TypeView) -> TypeView {
    match op {
        UnaryOperator::Negate => if a is Quantity {
            a
        } else if numeric(a) {
            TypeView::Number
        } else {
            TypeView::Unknown
        },
        UnaryOperator::Flip => if compatible_spec(TypeView::Boolean, a) {
            TypeView::Boolean
        } else {
            TypeView::Unknown
        },
    }
}

/// Types a unary operation: an error is reported when the operation has no
/// type although the operand type is known.
pub(crate) fn unary_type_rule(op: UnaryOperator, arg: &ValueType) -> (r: Results<ValueType, String>)
    ensures
        r.spec_value().view() == unary_type_spec(op, arg.view()),
        strings_view(r.spec_errors()) == if unary_type_spec(op, arg.view()) is Unknown && !(
        arg.view() is Unknown) {
            seq![operand_message()]
        } else {
            Seq::empty()
        },
{
    let ty = match op {
        UnaryOperator::Negate => match arg {
            ValueType::Quantity(u) => ValueType::Quantity(u.clone()),
            _ => if is_numeric(arg) {
                ValueType::Number
            } else {
                ValueType::Unknown
            },
        },
        UnaryOperator::Flip => if compatible_types(&ValueType::Boolean, arg) {
            ValueType::Boolean
        } else {
            ValueType::Unknown
        },
    };
    if matches!(ty, ValueType::Unknown) && !matches!(arg, ValueType::Unknown) {
        let r = Results::with_error(ty, text("invalid operand for unary operator"));
        assert(strings_view(r.spec_errors()) =~= seq![operand_message()]);
        r
    } else {
        let r = Results::ok(ty);
        assert(strings_view(r.spec_errors()) =~= Seq::<Seq<char>>::empty());
        r
    }
}

/// The type of the first entry named `name`.
pub open spec fn field_get(fields: Seq<(Seq<char>, TypeView)>, name: Seq<char>) -> Option<TypeView>
    decreases fields.len(),
{
    if fields.len() == 0 {
        None
    } else {
        match field_get(fields.drop_last(), name) {
            Some(t) => Some(t),
            None => if fields.last().0 == name {
                Some(fields.last().1)
            } else {
                None
            },
        }
    }
}

proof fn lemma_field_get_index(fields: Seq<(Seq<char>, TypeView)>, name: Seq<char>)
    ensures
        match field_get(fields, name) {
            Some(t) => exists|i: int| 0 <= i < fields.len() && fields[i].0 == name && fields[i].1 == t,
            None => forall|i: int| 0 <= i < fields.len() ==> fields[i].0 != name,
        },
    decreases fields.len(),
{
    if fields.len() > 0 {
        let init = fields.drop_last();
        lemma_field_get_index(init, name);
        match field_get(init, name) {
            Some(t) => {
                let i = choose|i: int| 0 <= i < init.len() && init[i].0 == name && init[i].1 == t;
                assert(fields[i] == init[i]);
            },
            None => {
                assert forall|i: int| 0 <= i < fields.len() - 1 implies fields[i].0 != name by {
                    assert(fields[i] == init[i]);
                }
            },
        }
    }
}

proof fn lemma_field_get_ordered(fields: Seq<(Seq<char>, TypeView)>, i: int)
    requires
        names_ordered(fields),
        0 <= i < fields.len(),
    ensures
        field_get(fields, fields[i].0) == Some(fields[i].1),
    decreases fields.len(),
{
    let init = fields.drop_last();
    let name = fields[i].0;
    if i == fields.len() - 1 {
        lemma_field_get_index(init, name);
        if field_get(init, name) is Some {
            let k = choose|k: int| 0 <= k < init.len() && init[k].0 == name && #[trigger] init[k].1
                == field_get(init, name)->0;
            assert(init[k] == fields[k]);
            lemma_text_less_total(name, name);
        }
    } else {
        assert(names_ordered(init)) by {
            assert forall|a: int, b: int| 0 <= a < b < init.len() implies text_less(
                init[a].0,
                init[b].0,
            ) by {
                assert(init[a] == fields[a] && init[b] == fields[b]);
            }
        }
        assert(init[i] == fields[i]);
        lemma_field_get_ordered(init, i);
    }
}

/// Field lists in increasing order of name that give every name the same
/// type are the same list: for well-formed types, comparing the fields of
/// two object types (or the parameters of two function types) in order is
/// comparing them as maps from name to type.
pub proof fn lemma_ordered_fields_as_map(a: Seq<(Seq<char>, TypeView)>, b: Seq<(Seq<char>, TypeView)>)
    requires
        names_ordered(a),
        names_ordered(b),
    ensures
        (a == b) <==> (forall|n: Seq<char>| #[trigger] field_get(a, n) == field_get(b, n)),
{
    if forall|n: Seq<char>| #[trigger] field_get(a, n) == field_get(b, n) {
        lemma_fields_map_equal(a, b);
    }
}

proof fn lemma_fields_map_equal(a: Seq<(Seq<char>, TypeView)>, b: Seq<(Seq<char>, TypeView)>)
    requires
        names_ordered(a),
        names_ordered(b),
        forall|n: Seq<char>| #[trigger] field_get(a, n) == field_get(b, n),
    ensures
        a == b,
    decreases a.len() + b.len(),
{
    if a.len() == 0 {
        if b.len() > 0 {
            lemma_field_get_ordered(b, 0);
            assert(field_get(a, b[0].0) is None);
        }
        assert(a =~= b);
    } else if b.len() == 0 {
        lemma_field_get_ordered(a, 0);
        assert(field_get(b, a[0].0) is None);
    } else {
        let la = a.last();
        let lb = b.last();
        lemma_field_get_ordered(a, a.len() - 1);
        lemma_field_get_ordered(b, b.len() - 1);
        assert(field_get(b, la.0) == Some(la.1));
        assert(field_get(a, lb.0) == Some(lb.1));
        lemma_field_get_index(b, la.0);
        lemma_field_get_index(a, lb.0);
        let j = choose|j: int| 0 <= j < b.len() && b[j].0 == la.0 && #[trigger] b[j].1 == la.1;
        let i = choose|i: int| 0 <= i < a.len() && a[i].0 == lb.0 && #[trigger] a[i].1 == lb.1;
        if la.0 != lb.0 {
            assert(i != a.len() - 1);
            assert(j != b.len() - 1);
            assert(text_less(lb.0, la.0));
            assert(text_less(la.0, lb.0));
            lemma_text_less_total(la.0, lb.0);
        }
        assert(la == lb);
        let ia = a.drop_last();
        let ib = b.drop_last();
        assert(names_ordered(ia)) by {
            assert forall|x: int, y: int| 0 <= x < y < ia.len() implies text_less(ia[x].0, ia[y].0) by {
                assert(ia[x] == a[x] && ia[y] == a[y]);
            }
        }
        assert(names_ordered(ib)) by {
            assert forall|x: int, y: int| 0 <= x < y < ib.len() implies text_less(ib[x].0, ib[y].0) by {
                assert(ib[x] == b[x] && ib[y] == b[y]);
            }
        }
        assert forall|n: Seq<char>| #[trigger] field_get(ia, n) == field_get(ib, n) by {
            lemma_field_get_index(ia, n);
            lemma_field_get_index(ib, n);
            if n == la.0 {
                if field_get(ia, n) is Some {
                    let k = choose|k: int| 0 <= k < ia.len() && ia[k].0 == n && #[trigger] ia[k].1
                        == field_get(ia, n)->0;
                    assert(ia[k] == a[k]);
                    lemma_text_less_total(n, n);
                }
                if field_get(ib, n) is Some {
                    let k = choose|k: int| 0 <= k < ib.len() && ib[k].0 == n && #[trigger] ib[k].1
                        == field_get(ib, n)->0;
                    assert(ib[k] == b[k]);
                    lemma_text_less_total(n, n);
                }
            } else {
                assert(field_get(a, n) == field_get(ia, n));
                assert(field_get(b, n) == field_get(ib, n));
            }
        }
        lemma_fields_map_equal(ia, ib);
        assert(a =~= ia.push(la));
        assert(b =~= ib.push(lb));
    }
}

proof fn lemma_field_get_prefix(fields: Seq<(Seq<char>, TypeView)>, name: Seq<char>, n: int)
    requires
        0 <= n <= fields.len(),
        field_get(fields.take(n), name) is Some,
    ensures
        field_get(fields, name) == field_get(fields.take(n), name),
    decreases fields.len() - n,
{
    if n < fields.len() {
        assert(fields.take(n + 1).drop_last() =~= fields.take(n));
        lemma_field_get_prefix(fields, name, n + 1);
    } else {
        assert(fields.take(n) =~= fields);
    }
}

/// The entry of `fields` named `name`, if any.
fn find_field<'a>(fields: &'a Vec<(String, ValueType)>, name: &str) -> (r: Option<&'a ValueType>)
    ensures
        match r {
            Some(t) => field_get(fields_view(fields@), name@) == Some(t.view()),
            None => field_get(fields_view(fields@), name@) is None,
        },
{
    let ghost fv = fields_view(fields@);
    proof {
        lemma_fields_view(fields@);
        assert(fv.take(0) =~= Seq::<(Seq<char>, TypeView)>::empty());
    }
    let mut i: usize = 0;
    while i < fields.len()
        invariant
            fv == fields_view(fields@),
            fv.len() == fields@.len(),
            forall|j: int| 0 <= j < fields@.len() ==> #[trigger] fv[j] == (fields@[j].0@, fields@[j].1.view()),
            i <= fields@.len(),
            field_get(fv.take(i as int), name@) is None,
        decreases fields@.len() - i,
    {
        proof {
            assert(fv.take(i + 1).drop_last() =~= fv.take(i as int));
            assert(fv.take(i + 1).last() == fv[i as int]);
        }
        if str_eq(fields[i].0.as_str(), name) {
            proof {
                lemma_field_get_prefix(fv, name@, i + 1);
            }
            return Some(&fields[i].1);
        }
        i = i + 1;
    }
    proof {
        assert(fv.take(fields@.len() as int) =~= fv);
    }
    None
}

pub open spec fn wrong_type_message(name: Seq<char>) -> Seq<char> {
    "argument `"@ + name + "` has the wrong type"@
}

pub open spec fn missing_argument_message(name: Seq<char>) -> Seq<char> {
    "missing argument `"@ + name + "`"@
}

pub open spec fn unexpected_argument_message(name: Seq<char>) -> Seq<char> {
    "unexpected argument `"@ + name + "`"@
}

pub open spec fn not_callable_message() -> Seq<char> {
    "only lambdas can be called"@
}

/// Whether a value of type `a` may be passed where type `e` is expected:
/// when either is unknown or `a` has no values; a plain number where a
/// number of a unit is expected; no value, or what fits the inner type,
/// where an optional type is expected; what fits one option of a union;
/// an object with at least the expected fields, each fitting; an array
/// whose items fit, or array items that each fit, where an array is
/// expected; items that fit position by position, or array items that fit
/// every position, where a tuple is expected; otherwise the same type.
pub open spec fn assignable(a: TypeView, e: TypeView) -> bool
    decreases e, 0nat,
{
    if a is Unknown || e is Unknown || a is Never {
        true
    } else {
        match e {
            TypeView::Quantity(u) => a is Number || a == e,
            TypeView::Optional(t) => a is Nil || assignable(a, *t) || match a {
                TypeView::Optional(s) => assignable(*s, *t),
                _ => false,
            },
            TypeView::Union(ts) => any_assignable(a, ts),
            TypeView::Object(efs) => match a {
                TypeView::Object(afs) => fields_assignable(afs, efs),
                _ => false,
            },
            TypeView::Array(t) => match a {
                TypeView::Array(s) => assignable(*s, *t),
                TypeView::Tuple(ss) => all_assignable(ss, *t),
                _ => false,
            },
            TypeView::Tuple(ts) => match a {
                TypeView::Tuple(ss) => ss.len() == ts.len() && items_assignable(ss, ts),
                TypeView::Array(s) => fits_all(*s, ts),
                _ => false,
            },
            _ => a == e,
        }
    }
}

/// `a` fits one of `ts`.
pub open spec fn any_assignable(a: TypeView, ts: Seq<TypeView>) -> bool
    decreases ts, ts.len(),
{
    if ts.len() == 0 {
        false
    } else {
        any_assignable(a, ts.drop_last()) || assignable(a, ts.last())
    }
}

/// Each of `ss` fits `t`.
pub open spec fn all_assignable(ss: Seq<TypeView>, t: TypeView) -> bool
    decreases t, ss.len(),
{
    if ss.len() == 0 {
        true
    } else {
        all_assignable(ss.drop_last(), t) && assignable(ss.last(), t)
    }
}

/// `s` fits each of `ts`.
pub open spec fn fits_all(s: TypeView, ts: Seq<TypeView>) -> bool
    decreases ts, ts.len(),
{
    if ts.len() == 0 {
        true
    } else {
        fits_all(s, ts.drop_last()) && assignable(s, ts.last())
    }
}

/// The items of `ss` fit those of `ts`, position by position, as far as
/// `ts` goes.
pub open spec fn items_assignable(ss: Seq<TypeView>, ts: Seq<TypeView>) -> bool
    decreases ts, ts.len(),
{
    if ts.len() == 0 {
        true
    } else {
        items_assignable(ss, ts.drop_last()) && ts.len() <= ss.len() && assignable(
            ss[ts.len() - 1],
            ts.last(),
        )
    }
}

/// Each expected field is among the actual ones, with a type that fits.
pub open spec fn fields_assignable(afs: Seq<(Seq<char>, TypeView)>, efs: Seq<(Seq<char>, TypeView)>) -> bool
    decreases efs, efs.len(),
{
    if efs.len() == 0 {
        true
    } else {
        fields_assignable(afs, efs.drop_last()) && match field_get(afs, efs.last().0) {
            Some(t) => assignable(t, efs.last().1),
            None => false,
        }
    }
}

impl ValueType {
    /// Whether a value of this type may be passed where `expected` is
    /// expected (see [`assignable`]).
    pub fn fits(&self, expected: &ValueType) -> (r: bool)
        ensures
            r == assignable(self.view(), expected.view()),
        decreases expected,
    {
        if matches!(self, ValueType::Unknown) || matches!(expected, ValueType::Unknown) || matches!(
            self,
            ValueType::Never
        ) {
            return true;
        }
        match expected {
            ValueType::Quantity(_) => {
                match self {
                    ValueType::Number => true,
                    _ => self.same_in_order(expected),
                }
            },
            ValueType::Optional(t) => {
                if matches!(self, ValueType::Nil) {
                    return true;
                }
                if self.fits(t) {
                    return true;
                }
                match self {
                    ValueType::Optional(s) => s.fits(t),
                    _ => false,
                }
            },
            ValueType::Union(ts) => {
                proof {
                    assert(decreases_to!(*expected => *ts));
                }
                Self::fits_any(self, ts, Ghost(*expected))
            },
            ValueType::Object(efs) => match self {
                ValueType::Object(afs) => {
                    proof {
                        assert(decreases_to!(*expected => *efs));
                    }
                    Self::fields_fit(afs, efs, Ghost(*expected))
                },
                _ => false,
            },
            ValueType::Array(t) => match self {
                ValueType::Array(s) => s.fits(t),
                ValueType::Tuple(ss) => {
                    proof {
                        assert(decreases_to!(*expected => **t));
                    }
                    Self::all_fit(ss, t, Ghost(*expected))
                },
                _ => false,
            },
            ValueType::Tuple(ts) => {
                proof {
                    assert(decreases_to!(*expected => *ts));
                }
                match self {
                    ValueType::Tuple(ss) => {
                        proof {
                            lemma_types_view(ss@);
                            lemma_types_view(ts@);
                        }
                        ss.len() == ts.len() && Self::items_fit(ss, ts, Ghost(*expected))
                    },
                    ValueType::Array(s) => Self::fits_every(s, ts, Ghost(*expected)),
                    _ => false,
                }
            },
            _ => self.same_in_order(expected),
        }
    }

    fn fits_any(a: &ValueType, ts: &Vec<ValueType>, Ghost(owner): Ghost<ValueType>) -> (r: bool)
        requires
            decreases_to!(owner => *ts),
        ensures
            r == any_assignable(a.view(), types_view(ts@)),
        decreases owner, 0nat,
    {
        let ghost tv = types_view(ts@);
        proof {
            lemma_types_view(ts@);
            assert(tv.take(0) =~= Seq::<TypeView>::empty());
        }
        let mut k: usize = 0;
        while k < ts.len()
            invariant
                decreases_to!(owner => *ts),
                tv == types_view(ts@),
                tv.len() == ts@.len(),
                forall|i: int| 0 <= i < ts@.len() ==> #[trigger] tv[i] == ts@[i].view(),
                k <= ts@.len(),
                !any_assignable(a.view(), tv.take(k as int)),
            decreases ts@.len() - k,
        {
            proof {
                assert(decreases_to!(*ts => ts@));
                assert(decreases_to!(ts@ => ts@[k as int]));
                assert(decreases_to!(owner => ts@[k as int]));
                assert(tv.take(k + 1).drop_last() =~= tv.take(k as int));
            }
            if a.fits(&ts[k]) {
                proof {
                    lemma_any_prefix(a.view(), tv, k as int + 1);
                }
                return true;
            }
            k = k + 1;
        }
        proof {
            assert(tv.take(k as int) =~= tv);
        }
        false
    }

    fn all_fit(ss: &Vec<ValueType>, t: &ValueType, Ghost(owner): Ghost<ValueType>) -> (r: bool)
        requires
            decreases_to!(owner => *t),
        ensures
            r == all_assignable(types_view(ss@), t.view()),
        decreases owner, 0nat,
    {
        let ghost sv = types_view(ss@);
        proof {
            lemma_types_view(ss@);
            assert(sv.take(0) =~= Seq::<TypeView>::empty());
        }
        let mut k: usize = 0;
        while k < ss.len()
            invariant
                decreases_to!(owner => *t),
                sv == types_view(ss@),
                sv.len() == ss@.len(),
                forall|i: int| 0 <= i < ss@.len() ==> #[trigger] sv[i] == ss@[i].view(),
                k <= ss@.len(),
                all_assignable(sv.take(k as int), t.view()),
            decreases ss@.len() - k,
        {
            proof {
                assert(sv.take(k + 1).drop_last() =~= sv.take(k as int));
            }
            if !ss[k].fits(t) {
                proof {
                    lemma_all_prefix(sv, t.view(), k as int + 1);
                }
                return false;
            }
            k = k + 1;
        }
        proof {
            assert(sv.take(k as int) =~= sv);
        }
        true
    }

    fn fits_every(s: &ValueType, ts: &Vec<ValueType>, Ghost(owner): Ghost<ValueType>) -> (r: bool)
        requires
            decreases_to!(owner => *ts),
        ensures
            r == fits_all(s.view(), types_view(ts@)),
        decreases owner, 0nat,
    {
        let ghost tv = types_view(ts@);
        proof {
            lemma_types_view(ts@);
            assert(tv.take(0) =~= Seq::<TypeView>::empty());
        }
        let mut k: usize = 0;
        while k < ts.len()
            invariant
                decreases_to!(owner => *ts),
                tv == types_view(ts@),
                tv.len() == ts@.len(),
                forall|i: int| 0 <= i < ts@.len() ==> #[trigger] tv[i] == ts@[i].view(),
                k <= ts@.len(),
                fits_all(s.view(), tv.take(k as int)),
            decreases ts@.len() - k,
        {
            proof {
                assert(decreases_to!(*ts => ts@));
                assert(decreases_to!(ts@ => ts@[k as int]));
                assert(decreases_to!(owner => ts@[k as int]));
                assert(tv.take(k + 1).drop_last() =~= tv.take(k as int));
            }
            if !s.fits(&ts[k]) {
                proof {
                    lemma_fits_all_prefix(s.view(), tv, k as int + 1);
                }
                return false;
            }
            k = k + 1;
        }
        proof {
            assert(tv.take(k as int) =~= tv);
        }
        true
    }

    fn items_fit(ss: &Vec<ValueType>, ts: &Vec<ValueType>, Ghost(owner): Ghost<ValueType>) -> (r: bool)
        requires
            decreases_to!(owner => *ts),
            ss@.len() == ts@.len(),
        ensures
            r == items_assignable(types_view(ss@), types_view(ts@)),
        decreases owner, 0nat,
    {
        let ghost sv = types_view(ss@);
        let ghost tv = types_view(ts@);
        proof {
            lemma_types_view(ss@);
            lemma_types_view(ts@);
            assert(tv.take(0) =~= Seq::<TypeView>::empty());
        }
        let mut k: usize = 0;
        while k < ts.len()
            invariant
                decreases_to!(owner => *ts),
                sv == types_view(ss@),
                tv == types_view(ts@),
                sv.len() == ss@.len(),
                tv.len() == ts@.len(),
                ss@.len() == ts@.len(),
                forall|i: int| 0 <= i < ss@.len() ==> #[trigger] sv[i] == ss@[i].view(),
                forall|i: int| 0 <= i < ts@.len() ==> #[trigger] tv[i] == ts@[i].view(),
                k <= ts@.len(),
                items_assignable(sv, tv.take(k as int)),
            decreases ts@.len() - k,
        {
            proof {
                assert(decreases_to!(*ts => ts@));
                assert(decreases_to!(ts@ => ts@[k as int]));
                assert(decreases_to!(owner => ts@[k as int]));
                assert(tv.take(k + 1).drop_last() =~= tv.take(k as int));
                assert(tv.take(k + 1).last() == tv[k as int]);
            }
            if !ss[k].fits(&ts[k]) {
                proof {
                    lemma_items_prefix(sv, tv, k as int + 1);
                }
                return false;
            }
            k = k + 1;
        }
        proof {
            assert(tv.take(k as int) =~= tv);
        }
        true
    }

    fn fields_fit(
        afs: &Vec<(String, ValueType)>,
        efs: &Vec<(String, ValueType)>,
        Ghost(owner): Ghost<ValueType>,
    ) -> (r: bool)
        requires
            decreases_to!(owner => *efs),
        ensures
            r == fields_assignable(fields_view(afs@), fields_view(efs@)),
        decreases owner, 0nat,
    {
        let ghost av = fields_view(afs@);
        let ghost ev = fields_view(efs@);
        proof {
            lemma_fields_view(efs@);
            assert(ev.take(0) =~= Seq::<(Seq<char>, TypeView)>::empty());
        }
        let mut k: usize = 0;
        while k < efs.len()
            invariant
                decreases_to!(owner => *efs),
                av == fields_view(afs@),
                ev == fields_view(efs@),
                ev.len() == efs@.len(),
                forall|i: int| 0 <= i < efs@.len() ==> #[trigger] ev[i] == (efs@[i].0@, efs@[i].1.view()),
                k <= efs@.len(),
                fields_assignable(av, ev.take(k as int)),
            decreases efs@.len() - k,
        {
            proof {
                assert(decreases_to!(*efs => efs@));
                assert(decreases_to!(efs@ => efs@[k as int]));
                assert(decreases_to!(efs@[k as int] => efs@[k as int].1));
                assert(decreases_to!(owner => efs@[k as int].1));
                assert(ev.take(k + 1).drop_last() =~= ev.take(k as int));
                assert(ev.take(k + 1).last() == ev[k as int]);
            }
            let ok = match find_field(afs, efs[k].0.as_str()) {
                Some(actual) => actual.fits(&efs[k].1),
                None => false,
            };
            if !ok {
                proof {
                    lemma_fields_prefix(av, ev, k as int + 1);
                }
                return false;
            }
            k = k + 1;
        }
        proof {
            assert(ev.take(k as int) =~= ev);
        }
        true
    }
}

proof fn lemma_any_prefix(a: TypeView, ts: Seq<TypeView>, k: int)
    requires
        0 <= k <= ts.len(),
        any_assignable(a, ts.take(k)),
    ensures
        any_assignable(a, ts),
    decreases ts.len() - k,
{
    if k < ts.len() {
        assert(ts.take(k + 1).drop_last() =~= ts.take(k));
        lemma_any_prefix(a, ts, k + 1);
    } else {
        assert(ts.take(k) =~= ts);
    }
}

proof fn lemma_all_prefix(ss: Seq<TypeView>, t: TypeView, k: int)
    requires
        0 <= k <= ss.len(),
        !all_assignable(ss.take(k), t),
    ensures
        !all_assignable(ss, t),
    decreases ss.len() - k,
{
    if k < ss.len() {
        assert(ss.take(k + 1).drop_last() =~= ss.take(k));
        lemma_all_prefix(ss, t, k + 1);
    } else {
        assert(ss.take(k) =~= ss);
    }
}

proof fn lemma_fits_all_prefix(s: TypeView, ts: Seq<TypeView>, k: int)
    requires
        0 <= k <= ts.len(),
        !fits_all(s, ts.take(k)),
    ensures
        !fits_all(s, ts),
    decreases ts.len() - k,
{
    if k < ts.len() {
        assert(ts.take(k + 1).drop_last() =~= ts.take(k));
        lemma_fits_all_prefix(s, ts, k + 1);
    } else {
        assert(ts.take(k) =~= ts);
    }
}

proof fn lemma_items_prefix(ss: Seq<TypeView>, ts: Seq<TypeView>, k: int)
    requires
        0 <= k <= ts.len(),
        !items_assignable(ss, ts.take(k)),
    ensures
        !items_assignable(ss, ts),
    decreases ts.len() - k,
{
    if k < ts.len() {
        assert(ts.take(k + 1).drop_last() =~= ts.take(k));
        assert(ts.take(k + 1).len() == k + 1);
        lemma_items_prefix(ss, ts, k + 1);
    } else {
        assert(ts.take(k) =~= ts);
    }
}

proof fn lemma_fields_prefix(afs: Seq<(Seq<char>, TypeView)>, efs: Seq<(Seq<char>, TypeView)>, k: int)
    requires
        0 <= k <= efs.len(),
        !fields_assignable(afs, efs.take(k)),
    ensures
        !fields_assignable(afs, efs),
    decreases efs.len() - k,
{
    if k < efs.len() {
        assert(efs.take(k + 1).drop_last() =~= efs.take(k));
        lemma_fields_prefix(afs, efs, k + 1);
    } else {
        assert(efs.take(k) =~= efs);
    }
}

/// The errors about the parameters of a call, in parameter order: a missing
/// argument, or one whose type does not fit.
pub open spec fn param_errors(params: Seq<(Seq<char>, TypeView)>, args: Seq<(Seq<char>, TypeView)>) -> Seq<
    Seq<char>,
>
    decreases params.len(),
{
    if params.len() == 0 {
        Seq::empty()
    } else {
        let rest = param_errors(params.drop_last(), args);
        let (name, expected) = params.last();
        match field_get(args, name) {
            Some(actual) => if assignable(actual, expected) {
                rest
            } else {
                rest.push(wrong_type_message(name))
            },
            None => rest.push(missing_argument_message(name)),
        }
    }
}

/// The errors about arguments that no parameter takes, in argument order.
pub open spec fn unexpected_errors(
    args: Seq<(Seq<char>, TypeView)>,
    params: Seq<(Seq<char>, TypeView)>,
) -> Seq<Seq<char>>
    decreases args.len(),
{
    if args.len() == 0 {
        Seq::empty()
    } else {
        let rest = unexpected_errors(args.drop_last(), params);
        if field_get(params, args.last().0) is None {
            rest.push(unexpected_argument_message(args.last().0))
        } else {
            rest
        }
    }
}

/// The type and the errors of a call of a value of type `callee`.
pub open spec fn call_type_spec(callee: TypeView, args: Seq<(Seq<char>, TypeView)>) -> (
    TypeView,
    Seq<Seq<char>>,
) {
    match callee {
        TypeView::Lambda(params, rtn) => (
            *rtn,
            param_errors(params, args) + unexpected_errors(args, params),
        ),
        TypeView::Unknown => (TypeView::Unknown, Seq::empty()),
        _ => (TypeView::Unknown, seq![not_callable_message()]),
    }
}

fn message(a: &str, name: &str, b: &str) -> (r: String)
    ensures
        r@ == a@ + name@ + b@,
{
    let mut out = chars_of(a);
    let n = chars_of(name);
    push_all(&mut out, n.as_slice());
    let t = chars_of(b);
    push_all(&mut out, t.as_slice());
    assert(out@ =~= a@ + name@ + b@);
    string_of(out.as_slice())
}

/// Types a call: the result type of the lambda called, with an error for
/// each missing, ill-typed or unexpected argument.
pub(crate) fn call_type_rule(callee: &ValueType, args: &Vec<(String, ValueType)>) -> (r: Results<ValueType, String>)
    ensures
        r.spec_value().view() == call_type_spec(callee.view(), fields_view(args@)).0,
        strings_view(r.spec_errors()) == call_type_spec(callee.view(), fields_view(args@)).1,
{
    let ghost av = fields_view(args@);
    match callee {
        ValueType::Lambda { params, rtn } => {
            let ghost pv = fields_view(params@);
            proof {
                lemma_fields_view(params@);
                lemma_fields_view(args@);
                assert(pv.take(0) =~= Seq::<(Seq<char>, TypeView)>::empty());
            }
            let mut errors: Vec<String> = Vec::new();
            assert(strings_view(errors@) =~= Seq::<Seq<char>>::empty());
            let mut i: usize = 0;
            while i < params.len()
                invariant
                    pv == fields_view(params@),
                    av == fields_view(args@),
                    pv.len() == params@.len(),
                    forall|j: int| 0 <= j < params@.len() ==> #[trigger] pv[j] == (params@[j].0@, params@[j].1.view()),
                    i <= params@.len(),
                    strings_view(errors@) == param_errors(pv.take(i as int), av),
                decreases params@.len() - i,
            {
                proof {
                    assert(pv.take(i + 1).drop_last() =~= pv.take(i as int));
                    assert(pv.take(i + 1).last() == pv[i as int]);
                }
                let name = &params[i].0;
                let ghost before = strings_view(errors@);
                match find_field(args, name.as_str()) {
                    Some(actual) => {
                        if !actual.fits(&params[i].1) {
                            errors.push(message("argument `", name.as_str(), "` has the wrong type"));
                            assert(strings_view(errors@) =~= before.push(wrong_type_message(name@)));
                        }
                    },
                    None => {
                        errors.push(message("missing argument `", name.as_str(), "`"));
                        assert(strings_view(errors@) =~= before.push(missing_argument_message(name@)));
                    },
                }
                i = i + 1;
            }
            proof {
                assert(pv.take(params@.len() as int) =~= pv);
                assert(av.take(0) =~= Seq::<(Seq<char>, TypeView)>::empty());
            }
            let ghost first = strings_view(errors@);
            let mut k: usize = 0;
            while k < args.len()
                invariant
                    pv == fields_view(params@),
                    av == fields_view(args@),
                    av.len() == args@.len(),
                    forall|j: int| 0 <= j < args@.len() ==> #[trigger] av[j] == (args@[j].0@, args@[j].1.view()),
                    k <= args@.len(),
                    first == param_errors(pv, av),
                    strings_view(errors@) == first + unexpected_errors(av.take(k as int), pv),
                decreases args@.len() - k,
            {
                proof {
                    assert(av.take(k + 1).drop_last() =~= av.take(k as int));
                    assert(av.take(k + 1).last() == av[k as int]);
                }
                let name = &args[k].0;
                let ghost before = strings_view(errors@);
                if find_field(params, name.as_str()).is_none() {
                    errors.push(message("unexpected argument `", name.as_str(), "`"));
                    assert(strings_view(errors@) =~= before.push(unexpected_argument_message(name@)));
                }
                k = k + 1;
            }
            proof {
                assert(av.take(args@.len() as int) =~= av);
            }
            Results::with_errors(rtn.duplicate(), errors)
        },
        ValueType::Unknown => {
            let r = Results::ok(ValueType::Unknown);
            assert(strings_view(r.spec_errors()) =~= Seq::<Seq<char>>::empty());
            r
        },
        _ => {
            let r = Results::with_error(ValueType::Unknown, text("only lambdas can be called"));
            assert(strings_view(r.spec_errors()) =~= seq![not_callable_message()]);
            r
        },
    }
}

pub open spec fn no_field_message(field: Seq<char>) -> Seq<char> {
    "object has no field `"@ + field + "`"@
}

pub open spec fn not_object_message() -> Seq<char> {
    "field access requires an object"@
}

/// The type and the errors of reading field `field` of a value of type `t`.
pub open spec fn field_type_spec(t: TypeView, field: Seq<char>) -> (TypeView, Seq<Seq<char>>) {
    match t {
        TypeView::Object(fields) => match field_get(fields, field) {
            Some(v) => (v, Seq::empty()),
            None => (TypeView::Unknown, seq![no_field_message(field)]),
        },
        TypeView::Unknown => (TypeView::Unknown, Seq::empty()),
        _ => (TypeView::Unknown, seq![not_object_message()]),
    }
}

/// Types a field access.
pub(crate) fn field_type_rule(object: &ValueType, field: &str) -> (r: Results<ValueType, String>)
    ensures
        r.spec_value().view() == field_type_spec(object.view(), field@).0,
        strings_view(r.spec_errors()) == field_type_spec(object.view(), field@).1,
{
    let r = match object {
        ValueType::Object(fields) => match find_field(fields, field) {
            Some(v) => Results::ok(v.duplicate()),
            None => Results::with_error(
                ValueType::Unknown,
                message("object has no field `", field, "`"),
            ),
        },
        ValueType::Unknown => Results::ok(ValueType::Unknown),
        _ => Results::with_error(ValueType::Unknown, text("field access requires an object")),
    };
    assert(strings_view(r.spec_errors()) =~= field_type_spec(object.view(), field@).1);
    r
}

pub open spec fn mixed_array_message() -> Seq<char> {
    "array items must have the same type"@
}

/// The item type of an array literal: that of its first item, or unknown
/// for an empty one.
pub open spec fn array_item_spec(items: Seq<TypeView>) -> TypeView {
    if items.len() > 0 {
        items[0]
    } else {
        TypeView::Unknown
    }
}

/// The complaint about the items of an array literal: none when every item
/// fits the type of the first.
pub open spec fn array_errors_spec(items: Seq<TypeView>) -> Seq<Seq<char>> {
    if forall|i: int|
        0 <= i < items.len() ==> compatible_spec(array_item_spec(items), #[trigger] items[i]) {
        Seq::<Seq<char>>::empty()
    } else {
        seq![mixed_array_message()]
    }
}

/// Types an array literal from the types of its items: an array of the
/// first item's type, with an error when some item's type does not fit it.
pub(crate) fn array_type_rule(items: &Vec<ValueType>) -> (r: Results<ValueType, String>)
    ensures
        r.spec_value().view() == TypeView::Array(Box::new(array_item_spec(types_view(items@)))),
        strings_view(r.spec_errors()) == array_errors_spec(types_view(items@)),
{
    let ghost tv = types_view(items@);
    proof {
        lemma_types_view(items@);
    }
    let item = if items.len() > 0 {
        items[0].duplicate()
    } else {
        ValueType::Unknown
    };
    let mut all = true;
    let mut k: usize = 0;
    while k < items.len()
        invariant
            tv == types_view(items@),
            tv.len() == items@.len(),
            forall|j: int| 0 <= j < items@.len() ==> #[trigger] tv[j] == items@[j].view(),
            item.view() == array_item_spec(tv),
            k <= items@.len(),
            all == forall|i: int| 0 <= i < k ==> compatible_spec(array_item_spec(tv), #[trigger] tv[i]),
        decreases items@.len() - k,
    {
        let fits = compatible_types(&item, &items[k]);
        proof {
            if !fits {
                assert(!compatible_spec(array_item_spec(tv), tv[k as int]));
            }
        }
        all = all && fits;
        k = k + 1;
    }
    let ty = ValueType::Array(Box::new(item));
    if all {
        let r = Results::ok(ty);
        assert(strings_view(r.spec_errors()) =~= Seq::<Seq<char>>::empty());
        r
    } else {
        let r = Results::with_error(ty, text("array items must have the same type"));
        assert(strings_view(r.spec_errors()) =~= seq![mixed_array_message()]);
        r
    }
}

pub open spec fn guard_message() -> Seq<char> {
    "match guard must be boolean"@
}

/// The errors of a match guard of type `condition`.
pub(crate) fn guard_errors_rule(condition: &ValueType) -> (r: Vec<String>)
    ensures
        strings_view(r@) == if compatible_spec(TypeView::Boolean, condition.view()) {
            Seq::<Seq<char>>::empty()
        } else {
            seq![guard_message()]
        },
{
    let mut errors: Vec<String> = Vec::new();
    if !compatible_types(&ValueType::Boolean, condition) {
        errors.push(text("match guard must be boolean"));
    }
    assert(strings_view(errors@) =~= (if compatible_spec(TypeView::Boolean, condition.view()) {
        Seq::<Seq<char>>::empty()
    } else {
        seq![guard_message()]
    }));
    errors
}


// ---------------------------------------------------------------------------
// The types of symbols
// ---------------------------------------------------------------------------

/// The type of the first binding of symbol `k`.
pub open spec fn binding_get(b: Seq<(SymbolView, TypeView)>, k: SymbolView) -> Option<TypeView>
    decreases b.len(),
{
    if b.len() == 0 {
        None
    } else {
        match binding_get(b.drop_last(), k) {
            Some(t) => Some(t),
            None => if b.last().0 == k {
                Some(b.last().1)
            } else {
                None
            },
        }
    }
}

/// The first binding of `k` decides its type.
proof fn lemma_binding_get_first(b: Seq<(SymbolView, TypeView)>, k: SymbolView, i: int)
    requires
        0 <= i < b.len(),
        b[i].0 == k,
        forall|j: int| 0 <= j < i ==> b[j].0 != k,
    ensures
        binding_get(b, k) == Some(b[i].1),
    decreases b.len(),
{
    if i < b.len() - 1 {
        lemma_binding_get_first(b.drop_last(), k, i);
    } else {
        lemma_binding_get_none(b.drop_last(), k);
    }
}

proof fn lemma_binding_get_none(b: Seq<(SymbolView, TypeView)>, k: SymbolView)
    requires
        forall|j: int| 0 <= j < b.len() ==> b[j].0 != k,
    ensures
        binding_get(b, k) is None,
    decreases b.len(),
{
    if b.len() > 0 {
        lemma_binding_get_none(b.drop_last(), k);
    }
}

/// Whether two symbols are the same.
fn same_symbol(a: &Symbol, b: &Symbol) -> (r: bool)
    ensures
        r == (a.view() == b.view()),
{
    a.id == b.id && str_eq(a.name.as_str(), b.name.as_str())
}

/// Types of symbols, as bound by definitions and parameters.
pub struct TypeResolver {
    types: Vec<(Symbol, ValueType)>,
}

impl TypeResolver {
    /// The bindings, in order of first binding.
    pub closed spec fn bindings(&self) -> Seq<(SymbolView, TypeView)> {
        Seq::new(self.types@.len(), |i: int| (self.types@[i].0.view(), self.types@[i].1.view()))
    }

    /// The type bound to symbol `s`, unknown when it has none.
    pub open spec fn type_of_spec(&self, s: SymbolView) -> TypeView {
        match binding_get(self.bindings(), s) {
            Some(t) => t,
            None => TypeView::Unknown,
        }
    }

    /// A resolver without bindings.
    pub fn new() -> (r: Self)
        ensures
            r.bindings().len() == 0,
            forall|s: SymbolView| #[trigger] r.type_of_spec(s) == TypeView::Unknown,
    {
        let r = TypeResolver { types: Vec::new() };
        assert(r.bindings() =~= Seq::<(SymbolView, TypeView)>::empty());
        r
    }

    /// Binds `symbol` to `ty`, replacing an earlier binding of it.
    pub fn bind_symbol(&mut self, symbol: Symbol, ty: ValueType)
        ensures
            final(self).type_of_spec(symbol.view()) == ty.view(),
            forall|other: SymbolView|
                other != symbol.view() ==> #[trigger] final(self).type_of_spec(other) == old(
                    self,
                ).type_of_spec(other),
    {
        let ghost b0 = self.bindings();
        let ghost sv = symbol.view();
        let ghost tv = ty.view();
        let mut i: usize = 0;
        while i < self.types.len() && !same_symbol(&self.types[i].0, &symbol)
            invariant
                b0 == self.bindings(),
                sv == symbol.view(),
                i <= self.types@.len(),
                forall|j: int| 0 <= j < i ==> b0[j].0 != sv,
            decreases self.types@.len() - i,
        {
            assert(b0[i as int] == (self.types@[i as int].0.view(), self.types@[i as int].1.view()));
            i = i + 1;
        }
        if i < self.types.len() {
            proof {
                assert(b0[i as int] == (self.types@[i as int].0.view(), self.types@[i as int].1.view()));
                assert(b0[i as int].0 == sv);
            }
            self.types.set(i, (symbol, ty));
            proof {
                let b1 = self.bindings();
                assert(b1 =~= b0.update(i as int, (sv, tv)));
                lemma_binding_get_first(b1, sv, i as int);
                assert forall|other: SymbolView| other != sv implies #[trigger] binding_get(b1, other)
                    == binding_get(b0, other) by {
                    lemma_binding_update(b0, i as int, sv, tv, other);
                }
            }
        } else {
            self.types.push((symbol, ty));
            proof {
                let b1 = self.bindings();
                assert(b1 =~= b0.push((sv, tv)));
                lemma_binding_get_first(b1, sv, b0.len() as int);
                assert forall|other: SymbolView| other != sv implies #[trigger] binding_get(b1, other)
                    == binding_get(b0, other) by {
                    assert(b1.drop_last() =~= b0);
                }
            }
        }
    }

    /// The type bound to a resolved name: unknown for an unresolved name or
    /// an unbound symbol.
    pub fn type_of(&self, symbol: &Option<Symbol>) -> (r: ValueType)
        ensures
            r.view() == match symbol {
                Some(s) => self.type_of_spec(s.view()),
                None => TypeView::Unknown,
            },
    {
        match symbol {
            None => ValueType::Unknown,
            Some(s) => {
                let ghost b = self.bindings();
                let mut i: usize = 0;
                while i < self.types.len()
                    invariant
                        b == self.bindings(),
                        *symbol == Some(*s),
                        i <= self.types@.len(),
                        forall|j: int| 0 <= j < i ==> b[j].0 != s.view(),
                    decreases self.types@.len() - i,
                {
                    assert(b[i as int] == (self.types@[i as int].0.view(), self.types@[i as int].1.view()));
                    if same_symbol(&self.types[i].0, s) {
                        proof {
                            lemma_binding_get_first(b, s.view(), i as int);
                            assert(self.type_of_spec(s.view()) == self.types@[i as int].1.view());
                        }
                        let r = self.types[i].1.duplicate();
                        assert(*symbol == Some(*s));
                        return r;
                    }
                    i = i + 1;
                }
                proof {
                    lemma_binding_get_none(b, s.view());
                }
                ValueType::Unknown
            },
        }
    }
}

proof fn lemma_binding_update(
    b: Seq<(SymbolView, TypeView)>,
    i: int,
    k: SymbolView,
    t: TypeView,
    other: SymbolView,
)
    requires
        0 <= i < b.len(),
        b[i].0 == k,
        other != k,
    ensures
        binding_get(b.update(i, (k, t)), other) == binding_get(b, other),
    decreases b.len(),
{
    let b1 = b.update(i, (k, t));
    if i < b.len() - 1 {
        assert(b1.drop_last() =~= b.drop_last().update(i, (k, t)));
        lemma_binding_update(b.drop_last(), i, k, t, other);
    } else {
        assert(b1.drop_last() =~= b.drop_last());
    }
}

impl Default for TypeResolver {
    fn default() -> (r: Self)
        ensures
            r.bindings().len() == 0,
    {
        TypeResolver::new()
    }
}

/// The type bound to field `name` of an object pattern matched against a
/// value of type `ty`: the field's type, or unknown.
pub(crate) fn field_binding_type_rule(ty: &ValueType, name: &str) -> (r: ValueType)
    ensures
        r.view() == match ty.view() {
            TypeView::Object(fields) => match field_get(fields, name@) {
                Some(t) => t,
                None => TypeView::Unknown,
            },
            _ => TypeView::Unknown,
        },
{
    match ty {
        ValueType::Object(fields) => match find_field(fields, name) {
            Some(t) => t.duplicate(),
            None => ValueType::Unknown,
        },
        _ => ValueType::Unknown,
    }
}

/// The type bound to each item of an array pattern matched against a value
/// of type `ty`: the array's item type, or unknown.
pub fn item_binding_type(ty: &ValueType) -> (r: ValueType)
    ensures
        r.view() == match ty.view() {
            TypeView::Array(t) => *t,
            _ => TypeView::Unknown,
        },
{
    match ty {
        ValueType::Array(t) => t.duplicate(),
        _ => ValueType::Unknown,
    }
}

// ---------------------------------------------------------------------------
// The rules on well-formed types: the typing rules as the library offers
// them, on types whose object fields and function parameters are held in
// order of name
// ---------------------------------------------------------------------------

/// The type of a value of any of the well-formed `types`.
pub fn unify(types: Vec<ValueType>) -> (r: ValueType)
    requires
        forall|i: int| 0 <= i < types@.len() ==> type_wf(#[trigger] types@[i].view()),
    ensures
        r.view() == unify_spec(types_view(types@)),
{
    unify_rule(types)
}

/// Types a binary operation on operands of well-formed types.
pub fn binary_type(op: BinaryOperator, lhs: &ValueType, rhs: &ValueType) -> (r: Results<
    ValueType,
    String,
>)
    requires
        type_wf(lhs.view()),
        type_wf(rhs.view()),
    ensures
        r.spec_value().view() == binary_type_spec(op, lhs.view(), rhs.view()),
        strings_view(r.spec_errors()) == if binary_type_spec(op, lhs.view(), rhs.view()) is Unknown
            && !(lhs.view() is Unknown) && !(rhs.view() is Unknown) {
            seq![operands_message()]
        } else {
            Seq::empty()
        },
{
    binary_type_rule(op, lhs, rhs)
}

/// Types a unary operation on an operand of a well-formed type.
pub fn unary_type(op: UnaryOperator, arg: &ValueType) -> (r: Results<ValueType, String>)
    requires
        type_wf(arg.view()),
    ensures
        r.spec_value().view() == unary_type_spec(op, arg.view()),
        strings_view(r.spec_errors()) == if unary_type_spec(op, arg.view()) is Unknown && !(
        arg.view() is Unknown) {
            seq![operand_message()]
        } else {
            Seq::empty()
        },
{
    unary_type_rule(op, arg)
}

/// Types a call of a value of a well-formed type with arguments in order
/// of name.
pub fn call_type(callee: &ValueType, args: &Vec<(String, ValueType)>) -> (r: Results<ValueType, String>)
    requires
        type_wf(callee.view()),
        names_ordered(fields_view(args@)),
        fields_wf(fields_view(args@)),
    ensures
        r.spec_value().view() == call_type_spec(callee.view(), fields_view(args@)).0,
        strings_view(r.spec_errors()) == call_type_spec(callee.view(), fields_view(args@)).1,
{
    call_type_rule(callee, args)
}

/// Types an access to a field of a value of a well-formed type.
pub fn field_type(object: &ValueType, field: &str) -> (r: Results<ValueType, String>)
    requires
        type_wf(object.view()),
    ensures
        r.spec_value().view() == field_type_spec(object.view(), field@).0,
        strings_view(r.spec_errors()) == field_type_spec(object.view(), field@).1,
{
    field_type_rule(object, field)
}

/// Types an array literal whose items have well-formed types.
pub fn array_type(items: &Vec<ValueType>) -> (r: Results<ValueType, String>)
    requires
        forall|i: int| 0 <= i < items@.len() ==> type_wf(#[trigger] items@[i].view()),
    ensures
        r.spec_value().view() == TypeView::Array(Box::new(array_item_spec(types_view(items@)))),
        strings_view(r.spec_errors()) == array_errors_spec(types_view(items@)),
{
    array_type_rule(items)
}

/// The complaint about a match guard of a well-formed type.
pub fn guard_errors(condition: &ValueType) -> (r: Vec<String>)
    requires
        type_wf(condition.view()),
    ensures
        strings_view(r@) == if compatible_spec(TypeView::Boolean, condition.view()) {
            Seq::<Seq<char>>::empty()
        } else {
            seq![guard_message()]
        },
{
    guard_errors_rule(condition)
}

/// The type bound to field `name` of a value of a well-formed type.
pub fn field_binding_type(ty: &ValueType, name: &str) -> (r: ValueType)
    requires
        type_wf(ty.view()),
    ensures
        r.view() == match ty.view() {
            TypeView::Object(fields) => match field_get(fields, name@) {
                Some(t) => t,
                None => TypeView::Unknown,
            },
            _ => TypeView::Unknown,
        },
{
    field_binding_type_rule(ty, name)
}

} // verus!
