//! A value paired with the diagnostics collected while producing it.
use vstd::prelude::*;

verus! {

/// A value together with every error reported on the way to it.
///
/// Unlike `Result`, a `Results` always carries a value: compilation stages
/// keep going after an error and report all of them at the end.
pub struct Results<T, E> {
    value: T,
    errors: Vec<E>,
}

impl<T, E> Results<T, E> {
    /// The carried value.
    pub closed spec fn spec_value(&self) -> T {
        self.value
    }

    /// The accumulated errors, in the order they were reported.
    pub closed spec fn spec_errors(&self) -> Seq<E> {
        self.errors@
    }

    /// A value with no errors.
    pub fn ok(value: T) -> (r: Self)
        ensures
            r.spec_value() == value,
            r.spec_errors() == Seq::<E>::empty(),
    {
        Results { value, errors: Vec::new() }
    }

    /// A value with exactly one error.
    pub fn with_error(value: T, error: E) -> (r: Self)
        ensures
            r.spec_value() == value,
            r.spec_errors() == seq![error],
    {
        let mut errors = Vec::new();
        errors.push(error);
        Results { value, errors }
    }

    /// A value with the given errors.
    pub fn with_errors(value: T, errors: Vec<E>) -> (r: Self)
        ensures
            r.spec_value() == value,
            r.spec_errors() == errors@,
    {
        Results { value, errors }
    }

    /// Transforms the value and keeps the errors.
    pub fn map<U, F: FnOnce(T) -> U>(self, f: F) -> (r: Results<U, E>)
        requires
            f.requires((self.spec_value(),)),
        ensures
            f.ensures((self.spec_value(),), r.spec_value()),
            r.spec_errors() == self.spec_errors(),
    {
        Results { value: f(self.value), errors: self.errors }
    }

    /// Continues with a computation that reports errors of its own; the errors
    /// of `self` come first.
    pub fn flat_map<U, F: FnOnce(T) -> Results<U, E>>(self, f: F) -> (r: Results<U, E>)
        requires
            f.requires((self.spec_value(),)),
        ensures
            exists|next: Results<U, E>|
                {
                    &&& #[trigger] f.ensures((self.spec_value(),), next)
                    &&& r.spec_value() == next.spec_value()
                    &&& r.spec_errors() == self.spec_errors() + next.spec_errors()
                },
    {
        let next = f(self.value);
        let ghost next_copy = next;
        let Results { value, errors: mut more } = next;
        let mut errors = self.errors;
        errors.append(&mut more);
        let r = Results { value, errors };
        assert(r.spec_errors() == self.spec_errors() + next_copy.spec_errors());
        r
    }

    /// Splits into the value and the errors.
    pub fn into_parts(self) -> (r: (T, Vec<E>))
        ensures
            r.0 == self.spec_value(),
            r.1@ == self.spec_errors(),
    {
        (self.value, self.errors)
    }

    /// Pairs two values; the errors of `self` come before those of `other`.
    pub fn zip<U>(self, other: Results<U, E>) -> (r: Results<(T, U), E>)
        ensures
            r.spec_value() == (self.spec_value(), other.spec_value()),
            r.spec_errors() == self.spec_errors() + other.spec_errors(),
    {
        let Results { value: other_value, errors: mut more } = other;
        let mut errors = self.errors;
        errors.append(&mut more);
        Results { value: (self.value, other_value), errors }
    }
}

/// The concatenation of the error lists of a sequence of results.
pub open spec fn all_errors<T, E>(items: Seq<Results<T, E>>) -> Seq<E>
    decreases items.len(),
{
    if items.len() == 0 {
        Seq::empty()
    } else {
        all_errors(items.drop_last()) + items.last().spec_errors()
    }
}

/// Collects a sequence of results into one: the values in order, and all
/// errors in order.
pub fn collect<T, E>(items: Vec<Results<T, E>>) -> (r: Results<Vec<T>, E>)
    ensures
        r.spec_value()@.len() == items@.len(),
        forall|i: int|
            0 <= i < items@.len() ==> r.spec_value()@[i] == #[trigger] items@[i].spec_value(),
        r.spec_errors() == all_errors(items@),
{
    let ghost original = items@;
    let mut values: Vec<T> = Vec::new();
    let mut errors: Vec<E> = Vec::new();
    let mut source = items;
    let n = source.len();
    let mut rest: Vec<Results<T, E>> = Vec::new();
    while source.len() > 0
        invariant
            n == original.len(),
            source@.len() + rest@.len() == n,
            forall|j: int| 0 <= j < source@.len() ==> source@[j] == original[j],
            forall|j: int| 0 <= j < rest@.len() ==> rest@[j] == original[n - 1 - j],
        decreases source@.len(),
    {
        let item = source.pop().unwrap();
        rest.push(item);
    }
    let mut k: usize = 0;
    while k < n
        invariant
            n == original.len(),
            k <= n,
            rest@.len() == n - k,
            forall|j: int| 0 <= j < n - k ==> rest@[j] == original[n - 1 - j],
            values@.len() == k,
            forall|j: int| 0 <= j < k ==> values@[j] == original[j].spec_value(),
            errors@ == all_errors(original.take(k as int)),
        decreases n - k,
    {
        let item = rest.pop().unwrap();
        assert(item == original[k as int]);
        let Results { value, errors: mut more } = item;
        values.push(value);
        errors.append(&mut more);
        assert(original.take(k + 1).drop_last() == original.take(k as int));
        k = k + 1;
    }
    assert(original.take(n as int) == original);
    Results { value: values, errors }
}

} // verus!
