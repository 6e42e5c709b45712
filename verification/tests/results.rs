use etch::results::{collect, Results};

#[test]
fn results_keep_values_and_errors_in_order() {
    let (value, errors) = Results::<i32, &str>::ok(1).into_parts();
    assert_eq!((value, errors), (1, vec![]));
    let (value, errors) = Results::with_error(2, "a").into_parts();
    assert_eq!((value, errors), (2, vec!["a"]));
    let (value, errors) = Results::with_errors(3, vec!["b", "c"]).into_parts();
    assert_eq!((value, errors), (3, vec!["b", "c"]));
}

#[test]
fn map_and_flat_map_carry_errors_forward() {
    let mapped = Results::with_error(2, "first").map(|x| x * 10);
    assert_eq!(mapped.into_parts(), (20, vec!["first"]));
    let chained = Results::with_error(2, "first")
        .flat_map(|x| Results::with_errors(x + 1, vec!["second", "third"]));
    assert_eq!(chained.into_parts(), (3, vec!["first", "second", "third"]));
}

#[test]
fn zip_pairs_values_and_concatenates_errors() {
    let zipped = Results::with_error(1, "left").zip(Results::with_error('x', "right"));
    assert_eq!(zipped.into_parts(), ((1, 'x'), vec!["left", "right"]));
}

#[test]
fn collecting_gathers_every_value_and_error() {
    let collected = collect(vec![
        Results::ok(1),
        Results::with_error(2, "a"),
        Results::with_errors(3, vec!["b", "c"]),
    ]);
    assert_eq!(collected.into_parts(), (vec![1, 2, 3], vec!["a", "b", "c"]));
}
