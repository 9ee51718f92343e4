use rusty_alto::bench::parse_bench::{quantiles, runs, sorted, validate};

#[test]
fn rejects_zero_iterations_and_unknown_strategies() {
    assert!(validate(0, None).is_err());
    assert!(validate(1, Some("unknown")).is_err());
    assert!(validate(1, Some("sibling")).is_ok());
}

#[test]
fn settings_are_refused_with_the_reason() {
    assert_eq!(validate(0, None), Err("ITERATIONS must be greater than zero"));
    assert_eq!(
        validate(5, Some("fast")),
        Err("strategy must be topdown, indexed, or sibling")
    );
    assert!(runs("indexed", None));
    assert!(runs("indexed", Some("indexed")));
    assert!(!runs("indexed", Some("sibling")));
}

#[test]
fn quantiles_are_read_off_the_sorted_times() {
    let times = sorted(&vec![5, 1, 4, 2, 3]);
    assert_eq!(times, vec![1, 2, 3, 4, 5]);
    assert_eq!(quantiles(&times), (3, 5));
}
