use rac_engine::budget::{
    budget_error, char_len, fit_to_budget, py_slice_to, valid_configured_budget, validate_call_budget,
    BUDGET_ERROR_FULL, BUDGET_ERROR_SHORT, DEFAULT_BUDGET, MIN_BUDGET,
};

#[test]
fn configured_and_per_call_minimums_are_explicit() {
    assert!(valid_configured_budget(MIN_BUDGET));
    assert!(!valid_configured_budget(MIN_BUDGET - 1));
    assert!(validate_call_budget(0).is_ok());
    assert!(validate_call_budget(MIN_BUDGET).is_ok());
    assert!(validate_call_budget(MIN_BUDGET - 1).is_err());
}

#[test]
fn negative_and_small_call_budgets_name_the_minimum() {
    let err = validate_call_budget(1).unwrap_err();
    assert_eq!(
        err,
        "Requested response budget 1 is below the minimum supported budget of 128 characters."
    );
    assert!(validate_call_budget(-1).is_ok());
    assert!(validate_call_budget(DEFAULT_BUDGET).is_ok());
    assert!(valid_configured_budget(DEFAULT_BUDGET));
}

#[test]
fn char_len_counts_characters_not_bytes() {
    assert_eq!(char_len(""), 0);
    assert_eq!(char_len("abc"), 3);
    assert_eq!(char_len("héllo"), 5);
}

#[test]
fn slice_to_follows_python_slicing() {
    assert_eq!(py_slice_to("abcdef", 3), "abc");
    assert_eq!(py_slice_to("abcdef", -2), "abcd");
    assert_eq!(py_slice_to("abc", 10), "abc");
    assert_eq!(py_slice_to("abc", -10), "");
}

#[test]
fn budget_error_fits_the_budget() {
    let full = budget_error(1000);
    assert_eq!(full, BUDGET_ERROR_FULL);
    assert!(char_len(&full) <= 1000);
    let short = budget_error(char_len(BUDGET_ERROR_SHORT));
    assert_eq!(short, BUDGET_ERROR_SHORT);
    let tiny = budget_error(5);
    assert!(char_len(&tiny) <= 5);
}

#[test]
fn fit_to_budget_keeps_text_that_fits() {
    assert_eq!(fit_to_budget("short", "{}", 100), "short");
    let long = "x".repeat(500);
    let fitted = fit_to_budget(&long, "{\"truncated\": true}", MIN_BUDGET);
    assert!(char_len(&fitted) <= MIN_BUDGET);
    assert_eq!(fitted, "{\"truncated\": true}");
}
