//! Per-response character budget.
//!
//! The unit is characters (Unicode scalar values), not bytes. A successful
//! response is either within the budget or replaced by a small explicit
//! budget error: an over-budget text is never handed back.
use vstd::prelude::*;

use crate::text::{chars_of, decimal, owned, push_str, usize_to_string};

verus! {

pub const DEFAULT_BUDGET: i64 = 10000;

/// Smallest supported configured budget. It leaves room for a structured
/// budget error when fixed response fields alone cannot fit.
pub const MIN_BUDGET: i64 = 128;

pub const MARKER_TRUNCATED: &'static str = "truncated";
pub const MARKER_OMITTED: &'static str = "omitted";
pub const MARKER_HINT: &'static str = "hint";
pub const BUDGET_ERROR: &'static str = "response_budget_exceeded";
pub const BUDGET_ERROR_HINT: &'static str = "Raise the response budget or narrow the request.";

/// The full budget error, serialized with `", "` and `": "` separators.
pub const BUDGET_ERROR_FULL: &'static str =
    "{\"error\": \"response_budget_exceeded\", \"hint\": \"Raise the response budget or narrow the request.\"}";

/// The budget error without its hint.
pub const BUDGET_ERROR_SHORT: &'static str = "{\"error\": \"response_budget_exceeded\"}";

/// Whether a server may be configured with this budget.
pub fn valid_configured_budget(budget: i64) -> (r: bool)
    ensures
        r == (budget >= MIN_BUDGET),
{
    budget >= MIN_BUDGET
}

/// The message that refuses a per-call budget below the minimum.
pub open spec fn call_budget_message(budget: int) -> Seq<char> {
    "Requested response budget "@ + decimal(budget as nat)
        + " is below the minimum supported budget of "@ + decimal(MIN_BUDGET as nat)
        + " characters."@
}

/// A per-call budget is refused when it is positive and below the minimum;
/// zero and negative values mean "use the configured budget".
pub fn validate_call_budget(budget: i64) -> (r: Result<(), String>)
    ensures
        r is Err <==> (0 < budget && budget < MIN_BUDGET),
        r matches Err(m) ==> m@ == call_budget_message(budget as int),
{
    if budget > 0 && budget < MIN_BUDGET {
        let mut m = owned("Requested response budget ");
        push_str(&mut m, usize_to_string(budget as usize).as_str());
        push_str(&mut m, " is below the minimum supported budget of ");
        push_str(&mut m, usize_to_string(MIN_BUDGET as usize).as_str());
        push_str(&mut m, " characters.");
        return Err(m);
    }
    Ok(())
}

/// The number of characters of `s`.
pub fn char_len(s: &str) -> (r: i64)
    requires
        s@.len() <= i64::MAX,
    ensures
        r == s@.len(),
{
    chars_of(s).len() as i64
}

/// How many characters a slice `[..stop]` keeps: a negative stop counts
/// back from the end, and the result is clamped to the text.
pub open spec fn slice_stop(n: int, stop: int) -> int {
    if stop < 0 {
        if n + stop < 0 { 0 } else { n + stop }
    } else if stop < n {
        stop
    } else {
        n
    }
}

/// `s[..stop]` over characters.
pub fn py_slice_to(s: &str, stop: i64) -> (r: String)
    requires
        s@.len() <= i64::MAX,
    ensures
        r@ == s@.take(slice_stop(s@.len() as int, stop as int)),
{
    let chars = chars_of(s);
    let n = chars.len() as i64;
    let k: i64 = if stop < 0 {
        if n + stop < 0 { 0 } else { n + stop }
    } else if stop < n {
        stop
    } else {
        n
    };
    let mut r = String::new();
    let mut i: usize = 0;
    while i < k as usize
        invariant
            0 <= k <= n,
            n == chars@.len(),
            chars@ == s@,
            i <= k,
            r@ == s@.take(i as int),
        decreases k - i,
    {
        crate::text::push_char(&mut r, chars[i]);
        i += 1;
        assert(r@ =~= s@.take(i as int));
    }
    r
}

/// The explicit budget error that fits `budget`, most informative first.
pub open spec fn budget_error_spec(budget: int) -> Seq<char> {
    if BUDGET_ERROR_FULL@.len() <= budget {
        BUDGET_ERROR_FULL@
    } else if BUDGET_ERROR_SHORT@.len() <= budget {
        BUDGET_ERROR_SHORT@
    } else if budget >= 2 {
        "{}"@
    } else if budget == 1 {
        "0"@
    } else {
        Seq::empty()
    }
}

/// Whether `s` has at most `budget` characters.
fn fits(s: &str, budget: i64) -> (r: bool)
    ensures
        r == (s@.len() <= budget),
{
    if budget < 0 {
        return false;
    }
    (chars_of(s).len() as u64) <= (budget as u64)
}

/// The budget error text for `budget`; it never exceeds a non-negative
/// budget.
pub fn budget_error(budget: i64) -> (r: String)
    ensures
        r@ == budget_error_spec(budget as int),
        budget >= 0 ==> r@.len() <= budget,
{
    proof {
        reveal_strlit("{}");
        reveal_strlit("0");
    }
    if fits(BUDGET_ERROR_FULL, budget) {
        return owned(BUDGET_ERROR_FULL);
    }
    if fits(BUDGET_ERROR_SHORT, budget) {
        return owned(BUDGET_ERROR_SHORT);
    }
    if budget >= 2 {
        return owned("{}");
    }
    if budget == 1 {
        return owned("0");
    }
    String::new()
}

/// What a response becomes, given its serialized text and the serialized
/// text of its truncated form.
pub open spec fn fit_spec(text: Seq<char>, truncated: Seq<char>, budget: int) -> Seq<char> {
    if text.len() <= budget {
        text
    } else if truncated.len() <= budget {
        truncated
    } else {
        budget_error_spec(budget)
    }
}

/// Keep the full text when it fits, else the truncated text when that fits,
/// else the budget error. With a non-negative budget the result never
/// exceeds it.
pub fn fit_to_budget(text: &str, truncated: &str, budget: i64) -> (r: String)
    ensures
        r@ == fit_spec(text@, truncated@, budget as int),
        budget >= 0 ==> r@.len() <= budget,
{
    if fits(text, budget) {
        return owned(text);
    }
    if fits(truncated, budget) {
        return owned(truncated);
    }
    budget_error(budget)
}

} // verus!
