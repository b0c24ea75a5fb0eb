use vstd::prelude::*;

verus! {

/// Returns `"Yes"` when `b` holds and `"No"` otherwise.
#[must_use]
pub fn yes_no(b: bool) -> (r: &'static str)
    ensures
        r@ == (if b { "Yes"@ } else { "No"@ }),
{
    yes_no_custom(b, "Yes", "No")
}

/// Returns `yes` when `b` holds and `no` otherwise.
#[must_use]
pub fn yes_no_custom<'a>(b: bool, yes: &'a str, no: &'a str) -> (r: &'a str)
    ensures
        r == (if b { yes } else { no }),
{
    if b {
        yes
    } else {
        no
    }
}

} // verus!
