//! The calendar boundary: the current local date from the system
//! clock, as a `YYYY-MM-DD` byte string.

use vstd::prelude::*;

verus! {

/// Relies on chrono's `Local::now` and its `%Y-%m-%d` formatting for
/// the current local date. The result depends on the clock, so only
/// its shape is promised: non-empty, ASCII digits, hyphens and plus
/// signs (`%Y` writes a year of five or more digits with a leading
/// `+`, and a negative year with a leading `-`). The call itself
/// panics on a system clock set before 1970 or beyond chrono's
/// representable range; no argument can exclude that state.
#[verifier::external_body]
pub(crate) fn today_date() -> (d: Vec<u8>)
    ensures
        d@.len() > 0,
        forall|i: int| 0 <= i < d@.len() ==> (48 <= d@[i] <= 57 || d@[i] == 45 || d@[i] == 43),
{
    chrono::Local::now().format("%Y-%m-%d").to_string().into_bytes()
}

} // verus!
