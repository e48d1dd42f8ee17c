//! The day, as the machine's clock and time zone give it.

use vstd::prelude::*;

verus! {

/// Calls `Local::now` of the crate `chrono` and writes the day with the
/// format `%Y-%m-%d`. Nothing is stated of the result: it depends on when
/// and where the call is made.
#[verifier::external_body]
pub(crate) fn today() -> (day: String) {
    chrono::Local::now().format("%Y-%m-%d").to_string()
}

} // verus!
