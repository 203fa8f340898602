//! The wall clock.  The ledger takes every instant as an explicit argument,
//! so only the embedding program and its operators consult this; nothing is
//! assumed about what the clock returns.

use vstd::prelude::*;

verus! {

/// Relies on time::OffsetDateTime::now_utc and unix_timestamp: the current
/// UTC wall-clock instant, in whole seconds since the epoch.
#[verifier::external_body]
fn now_unix_raw() -> (t: i64) {
    time::OffsetDateTime::now_utc().unix_timestamp()
}

/// The current UTC instant as the ledger counts time, clamped to the epoch
/// for clocks set before it.
pub fn current_unix_seconds() -> (t: u64) {
    let raw = now_unix_raw();
    if raw < 0 {
        0
    } else {
        raw as u64
    }
}

} // verus!
