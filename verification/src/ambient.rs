//! The two ambient inputs of the ledger — the clock and fresh identifiers —
//! each behind a wrapper that promises only what holds of every outcome.
use vstd::prelude::*;

verus! {

/// Relies on chrono's `Utc::now`: the current Unix time in seconds. Nothing
/// can be promised of a clock reading, so callers state what holds for
/// every value.
#[verifier::external_body]
pub(crate) fn now_ts() -> i64 {
    chrono::Utc::now().timestamp()
}

/// Relies on uuid's `Uuid::new_v4` and its hyphenated `to_string`: a fresh
/// random identifier, always rendered as 36 characters. Nothing more can be
/// promised of a random value.
#[verifier::external_body]
pub(crate) fn new_uuid() -> (r: String)
    ensures
        r@.len() == 36,
{
    uuid::Uuid::new_v4().to_string()
}

} // verus!
