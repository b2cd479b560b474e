//! The two ambient capabilities the store consumes: generation of fresh
//! opaque identifiers and the current time. Both calls go to outside
//! crates and are the library's only trusted items.
use vstd::prelude::*;

verus! {

/// Relies on `uuid::Uuid::new_v4` and its `Display` form: a random
/// version-4 UUID rendered as the 36-character hyphenated string. Nothing
/// is assumed beyond the length; the result is random, so callers treat
/// it as an arbitrary candidate identifier and check it for freshness.
#[verifier::external_body]
pub(crate) fn fresh_id() -> (r: String)
    ensures
        r@.len() == 36,
{
    uuid::Uuid::new_v4().to_string()
}

/// Relies on `chrono::Utc::now` and `DateTime::timestamp`: the current
/// time as whole seconds since the Unix epoch. Nothing is assumed of the
/// value; callers validate it against stored timestamps.
#[verifier::external_body]
pub(crate) fn now_seconds() -> (r: i64) {
    chrono::Utc::now().timestamp()
}

} // verus!
