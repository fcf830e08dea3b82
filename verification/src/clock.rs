use vstd::prelude::*;

verus! {

/// Relies on std's `SystemTime::now` and `SystemTime::duration_since`: the
/// present moment as whole seconds since the Unix epoch, a clock before the
/// epoch mapped to the negative count its error carries. Every branch is a
/// non-panicking conversion (the casts and the negation wrap instead of
/// overflowing on an absurd clock), and nothing is promised of the value:
/// the clock may move either way between two calls.
#[verifier::external_body]
pub(crate) fn now_timestamp() -> i64 {
    match std::time::SystemTime::now().duration_since(std::time::UNIX_EPOCH) {
        Ok(since) => since.as_secs() as i64,
        Err(before) => (before.duration().as_secs() as i64).wrapping_neg(),
    }
}

} // verus!
