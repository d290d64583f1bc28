//! The wall clock, by which a caller bounds one run of the search.
//!
//! Nothing is claimed of what the clock says: the search is specified for
//! every answer that it may give. Spans of time are compared by their
//! length.

use std::time::{Duration, Instant};
use vstd::prelude::*;

verus! {

#[verifier::external_type_specification]
#[verifier::external_body]
pub struct ExInstant(Instant);

/// `Instant::now`: the present moment.
pub assume_specification[ Instant::now ]() -> Instant;

/// `Instant::duration_since`: the time from `earlier` to `later`, zero
/// where `earlier` is the later one.
pub assume_specification[ Instant::duration_since ](later: &Instant, earlier: Instant) -> Duration;

/// The length of a span of time, in nanoseconds.
pub uninterp spec fn duration_nanos(span: Duration) -> nat;

/// `Duration::from_secs`: a span of that many whole seconds.
pub assume_specification[ Duration::from_secs ](secs: u64) -> (span: Duration)
    ensures
        duration_nanos(span) == secs * 1_000_000_000,
;

/// `Duration::ge`: whether `elapsed` is at least as long as `limit`.
#[verifier::external_body]
pub(crate) fn reached(elapsed: &Duration, limit: &Duration) -> (r: bool)
    ensures
        r == (duration_nanos(*elapsed) >= duration_nanos(*limit)),
{
    elapsed >= limit
}

} // verus!
