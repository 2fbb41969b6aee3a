//! The clock: how much time has passed since a session began.

use instant::Duration;
use instant::Instant;
use vstd::prelude::*;

verus! {

/// A moment on the clock. Nothing is read from it but through the clock.
#[verifier::external_type_specification]
#[verifier::external_body]
pub struct ExInstant(instant::Instant);

/// `Instant::now`: the present moment. Nothing is known of it beforehand.
pub assume_specification[ instant::Instant::now ]() -> Instant;

/// `Instant::saturating_duration_since`: the time from `earlier` to `later`,
/// or no time at all where `earlier` is the later of the two. Nothing more is
/// known of it beforehand.
pub assume_specification[ instant::Instant::saturating_duration_since ](
    later: &Instant,
    earlier: Instant,
) -> Duration;

/// `Duration::as_secs`: the whole seconds of a duration.
pub assume_specification[ instant::Duration::as_secs ](duration: &Duration) -> u64;

/// `Duration::subsec_nanos`: the part of a duration below one second, in
/// nanoseconds. It is always less than a second.
pub assume_specification[ instant::Duration::subsec_nanos ](duration: &Duration) -> (nanos: u32)
    ensures
        nanos < 1_000_000_000,
;

/// The time that has passed since `start`, as whole seconds and nanoseconds
/// below one second.
pub fn elapsed_since(start: Instant) -> (elapsed: (u64, u32))
    ensures
        elapsed.1 < 1_000_000_000,
{
    let elapsed = Instant::now().saturating_duration_since(start);
    (elapsed.as_secs(), elapsed.subsec_nanos())
}

} // verus!
