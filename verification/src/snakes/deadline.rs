//! The clock that bounds a search.
use vstd::prelude::*;

use std::time::{Duration, Instant};

verus! {

#[verifier::external_type_specification]
#[verifier::external_body]
pub struct ExInstant(Instant);

/// Whether `a` is later than `b`; a function of the two instants alone.
pub uninterp spec fn spec_later(a: Instant, b: Instant) -> bool;

/// The time now (`Instant::now`); nothing is promised of it.
#[verifier::external_body]
fn now() -> Instant {
    Instant::now()
}

/// Compares two instants with `>`.
#[verifier::external_body]
fn later(a: &Instant, b: &Instant) -> (res: bool)
    ensures
        res == spec_later(*a, *b),
{
    *a > *b
}

/// Whether the time now is past the deadline; it depends on the clock, so nothing is
/// promised of the answer.
pub fn past_deadline(deadline: &Instant) -> bool {
    let t = now();
    later(&t, deadline)
}

/// `Instant::checked_add`: the instant a duration after another, nothing past the range
/// of the clock.
#[verifier::external_body]
fn instant_after(i: &Instant, d: &Duration) -> Option<Instant> {
    i.checked_add(*d)
}

/// `Instant::checked_sub`: the instant a duration before another, nothing past the range
/// of the clock.
#[verifier::external_body]
fn instant_before(i: &Instant, d: &Duration) -> Option<Instant> {
    i.checked_sub(*d)
}

/// The instant at which `timeout` from now runs out, brought forward by `margin` (already
/// past when the margin is longer than the timeout); nothing when it lies outside the
/// range of the clock. It depends on the clock, so nothing is promised of it.
pub fn deadline_within(timeout: &Duration, margin: &Duration) -> Option<Instant> {
    let t = now();
    match instant_after(&t, timeout) {
        None => None,
        Some(end) => instant_before(&end, margin),
    }
}

} // verus!
