//! The outside world a search consults: the clock and the stop flag.

use vstd::prelude::*;
use std::sync::atomic::AtomicBool;
use std::sync::Arc;
use std::time::{Duration, Instant};

verus! {

#[verifier::external_type_specification]
#[verifier::external_body]
pub struct ExInstant(Instant);

/// The current time (`Instant::now`). Nothing is claimed of the value.
#[verifier::external_body]
pub(crate) fn clock_now() -> (t: Instant) {
    Instant::now()
}

/// The time elapsed since `start` (`Instant::elapsed`). It depends on the clock, so nothing
/// is claimed of it.
#[verifier::external_body]
fn elapsed_since(start: &Instant) -> (d: Duration) {
    start.elapsed()
}

/// The whole milliseconds of a duration (`Duration::as_millis`). A `Duration` is opaque
/// here, so nothing is claimed of the number.
#[verifier::external_body]
fn whole_millis(d: &Duration) -> (ms: u128) {
    d.as_millis()
}

/// Whole milliseconds elapsed since `start`, `u64::MAX` for anything longer.
pub fn millis_since(start: &Instant) -> (ms: u64) {
    let ms = whole_millis(&elapsed_since(start));
    if ms > u64::MAX as u128 {
        u64::MAX
    } else {
        ms as u64
    }
}

/// Whether another thread has asked the search to stop (`AtomicBool::load`, relaxed).
/// The flag is shared, so nothing is claimed of the value.
pub fn stop_requested(flag: &Arc<AtomicBool>) -> (b: bool) {
    flag.load(std::sync::atomic::Ordering::Relaxed)
}

/// Clears the stop flag (`AtomicBool::store`, relaxed).
pub fn clear_stop(flag: &Arc<AtomicBool>) {
    flag.store(false, std::sync::atomic::Ordering::Relaxed);
}

} // verus!
