use std::sync::atomic::AtomicBool;
use std::sync::atomic::Ordering;
use vstd::prelude::*;

verus! {

/// Reads a cancellation flag. Whoever holds the flag may set it at any time,
/// so nothing is known of the answer.
pub fn is_cancelled(flag: &AtomicBool) -> (cancelled: bool) {
    flag.load(Ordering::SeqCst)
}

} // verus!
