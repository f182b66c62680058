//! A cancellation flag shared between a running job and whoever may stop it.

use std::sync::atomic::{AtomicBool, Ordering};
use std::sync::Arc;

use vstd::prelude::*;

verus! {

/// A flag that any holder can raise; a running job polls it.
pub type CancelFlag = Arc<AtomicBool>;

/// A new, lowered flag.
pub fn new_cancel_flag() -> CancelFlag {
    Arc::new(AtomicBool::new(false))
}

/// Raises the flag; `true` when this call was the one that raised it. The answer depends on
/// the other holders of the flag, so nothing more is stated of it.
pub fn cancel(flag: &CancelFlag) -> bool {
    let was = flag.swap(true, Ordering::Relaxed);
    !was
}

/// Whether the flag has been raised. The answer depends on the other holders of the flag.
pub fn is_cancelled(flag: &CancelFlag) -> bool {
    flag.load(Ordering::Relaxed)
}

} // verus!
