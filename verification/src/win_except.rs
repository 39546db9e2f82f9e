//! What counts as failure among the values that the window system's calls
//! return.

use vstd::prelude::*;

verus! {

/// A value returned by a call of the window system, which reports failure
/// in the value itself.
pub trait WinResult {
    /// Whether the value reports failure.
    spec fn spec_is_error(&self) -> bool;

    /// Whether the value reports failure.
    fn is_error(&self) -> (failed: bool)
        ensures
            failed == self.spec_is_error(),
    ;
}

impl WinResult for i8 {
    open spec fn spec_is_error(&self) -> bool {
        *self == 0
    }

    fn is_error(&self) -> (failed: bool) {
        *self == 0
    }
}

impl WinResult for i16 {
    open spec fn spec_is_error(&self) -> bool {
        *self == 0
    }

    fn is_error(&self) -> (failed: bool) {
        *self == 0
    }
}

impl WinResult for i32 {
    open spec fn spec_is_error(&self) -> bool {
        *self == 0
    }

    fn is_error(&self) -> (failed: bool) {
        *self == 0
    }
}

impl WinResult for i64 {
    open spec fn spec_is_error(&self) -> bool {
        *self == 0
    }

    fn is_error(&self) -> (failed: bool) {
        *self == 0
    }
}

impl WinResult for i128 {
    open spec fn spec_is_error(&self) -> bool {
        *self == 0
    }

    fn is_error(&self) -> (failed: bool) {
        *self == 0
    }
}

impl WinResult for isize {
    open spec fn spec_is_error(&self) -> bool {
        *self == 0
    }

    fn is_error(&self) -> (failed: bool) {
        *self == 0
    }
}

impl WinResult for u8 {
    open spec fn spec_is_error(&self) -> bool {
        *self == 0
    }

    fn is_error(&self) -> (failed: bool) {
        *self == 0
    }
}

impl WinResult for u16 {
    open spec fn spec_is_error(&self) -> bool {
        *self == 0
    }

    fn is_error(&self) -> (failed: bool) {
        *self == 0
    }
}

impl WinResult for u32 {
    open spec fn spec_is_error(&self) -> bool {
        *self == 0
    }

    fn is_error(&self) -> (failed: bool) {
        *self == 0
    }
}

impl WinResult for u64 {
    open spec fn spec_is_error(&self) -> bool {
        *self == 0
    }

    fn is_error(&self) -> (failed: bool) {
        *self == 0
    }
}

impl WinResult for u128 {
    open spec fn spec_is_error(&self) -> bool {
        *self == 0
    }

    fn is_error(&self) -> (failed: bool) {
        *self == 0
    }
}

impl WinResult for usize {
    open spec fn spec_is_error(&self) -> bool {
        *self == 0
    }

    fn is_error(&self) -> (failed: bool) {
        *self == 0
    }
}

} // verus!
