//! Keyboard initialization errors.

use vstd::prelude::*;

verus! {

/// Why the keyboard could not be set up.
#[derive(Debug, Clone, Copy, PartialEq, Eq)]
pub enum KeyboardInitError {
    /// Initialization of the named keyboard controller failed.
    ControllerInitFailed(&'static str),
}

} // verus!
