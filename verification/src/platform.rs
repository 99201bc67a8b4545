//! The desktops that the browser runs on, as far as they differ for it.

use vstd::prelude::*;

verus! {

/// A kind of desktop.
#[derive(Debug, Clone, Copy, PartialEq, Eq, Structural)]
pub enum Platform {
    /// Linux, and other Unix systems with the same conventions.
    Unix,
    MacOs,
    Windows,
}

} // verus!
