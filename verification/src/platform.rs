//! The operating system a binding or escape sequence is resolved for.

use vstd::prelude::*;

verus! {

/// Host platform, which decides a few keymap and key-encoding rules
/// (`mod` is ⌘ on macOS and Ctrl elsewhere; ⌘ chords are app shortcuts).
#[derive(Debug, Clone, Copy, PartialEq, Eq)]
pub enum Platform {
    MacOs,
    Windows,
    Linux,
}

impl Platform {
    pub open spec fn is_mac(self) -> bool {
        self is MacOs
    }

    pub fn is_macos(self) -> (r: bool)
        ensures
            r == self.is_mac(),
    {
        match self {
            Platform::MacOs => true,
            _ => false,
        }
    }
}

} // verus!
