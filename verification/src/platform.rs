//! The host conventions that decide how path text is read and written.

use vstd::prelude::*;

verus! {

/// The byte `/`.
pub const SLASH: u8 = 0x2f;

/// The byte `\`.
pub const BACKSLASH: u8 = 0x5c;

/// A family of hosts that agree on how a path is spelled.
#[derive(Clone, Copy, Debug, PartialEq, Eq, Structural)]
pub enum Platform {
    /// `/` separates components; `\` is an ordinary byte of a name.
    Unix,
    /// `\` is the separator that is written; `/` is read as one too.
    Windows,
}

impl Platform {
    /// The separator that this platform writes between components.
    pub open spec fn main_sep(self) -> u8 {
        match self {
            Platform::Unix => SLASH,
            Platform::Windows => BACKSLASH,
        }
    }

    /// The separator of the other platform.
    pub open spec fn alt_sep(self) -> u8 {
        match self {
            Platform::Unix => BACKSLASH,
            Platform::Windows => SLASH,
        }
    }

    /// Whether `b` ends a component when path text is read.
    pub open spec fn is_sep(self, b: u8) -> bool {
        b == SLASH || (self == Platform::Windows && b == BACKSLASH)
    }

    /// The separator that this platform writes between components.
    pub fn main_separator(self) -> (b: u8)
        ensures
            b == self.main_sep(),
    {
        match self {
            Platform::Unix => SLASH,
            Platform::Windows => BACKSLASH,
        }
    }

    /// The separator of the other platform, which `path_sanitise` replaces.
    pub fn alt_separator(self) -> (b: u8)
        ensures
            b == self.alt_sep(),
    {
        match self {
            Platform::Unix => BACKSLASH,
            Platform::Windows => SLASH,
        }
    }

    /// Whether `b` ends a component when path text is read.
    pub fn is_separator(self, b: u8) -> (r: bool)
        ensures
            r == self.is_sep(b),
    {
        b == SLASH || (self == Platform::Windows && b == BACKSLASH)
    }

    /// The platform for a given primary separator character: `Windows` for a
    /// backslash, `Unix` for anything else.
    pub fn from_separator(sep: char) -> (p: Platform)
        ensures
            p == if sep == '\\' { Platform::Windows } else { Platform::Unix },
    {
        if sep == '\\' {
            Platform::Windows
        } else {
            Platform::Unix
        }
    }

    /// The platform this program was built for.
    ///
    /// The answer depends on the build target, so nothing is promised about
    /// which of the two it is.
    pub fn host() -> Platform {
        Platform::from_separator(host_separator())
    }
}

/// Reads `std::path::MAIN_SEPARATOR`, the primary separator of the build
/// target. The value differs between targets, so no claim is made about it.
#[verifier::external_body]
fn host_separator() -> char {
    std::path::MAIN_SEPARATOR
}

} // verus!
