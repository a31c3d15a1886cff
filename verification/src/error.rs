//! The error of a failed parse.

use vstd::prelude::*;

verus! {

/// The kind of address that a text was last read as.
#[derive(Clone, Copy, Debug, PartialEq, Eq, Structural, Hash)]
pub enum AddrKind {
    Ipv4,
    Ipv6,
}

/// A text is not an address. The error names the kind of address that the
/// text was last read as, and nothing about the text itself.
#[derive(Clone, Copy, Debug, PartialEq, Eq, Structural, Hash)]
pub struct AddrParseError {
    pub kind: AddrKind,
}

impl AddrParseError {
    pub fn new(kind: AddrKind) -> (r: AddrParseError)
        ensures
            r == (AddrParseError { kind }),
    {
        AddrParseError { kind }
    }

    pub fn kind(&self) -> (r: AddrKind)
        ensures
            r == self.kind,
    {
        self.kind
    }
}

} // verus!
