//! An address of either family.

use crate::error::{AddrKind, AddrParseError};
use crate::digits::is_dec_digit;
use crate::ipv4::{lemma_parsed_chars, Ipv4Addr};
use crate::ipv6::Ipv6Addr;
use std::str::FromStr;
use vstd::prelude::*;

verus! {

/// An IP address, either an IPv4 or an IPv6 address.
#[derive(Clone, Copy, Debug, PartialEq, Eq, Structural, Ord, Hash)]
pub enum IpAddr {
    /// An IPv4 address.
    V4(Ipv4Addr),
    /// An IPv6 address.
    V6(Ipv6Addr),
}

impl IpAddr {
    /// The text of the address, in the notation of its family.
    pub open spec fn text(self) -> Seq<char> {
        match self {
            IpAddr::V4(a) => a.text(),
            IpAddr::V6(a) => a.text(),
        }
    }

    /// The address that the text `s` denotes, if it denotes one: the IPv4
    /// address where `s` is a dotted quad, else the IPv6 address where `s`
    /// is colon-hexadecimal.
    pub open spec fn parse_spec(s: Seq<char>) -> Option<IpAddr> {
        match Ipv4Addr::parse_spec(s) {
            Some(a) => Some(IpAddr::V4(a)),
            None => match Ipv6Addr::parse_spec(s) {
                Some(a) => Some(IpAddr::V6(a)),
                None => None,
            },
        }
    }

    /// The address in the text of its family.
    pub fn to_text(&self) -> (r: String)
        ensures
            r@ == self.text(),
    {
        match self {
            IpAddr::V4(a) => a.to_text(),
            IpAddr::V6(a) => a.to_text(),
        }
    }

    /// Reads `text` as an IPv4 address, and where it is none, as an IPv6
    /// address. Where it is neither, the error is that of the IPv6 reading.
    pub fn parse(text: &str) -> (r: Result<IpAddr, AddrParseError>)
        ensures
            r == match IpAddr::parse_spec(text@) {
                Some(a) => Ok::<IpAddr, AddrParseError>(a),
                None => Err(AddrParseError { kind: AddrKind::Ipv6 }),
            },
    {
        match Ipv4Addr::parse(text) {
            Ok(a) => Ok(IpAddr::V4(a)),
            Err(_) => match Ipv6Addr::parse(text) {
                Ok(a) => Ok(IpAddr::V6(a)),
                Err(e) => Err(e),
            },
        }
    }

    /// Parsing the text of an address gives the address back, for both
    /// families.
    pub proof fn lemma_parse_text(self)
        ensures
            IpAddr::parse_spec(self.text()) == Some(self),
    {
        match self {
            IpAddr::V4(a) => {
                a.lemma_parse_text();
            },
            IpAddr::V6(a) => {
                a.lemma_parse_text();
                let s = a.text();
                if Ipv4Addr::parse_spec(s).is_some() {
                    lemma_parsed_chars(s);
                    let i = choose|i: int| 0 <= i < s.len() && s[i] == ':';
                    assert(is_dec_digit(s[i]) || s[i] == '.');
                }
            },
        }
    }

    /// The text of the address that a text denotes is the canonical form of
    /// that text: it denotes the same address, and is its own canonical form.
    /// For a dotted quad it is the text itself.
    pub proof fn lemma_text_parse(s: Seq<char>)
        requires
            IpAddr::parse_spec(s).is_some(),
        ensures
            IpAddr::parse_spec(IpAddr::parse_spec(s).unwrap().text()) == IpAddr::parse_spec(s),
            IpAddr::parse_spec(s).unwrap() is V4 ==> IpAddr::parse_spec(s).unwrap().text() == s,
    {
        let a = IpAddr::parse_spec(s).unwrap();
        a.lemma_parse_text();
        if a is V4 {
            Ipv4Addr::lemma_text_parse(s);
        }
    }

    pub fn is_ipv4(&self) -> (r: bool)
        ensures
            r == (self is V4),
    {
        match self {
            IpAddr::V4(_) => true,
            IpAddr::V6(_) => false,
        }
    }

    pub fn is_ipv6(&self) -> (r: bool)
        ensures
            r == (self is V6),
    {
        match self {
            IpAddr::V4(_) => false,
            IpAddr::V6(_) => true,
        }
    }
}

impl FromStr for IpAddr {
    type Err = AddrParseError;

    fn from_str(s: &str) -> (r: Result<IpAddr, AddrParseError>)
        ensures
            r == match IpAddr::parse_spec(s@) {
                Some(a) => Ok::<IpAddr, AddrParseError>(a),
                None => Err(AddrParseError { kind: AddrKind::Ipv6 }),
            },
    {
        IpAddr::parse(s)
    }
}

} // verus!
