//! The order of addresses: an IPv4 address comes before an IPv6 address, and
//! within a family addresses are ordered as numbers, the first octet or
//! group the most significant.

use crate::ip::IpAddr;
use crate::ipv4::Ipv4Addr;
use crate::ipv6::Ipv6Addr;
use core::cmp::Ordering;
use vstd::prelude::*;
use vstd::std_specs::cmp::PartialOrdSpec;

verus! {

/// How the number `x` stands to the number `y`.
pub open spec fn int_order(x: int, y: int) -> Ordering {
    if x < y {
        Ordering::Less
    } else if x == y {
        Ordering::Equal
    } else {
        Ordering::Greater
    }
}

impl PartialOrd for Ipv4Addr {
    fn partial_cmp(&self, other: &Ipv4Addr) -> (r: Option<Ordering>) {
        let x = self.to_bits();
        let y = other.to_bits();
        if x < y {
            Some(Ordering::Less)
        } else if x == y {
            Some(Ordering::Equal)
        } else {
            Some(Ordering::Greater)
        }
    }
}

impl vstd::std_specs::cmp::PartialOrdSpecImpl for Ipv4Addr {
    open spec fn obeys_partial_cmp_spec() -> bool {
        true
    }

    open spec fn partial_cmp_spec(&self, other: &Ipv4Addr) -> Option<Ordering> {
        Some(int_order(self.bits(), other.bits()))
    }
}

impl PartialOrd for Ipv6Addr {
    fn partial_cmp(&self, other: &Ipv6Addr) -> (r: Option<Ordering>) {
        let x = self.to_bits();
        let y = other.to_bits();
        if x < y {
            Some(Ordering::Less)
        } else if x == y {
            Some(Ordering::Equal)
        } else {
            Some(Ordering::Greater)
        }
    }
}

impl vstd::std_specs::cmp::PartialOrdSpecImpl for Ipv6Addr {
    open spec fn obeys_partial_cmp_spec() -> bool {
        true
    }

    open spec fn partial_cmp_spec(&self, other: &Ipv6Addr) -> Option<Ordering> {
        Some(int_order(self.bits(), other.bits()))
    }
}

impl PartialOrd for IpAddr {
    fn partial_cmp(&self, other: &IpAddr) -> (r: Option<Ordering>) {
        match (self, other) {
            (IpAddr::V4(a), IpAddr::V4(b)) => a.partial_cmp(b),
            (IpAddr::V4(_), IpAddr::V6(_)) => Some(Ordering::Less),
            (IpAddr::V6(_), IpAddr::V4(_)) => Some(Ordering::Greater),
            (IpAddr::V6(a), IpAddr::V6(b)) => a.partial_cmp(b),
        }
    }
}

impl vstd::std_specs::cmp::PartialOrdSpecImpl for IpAddr {
    open spec fn obeys_partial_cmp_spec() -> bool {
        true
    }

    open spec fn partial_cmp_spec(&self, other: &IpAddr) -> Option<Ordering> {
        match (*self, *other) {
            (IpAddr::V4(a), IpAddr::V4(b)) => Some(int_order(a.bits(), b.bits())),
            (IpAddr::V4(_), IpAddr::V6(_)) => Some(Ordering::Less),
            (IpAddr::V6(_), IpAddr::V4(_)) => Some(Ordering::Greater),
            (IpAddr::V6(a), IpAddr::V6(b)) => Some(int_order(a.bits(), b.bits())),
        }
    }
}

/// Whether `x` comes before `y`.
pub fn comes_before(x: &IpAddr, y: &IpAddr) -> (r: bool)
    ensures
        r == (x.partial_cmp_spec(y) == Some(Ordering::Less)),
        (x is V4 && y is V6) ==> r,
        (x is V6 && y is V4) ==> !r,
{
    *x < *y
}

/// Every IPv4 address comes before every IPv6 address, whatever the two
/// addresses are.
pub proof fn lemma_v4_before_v6(x: Ipv4Addr, y: Ipv6Addr)
    ensures
        IpAddr::V4(x).partial_cmp_spec(&IpAddr::V6(y)) == Some(Ordering::Less),
        IpAddr::V6(y).partial_cmp_spec(&IpAddr::V4(x)) == Some(Ordering::Greater),
{
}

/// The order is total and agrees with equality: two addresses are equal
/// where neither comes before the other, and one comes after another where
/// the other comes before it.
pub proof fn lemma_order_total(x: IpAddr, y: IpAddr)
    ensures
        x.partial_cmp_spec(&y) == Some(Ordering::Equal) <==> x == y,
        x.partial_cmp_spec(&y) == Some(Ordering::Less) <==> y.partial_cmp_spec(&x) == Some(
            Ordering::Greater,
        ),
{
    match (x, y) {
        (IpAddr::V4(a), IpAddr::V4(b)) => {
            if a.bits() == b.bits() {
                a.lemma_bits_injective(b);
            }
        },
        (IpAddr::V6(a), IpAddr::V6(b)) => {
            if a.bits() == b.bits() {
                a.lemma_bits_injective(b);
            }
        },
        _ => {},
    }
}

/// The order is transitive.
pub proof fn lemma_order_transitive(x: IpAddr, y: IpAddr, z: IpAddr)
    requires
        x.partial_cmp_spec(&y) == Some(Ordering::Less),
        y.partial_cmp_spec(&z) == Some(Ordering::Less),
    ensures
        x.partial_cmp_spec(&z) == Some(Ordering::Less),
{
}

} // verus!
