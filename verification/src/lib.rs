//! IPv4 and IPv6 addresses behind one type, their textual forms, and the
//! conversion between an address with a port and a socket address.
//!
//! The text of an address is stated as a function of the address, and what a
//! text denotes as a function of the text; the two are proved to be inverse
//! to each other as far as they can be: parsing the text of an address gives
//! the address back, and the text of a parsed address is the canonical form
//! of what was parsed.

pub mod digits;
pub mod error;
pub mod ip;
pub mod ipv4;
pub mod ipv6;
pub mod order;
pub mod socket;
pub mod text;

pub use error::{AddrKind, AddrParseError};
pub use ip::IpAddr;
pub use ipv4::Ipv4Addr;
pub use ipv6::Ipv6Addr;
pub use socket::{SocketAddr, SocketAddrExt, SocketAddrV4, SocketAddrV6};
