//! An IPv4 CIDR calculator: from an address and a prefix length it derives
//! the network address, the usable host range, the broadcast address and the
//! number of usable hosts, and it parses and renders dotted-quad text.

pub mod address;
pub mod text;
pub mod parse;
