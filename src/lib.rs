//! Sets of IP network prefixes (IPv4 and IPv6) with exact membership tests,
//! overlap resolution at insertion, and conversion to and from CIDR text.

pub mod prefix;
pub mod set;
pub mod text;
pub mod laws;

use vstd::prelude::*;

verus! {

} // verus!
