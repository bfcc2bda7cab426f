//! CIDR text: parsing and formatting of prefixes through the `cidr` crate,
//! and the parse of a single address.

use crate::prefix::{CidrPrefix, IpAddress};
use vstd::prelude::*;
use vstd::string::StringSliceAdditionalSpecFns;

verus! {

/// What the `cidr` crate's parser makes of a text: the prefix, or the words
/// of its error.
pub uninterp spec fn cidr_parse_of(s: Seq<char>) -> Result<CidrPrefix, Seq<char>>;

/// The text that the `cidr` crate writes for a prefix.
pub uninterp spec fn cidr_text_of(p: CidrPrefix) -> Seq<char>;

/// Relies on `cidr::parsers::parse_any_cidr_ignore_hostbits` with std's
/// address parser: `"any"`, an address (a host prefix) or `address/length`,
/// with the bits beyond the length cleared. The crate's network types hold
/// only lengths within the family and addresses without host bits.
#[verifier::external_body]
fn parse_any_cidr(s: &str) -> (r: Result<CidrPrefix, String>)
    ensures
        match r {
            Ok(p) => p.wf() && cidr_parse_of(s@) == Ok::<CidrPrefix, Seq<char>>(p),
            Err(e) => cidr_parse_of(s@) == Err::<CidrPrefix, Seq<char>>(e@),
        },
{
    match cidr::parsers::parse_any_cidr_ignore_hostbits(s, str::parse) {
        Ok(cidr::AnyIpCidr::Any) => Ok(CidrPrefix::Any),
        Ok(cidr::AnyIpCidr::V4(c)) => Ok(
            CidrPrefix::V4 { addr: u32::from(c.first_address()), len: c.network_length() },
        ),
        Ok(cidr::AnyIpCidr::V6(c)) => Ok(
            CidrPrefix::V6 { addr: u128::from(c.first_address()), len: c.network_length() },
        ),
        Err(e) => Err(format!("{e:#}")),
    }
}

/// Relies on the alternate `Display` of `cidr::AnyIpCidr`: `"any"`, or the
/// address, a slash and the length. The parser above reads that text back
/// as the same prefix.
#[verifier::external_body]
pub(crate) fn prefix_text(p: &CidrPrefix) -> (r: String)
    requires
        p.wf(),
    ensures
        r@ == cidr_text_of(*p),
        cidr_parse_of(r@) is Ok,
        cidr_parse_of(r@)->Ok_0 == *p,
{
    let c = match *p {
        CidrPrefix::Any => cidr::AnyIpCidr::Any,
        CidrPrefix::V4 { addr, len } => cidr::AnyIpCidr::V4(
            cidr::Ipv4Cidr::new(addr.into(), len).unwrap(),
        ),
        CidrPrefix::V6 { addr, len } => cidr::AnyIpCidr::V6(
            cidr::Ipv6Cidr::new(addr.into(), len).unwrap(),
        ),
    };
    format!("{c:#}")
}

/// Parses a prefix written as `any`, as an address, or as `address/length`;
/// bits beyond the length are cleared.
pub fn parse_cidr(s: &str) -> (r: Result<CidrPrefix, String>)
    ensures
        match r {
            Ok(p) => p.wf() && cidr_parse_of(s@) == Ok::<CidrPrefix, Seq<char>>(p),
            Err(e) => cidr_parse_of(s@) == Err::<CidrPrefix, Seq<char>>(e@),
        },
{
    parse_any_cidr(s)
}

/// The address that a host prefix stands for.
pub open spec fn host_address(p: CidrPrefix) -> Option<IpAddress> {
    match p {
        CidrPrefix::V4 { addr, len } => if len == 32 {
            Some(IpAddress::V4(addr))
        } else {
            None
        },
        CidrPrefix::V6 { addr, len } => if len == 128 {
            Some(IpAddress::V6(addr))
        } else {
            None
        },
        CidrPrefix::Any => None,
    }
}

impl IpAddress {
    /// Parses a single address: a text without `/` that reads as a host
    /// prefix.
    pub fn parse(s: &str) -> (r: Option<IpAddress>)
        ensures
            r == if s.spec_bytes().contains(0x2fu8) {
                None
            } else {
                match cidr_parse_of(s@) {
                    Ok(p) => host_address(p),
                    Err(_) => None,
                }
            },
    {
        let b = s.as_bytes();
        let mut i: usize = 0;
        while i < b.len()
            invariant
                b@ == s.spec_bytes(),
                i <= b@.len(),
                forall|j: int| 0 <= j < i ==> b@[j] != 0x2fu8,
            decreases b@.len() - i,
        {
            if b[i] == 0x2fu8 {
                proof {
                    assert(b@[i as int] == 0x2fu8);
                }
                return None;
            }
            i += 1;
        }
        proof {
            assert(!s.spec_bytes().contains(0x2fu8));
        }
        match parse_any_cidr(s) {
            Ok(CidrPrefix::V4 { addr, len }) => if len == 32 {
                Some(IpAddress::V4(addr))
            } else {
                None
            },
            Ok(CidrPrefix::V6 { addr, len }) => if len == 128 {
                Some(IpAddress::V6(addr))
            } else {
                None
            },
            _ => None,
        }
    }
}

} // verus!
