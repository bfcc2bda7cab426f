//! Addresses, canonical network prefixes, containment and their order.

use vstd::prelude::*;

verus! {

/// A single IPv4 or IPv6 address, as its numeric value.
#[derive(Clone, Copy, Debug, PartialEq, Eq, Structural)]
pub enum IpAddress {
    V4(u32),
    V6(u128),
}

/// A network prefix: everything, or an IPv4 / IPv6 network given by its
/// base address and prefix length.
#[allow(inconsistent_fields)]
#[derive(Clone, Copy, Debug, PartialEq, Eq, Structural)]
pub enum CidrPrefix {
    Any,
    V4 { addr: u32, len: u8 },
    V6 { addr: u128, len: u8 },
}

/// The IPv4 netmask of a prefix of length `len`.
pub open spec fn mask4(len: u8) -> u32 {
    if len == 0 {
        0u32
    } else {
        0xffff_ffffu32 << ((32 - len) as u32)
    }
}

/// The IPv6 netmask of a prefix of length `len`.
pub open spec fn mask6(len: u8) -> u128 {
    if len == 0 {
        0u128
    } else {
        0xffff_ffff_ffff_ffff_ffff_ffff_ffff_ffffu128 << ((128 - len) as u128)
    }
}

impl CidrPrefix {
    /// The length fits the family and no bit beyond the length is set.
    pub open spec fn wf(self) -> bool {
        match self {
            CidrPrefix::Any => true,
            CidrPrefix::V4 { addr, len } => len <= 32 && addr & mask4(len) == addr,
            CidrPrefix::V6 { addr, len } => len <= 128 && addr & mask6(len) == addr,
        }
    }

    /// Whether the address lies in this prefix.
    pub open spec fn holds(self, a: IpAddress) -> bool {
        match (self, a) {
            (CidrPrefix::Any, _) => true,
            (CidrPrefix::V4 { addr, len }, IpAddress::V4(x)) => x & mask4(len) == addr,
            (CidrPrefix::V6 { addr, len }, IpAddress::V6(x)) => x & mask6(len) == addr,
            _ => false,
        }
    }

    /// Whether every address of `q` lies in this prefix.
    pub open spec fn covers(self, q: CidrPrefix) -> bool {
        match (self, q) {
            (CidrPrefix::Any, _) => true,
            (CidrPrefix::V4 { addr, len }, CidrPrefix::V4 { addr: b, len: m }) => len <= m && b
                & mask4(len) == addr,
            (CidrPrefix::V6 { addr, len }, CidrPrefix::V6 { addr: b, len: m }) => len <= m && b
                & mask6(len) == addr,
            _ => false,
        }
    }

    /// Position of the family in the order: `Any`, then IPv4, then IPv6.
    pub open spec fn rank(self) -> int {
        match self {
            CidrPrefix::Any => 0,
            CidrPrefix::V4 { .. } => 1,
            CidrPrefix::V6 { .. } => 2,
        }
    }

    /// The base address as a number (0 for `Any`).
    pub open spec fn base(self) -> int {
        match self {
            CidrPrefix::Any => 0,
            CidrPrefix::V4 { addr, .. } => addr as int,
            CidrPrefix::V6 { addr, .. } => addr as int,
        }
    }

    /// The prefix length (0 for `Any`).
    pub open spec fn length(self) -> int {
        match self {
            CidrPrefix::Any => 0,
            CidrPrefix::V4 { len, .. } => len as int,
            CidrPrefix::V6 { len, .. } => len as int,
        }
    }

    /// The order of prefixes: by family, then base address, then length.
    pub open spec fn lt(self, q: CidrPrefix) -> bool {
        self.rank() < q.rank() || (self.rank() == q.rank() && (self.base() < q.base() || (
        self.base() == q.base() && self.length() < q.length())))
    }

    /// Executable form of `lt`.
    pub fn less(&self, q: &CidrPrefix) -> (r: bool)
        ensures
            r == self.lt(*q),
    {
        match (*self, *q) {
            (CidrPrefix::Any, CidrPrefix::Any) => false,
            (CidrPrefix::Any, _) => true,
            (_, CidrPrefix::Any) => false,
            (CidrPrefix::V4 { .. }, CidrPrefix::V6 { .. }) => true,
            (CidrPrefix::V6 { .. }, CidrPrefix::V4 { .. }) => false,
            (CidrPrefix::V4 { addr: a, len: l }, CidrPrefix::V4 { addr: b, len: m }) => a < b || (a
                == b && l < m),
            (CidrPrefix::V6 { addr: a, len: l }, CidrPrefix::V6 { addr: b, len: m }) => a < b || (a
                == b && l < m),
        }
    }

    /// Executable form of `covers`.
    pub fn covers_prefix(&self, q: &CidrPrefix) -> (r: bool)
        requires
            self.wf(),
        ensures
            r == self.covers(*q),
    {
        match (*self, *q) {
            (CidrPrefix::Any, _) => true,
            (CidrPrefix::V4 { addr, len }, CidrPrefix::V4 { addr: b, len: m }) => len <= m && b
                & netmask4(len) == addr,
            (CidrPrefix::V6 { addr, len }, CidrPrefix::V6 { addr: b, len: m }) => len <= m && b
                & netmask6(len) == addr,
            _ => false,
        }
    }

    /// Executable form of `holds`.
    pub fn holds_address(&self, a: IpAddress) -> (r: bool)
        requires
            self.wf(),
        ensures
            r == self.holds(a),
    {
        match (*self, a) {
            (CidrPrefix::Any, _) => true,
            (CidrPrefix::V4 { addr, len }, IpAddress::V4(x)) => x & netmask4(len) == addr,
            (CidrPrefix::V6 { addr, len }, IpAddress::V6(x)) => x & netmask6(len) == addr,
            _ => false,
        }
    }
}

impl CidrPrefix {
    /// The IPv4 prefix of the given length that holds `addr`: the bits
    /// beyond the length are cleared. `None` for a length over 32.
    pub fn new_v4(addr: u32, len: u8) -> (r: Option<CidrPrefix>)
        ensures
            len <= 32 ==> r == Some(CidrPrefix::V4 { addr: addr & mask4(len), len }),
            len > 32 ==> r is None,
            r matches Some(p) ==> p.wf(),
    {
        if len > 32 {
            return None;
        }
        let m = netmask4(len);
        proof {
            assert((addr & m) & m == addr & m) by (bit_vector);
        }
        Some(CidrPrefix::V4 { addr: addr & m, len })
    }

    /// The IPv6 prefix of the given length that holds `addr`: the bits
    /// beyond the length are cleared. `None` for a length over 128.
    pub fn new_v6(addr: u128, len: u8) -> (r: Option<CidrPrefix>)
        ensures
            len <= 128 ==> r == Some(CidrPrefix::V6 { addr: addr & mask6(len), len }),
            len > 128 ==> r is None,
            r matches Some(p) ==> p.wf(),
    {
        if len > 128 {
            return None;
        }
        let m = netmask6(len);
        proof {
            assert((addr & m) & m == addr & m) by (bit_vector);
        }
        Some(CidrPrefix::V6 { addr: addr & m, len })
    }
}

/// The IPv4 netmask of a prefix of length `len`.
pub fn netmask4(len: u8) -> (r: u32)
    requires
        len <= 32,
    ensures
        r == mask4(len),
{
    if len == 0 {
        0
    } else {
        0xffff_ffffu32 << ((32 - len) as u32)
    }
}

/// The IPv6 netmask of a prefix of length `len`.
pub fn netmask6(len: u8) -> (r: u128)
    requires
        len <= 128,
    ensures
        r == mask6(len),
{
    if len == 0 {
        0
    } else {
        0xffff_ffff_ffff_ffff_ffff_ffff_ffff_ffffu128 << ((128 - len) as u128)
    }
}

proof fn lemma_mask4_nested(l: u8, m: u8)
    requires
        l <= m <= 32,
    ensures
        mask4(l) & mask4(m) == mask4(l),
{
    if l > 0 {
        let sl = (32 - l) as u32;
        let sm = (32 - m) as u32;
        assert((0xffff_ffffu32 << sl) & (0xffff_ffffu32 << sm) == (0xffff_ffffu32 << sl))
            by (bit_vector)
            requires
                sm <= sl <= 32,
        ;
    } else {
        assert(0u32 & mask4(m) == 0u32) by (bit_vector);
    }
}

proof fn lemma_mask6_nested(l: u8, m: u8)
    requires
        l <= m <= 128,
    ensures
        mask6(l) & mask6(m) == mask6(l),
{
    if l > 0 {
        let sl = (128 - l) as u128;
        let sm = (128 - m) as u128;
        assert((0xffff_ffff_ffff_ffff_ffff_ffff_ffff_ffffu128 << sl) & (
        0xffff_ffff_ffff_ffff_ffff_ffff_ffff_ffffu128 << sm) == (
        0xffff_ffff_ffff_ffff_ffff_ffff_ffff_ffffu128 << sl)) by (bit_vector)
            requires
                sm <= sl <= 128,
        ;
    } else {
        assert(0u128 & mask6(m) == 0u128) by (bit_vector);
    }
}

proof fn lemma_and_nested4(x: u32, m1: u32, m2: u32)
    requires
        m1 & m2 == m1,
    ensures
        (x & m2) & m1 == x & m1,
{
    assert((x & m2) & m1 == x & m1) by (bit_vector)
        requires
            m1 & m2 == m1,
    ;
}

proof fn lemma_and_nested6(x: u128, m1: u128, m2: u128)
    requires
        m1 & m2 == m1,
    ensures
        (x & m2) & m1 == x & m1,
{
    assert((x & m2) & m1 == x & m1) by (bit_vector)
        requires
            m1 & m2 == m1,
    ;
}

/// An address in a prefix lies in every prefix that covers it.
pub proof fn lemma_covers_holds(p: CidrPrefix, q: CidrPrefix, a: IpAddress)
    requires
        q.wf(),
        p.covers(q),
        q.holds(a),
    ensures
        p.holds(a),
{
    match (p, q, a) {
        (CidrPrefix::V4 { len: l, .. }, CidrPrefix::V4 { len: m, .. }, IpAddress::V4(x)) => {
            lemma_mask4_nested(l, m);
            lemma_and_nested4(x, mask4(l), mask4(m));
        },
        (CidrPrefix::V6 { len: l, .. }, CidrPrefix::V6 { len: m, .. }, IpAddress::V6(x)) => {
            lemma_mask6_nested(l, m);
            lemma_and_nested6(x, mask6(l), mask6(m));
        },
        _ => {},
    }
}

/// Covering is transitive.
pub proof fn lemma_covers_trans(p: CidrPrefix, q: CidrPrefix, r: CidrPrefix)
    requires
        q.wf(),
        p.covers(q),
        q.covers(r),
    ensures
        p.covers(r),
{
    match (p, q, r) {
        (
            CidrPrefix::V4 { len: l, .. },
            CidrPrefix::V4 { len: m, .. },
            CidrPrefix::V4 { addr: x, .. },
        ) => {
            lemma_mask4_nested(l, m);
            lemma_and_nested4(x, mask4(l), mask4(m));
        },
        (
            CidrPrefix::V6 { len: l, .. },
            CidrPrefix::V6 { len: m, .. },
            CidrPrefix::V6 { addr: x, .. },
        ) => {
            lemma_mask6_nested(l, m);
            lemma_and_nested6(x, mask6(l), mask6(m));
        },
        _ => {},
    }
}

/// The order is strict and total on prefixes.
pub proof fn lemma_lt_total(p: CidrPrefix, q: CidrPrefix)
    ensures
        !(p.lt(q) && q.lt(p)),
        !p.lt(p),
        p != q ==> p.lt(q) || q.lt(p),
{
    if p != q && p.rank() == q.rank() && p.base() == q.base() && p.length() == q.length() {
        match (p, q) {
            (CidrPrefix::V4 { .. }, CidrPrefix::V4 { .. }) => {},
            (CidrPrefix::V6 { .. }, CidrPrefix::V6 { .. }) => {},
            _ => {},
        }
    }
}

impl CidrPrefix {
    /// The prefix starts at or before the address, in the order of
    /// families and then of addresses.
    pub open spec fn starts_by(self, a: IpAddress) -> bool {
        match (self, a) {
            (CidrPrefix::Any, _) => true,
            (CidrPrefix::V4 { addr, .. }, IpAddress::V4(x)) => addr <= x,
            (CidrPrefix::V4 { .. }, IpAddress::V6(_)) => true,
            (CidrPrefix::V6 { .. }, IpAddress::V4(_)) => false,
            (CidrPrefix::V6 { addr, .. }, IpAddress::V6(x)) => addr <= x,
        }
    }

    /// Executable form of `starts_by`.
    pub fn starts_by_address(&self, a: IpAddress) -> (r: bool)
        ensures
            r == self.starts_by(a),
    {
        match (*self, a) {
            (CidrPrefix::Any, _) => true,
            (CidrPrefix::V4 { addr, .. }, IpAddress::V4(x)) => addr <= x,
            (CidrPrefix::V4 { .. }, IpAddress::V6(_)) => true,
            (CidrPrefix::V6 { .. }, IpAddress::V4(_)) => false,
            (CidrPrefix::V6 { addr, .. }, IpAddress::V6(x)) => addr <= x,
        }
    }
}

proof fn lemma_mask4_monotone(y1: u32, y2: u32, l: u8)
    requires
        y1 <= y2,
        l <= 32,
    ensures
        y1 & mask4(l) <= y2 & mask4(l),
{
    if l > 0 {
        let s = (32 - l) as u32;
        assert((y1 & (0xffff_ffffu32 << s)) <= (y2 & (0xffff_ffffu32 << s))) by (bit_vector)
            requires
                y1 <= y2,
                s < 32,
        ;
    } else {
        assert(y1 & 0u32 == 0u32 && y2 & 0u32 == 0u32) by (bit_vector);
    }
}

proof fn lemma_mask6_monotone(y1: u128, y2: u128, l: u8)
    requires
        y1 <= y2,
        l <= 128,
    ensures
        y1 & mask6(l) <= y2 & mask6(l),
{
    if l > 0 {
        let s = (128 - l) as u128;
        assert((y1 & (0xffff_ffff_ffff_ffff_ffff_ffff_ffff_ffffu128 << s)) <= (y2 & (
        0xffff_ffff_ffff_ffff_ffff_ffff_ffff_ffffu128 << s))) by (bit_vector)
            requires
                y1 <= y2,
                s < 128,
        ;
    } else {
        assert(y1 & 0u128 == 0u128 && y2 & 0u128 == 0u128) by (bit_vector);
    }
}

/// A prefix that holds an address starts by it.
pub proof fn lemma_holds_starts_by(p: CidrPrefix, a: IpAddress)
    requires
        p.holds(a),
    ensures
        p.starts_by(a),
{
    match (p, a) {
        (CidrPrefix::V4 { len, .. }, IpAddress::V4(x)) => {
            let m = mask4(len);
            assert(x & m <= x) by (bit_vector);
        },
        (CidrPrefix::V6 { len, .. }, IpAddress::V6(x)) => {
            let m = mask6(len);
            assert(x & m <= x) by (bit_vector);
        },
        _ => {},
    }
}

/// Of two canonical prefixes in ascending order that both start by an
/// address held by the first, the first covers the second.
pub proof fn lemma_nested_start(p: CidrPrefix, q: CidrPrefix, a: IpAddress)
    requires
        p.wf(),
        q.wf(),
        p.lt(q),
        p.holds(a),
        q.starts_by(a),
        !(p is Any),
        !(q is Any),
    ensures
        p.covers(q),
{
    match (p, q, a) {
        (
            CidrPrefix::V4 { addr: x0, len: l },
            CidrPrefix::V4 { addr: b, len: m },
            IpAddress::V4(x),
        ) => {
            lemma_mask4_monotone(x0, b, l);
            lemma_mask4_monotone(b, x, l);
            if m < l {
                lemma_mask4_nested(m, l);
                let ml = mask4(l);
                let mm = mask4(m);
                assert(b & ml == b) by (bit_vector)
                    requires
                        b & mm == b,
                        mm & ml == mm,
                ;
            }
        },
        (
            CidrPrefix::V6 { addr: x0, len: l },
            CidrPrefix::V6 { addr: b, len: m },
            IpAddress::V6(x),
        ) => {
            lemma_mask6_monotone(x0, b, l);
            lemma_mask6_monotone(b, x, l);
            if m < l {
                lemma_mask6_nested(m, l);
                let ml = mask6(l);
                let mm = mask6(m);
                assert(b & ml == b) by (bit_vector)
                    requires
                        b & mm == b,
                        mm & ml == mm,
                ;
            }
        },
        _ => {},
    }
}

} // verus!
