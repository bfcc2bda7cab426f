//! The prefix set: a universal flag and, for both address families, the
//! canonical list of stored prefixes, kept sorted with no prefix covering
//! another; once the universal prefix is present, which covers everything,
//! nothing else is kept. Lookups are a binary search over that list;
//! insertion drops a prefix that a stored one covers and removes the stored
//! ones it covers.

use crate::prefix::{lemma_holds_starts_by, lemma_nested_start, mask4, mask6, CidrPrefix, IpAddress};
use crate::text::{cidr_parse_of, cidr_text_of, parse_cidr, prefix_text};
use vstd::string::StringExecFns;
use vstd::prelude::*;

verus! {

/// A set of network prefixes with membership tests over addresses.
#[derive(Clone, Debug, PartialEq, Eq)]
pub struct CidrSet {
    any: bool,
    entries: Vec<CidrPrefix>,
}

/// The stored prefixes after inserting the family prefix `p`: unchanged when
/// a stored prefix already covers `p`, otherwise `p` replaces every stored
/// prefix that it covers.
pub open spec fn insert_result(s: Set<CidrPrefix>, p: CidrPrefix) -> Set<CidrPrefix> {
    if exists|e: CidrPrefix| s.contains(e) && #[trigger] e.covers(p) {
        s
    } else {
        s.filter(|e: CidrPrefix| !p.covers(e)).insert(p)
    }
}

/// What a set holds (universal flag, stored family prefixes) after
/// inserting `p` into `st`. The universal prefix covers every prefix: once
/// present, nothing else is stored, and inserting it drops every stored
/// family prefix.
pub open spec fn insert_state(st: (bool, Set<CidrPrefix>), p: CidrPrefix) -> (bool, Set<CidrPrefix>) {
    if p is Any {
        (true, Set::empty())
    } else if st.0 {
        st
    } else {
        (false, insert_result(st.1, p))
    }
}

/// Entries of `s` are canonical family prefixes in strictly ascending
/// order, and none covers another.
pub open spec fn canonical_listing(s: Seq<CidrPrefix>) -> bool {
    &&& forall|i: int| 0 <= i < s.len() ==> (#[trigger] s[i]).wf() && !(s[i] is Any)
    &&& forall|i: int, j: int| 0 <= i < j < s.len() ==> (#[trigger] s[i]).lt(#[trigger] s[j])
    &&& forall|i: int, j: int|
        0 <= i < s.len() && 0 <= j < s.len() && i != j ==> !(#[trigger] s[i]).covers(
            #[trigger] s[j],
        )
}

/// What a set holds after inserting `ps` in order into an empty set: whether
/// the universal prefix was among them, and the stored family prefixes.
pub open spec fn build(ps: Seq<CidrPrefix>) -> (bool, Set<CidrPrefix>)
    decreases ps.len(),
{
    if ps.len() == 0 {
        (false, Set::empty())
    } else {
        insert_state(build(ps.drop_last()), ps.last())
    }
}

/// `s` is in ascending order, equal entries allowed.
pub open spec fn ascending(s: Seq<CidrPrefix>) -> bool {
    forall|i: int, j: int| 0 <= i < j < s.len() ==> !(#[trigger] s[j]).lt(#[trigger] s[i])
}

/// Every text parses.
pub open spec fn all_parse(texts: Seq<Seq<char>>) -> bool {
    forall|i: int| 0 <= i < texts.len() ==> (#[trigger] cidr_parse_of(texts[i])) is Ok
}

/// The prefixes that the texts parse to.
pub open spec fn parsed(texts: Seq<Seq<char>>) -> Seq<CidrPrefix> {
    texts.map_values(|t: Seq<char>| cidr_parse_of(t)->Ok_0)
}

/// The message for texts that do not all parse: `"<text>: <reason>"` for
/// each text that fails, in order, joined by `", "`.
pub open spec fn problems_text(texts: Seq<Seq<char>>) -> Seq<char>
    decreases texts.len(),
{
    if texts.len() == 0 {
        Seq::empty()
    } else {
        let prev = problems_text(texts.drop_last());
        let t = texts.last();
        match cidr_parse_of(t) {
            Ok(_) => prev,
            Err(reason) => {
                let item = t + seq![':', ' '] + reason;
                if all_parse(texts.drop_last()) {
                    item
                } else {
                    prev + seq![',', ' '] + item
                }
            },
        }
    }
}

/// The characters of each owned text.
pub open spec fn string_texts(v: Seq<String>) -> Seq<Seq<char>> {
    v.map_values(|s: String| s@)
}

/// The characters of each borrowed text.
pub open spec fn str_texts(v: Seq<&str>) -> Seq<Seq<char>> {
    v.map_values(|s: &str| s@)
}

proof fn lemma_no_problems(texts: Seq<Seq<char>>)
    requires
        all_parse(texts),
    ensures
        problems_text(texts) == Seq::<char>::empty(),
    decreases texts.len(),
{
    if texts.len() > 0 {
        assert(all_parse(texts.drop_last())) by {
            assert forall|j: int| 0 <= j < texts.len() - 1 implies (#[trigger] cidr_parse_of(texts.drop_last()[j])) is Ok by {
                assert(texts.drop_last()[j] == texts[j]);
            }
        }
        assert(cidr_parse_of(texts[texts.len() - 1]) is Ok);
        lemma_no_problems(texts.drop_last());
    }
}

/// Sorts prefixes into ascending order; equal prefixes keep their order.
pub fn sort_prefixes(v: Vec<CidrPrefix>) -> (r: Vec<CidrPrefix>)
    ensures
        r@.to_multiset() == v@.to_multiset(),
        ascending(r@),
{
    broadcast use vstd::seq_lib::to_multiset_insert;

    let n = v.len();
    let mut out: Vec<CidrPrefix> = Vec::new();
    let mut k: usize = 0;
    proof {
        assert(v@.subrange(0, 0) =~= out@);
    }
    while k < n
        invariant
            n == v@.len(),
            k <= n,
            out@.to_multiset() == v@.subrange(0, k as int).to_multiset(),
            ascending(out@),
        decreases n - k,
    {
        let x = v[k];
        let mut pos: usize = 0;
        while pos < out.len() && !x.less(&out[pos])
            invariant
                pos <= out@.len(),
                forall|j: int| 0 <= j < pos ==> !x.lt(#[trigger] out@[j]),
            decreases out@.len() - pos,
        {
            pos += 1;
        }
        let ghost before = out@;
        out.insert(pos, x);
        proof {
            assert(v@.subrange(0, k + 1) == v@.subrange(0, k as int).push(x));
            vstd::seq_lib::to_multiset_build(v@.subrange(0, k as int), x);
            vstd::seq_lib::to_multiset_insert(before, pos as int, x);
            assert(out@ == before.insert(pos as int, x));
            assert forall|i: int, j: int| 0 <= i < j < out@.len() implies !(#[trigger] out@[j]).lt(#[trigger] out@[i]) by {
                if j == pos {
                    assert(out@[i] == before[i]);
                } else if i == pos {
                    assert(out@[j] == before[j - 1]);
                    if pos < before.len() {
                        assert(x.lt(before[pos as int]));
                        assert(!before[j - 1].lt(before[pos as int]) || j - 1 == pos);
                    }
                } else if i < pos && j > pos {
                    assert(out@[i] == before[i] && out@[j] == before[j - 1]);
                } else if j < pos {
                    assert(out@[i] == before[i] && out@[j] == before[j]);
                } else {
                    assert(out@[i] == before[i - 1] && out@[j] == before[j - 1]);
                }
            }
        }
        k += 1;
    }
    proof {
        assert(v@.subrange(0, n as int) == v@);
    }
    out
}

impl CidrSet {
    /// Whether the universal prefix was inserted.
    pub closed spec fn has_any(&self) -> bool {
        self.any
    }

    /// The stored family prefixes, in ascending order.
    pub closed spec fn family_entries(&self) -> Seq<CidrPrefix> {
        self.entries@
    }

    /// The stored family prefixes.
    pub open spec fn members(&self) -> Set<CidrPrefix> {
        self.family_entries().to_set()
    }

    /// The stored prefixes are canonical, and none is kept beside the
    /// universal prefix.
    pub open spec fn wf(&self) -> bool {
        &&& canonical_listing(self.family_entries())
        &&& self.has_any() ==> self.family_entries().len() == 0
    }

    /// Everything the set yields when walked: the universal prefix alone,
    /// if present, else the family prefixes in ascending order.
    pub open spec fn listing(&self) -> Seq<CidrPrefix> {
        if self.has_any() {
            seq![CidrPrefix::Any] + self.family_entries()
        } else {
            self.family_entries()
        }
    }

    /// Whether the address is matched by the set.
    pub open spec fn matches(&self, a: IpAddress) -> bool {
        self.has_any() || exists|p: CidrPrefix| self.members().contains(p) && #[trigger] p.holds(a)
    }

    /// The empty set.
    pub fn new() -> (r: CidrSet)
        ensures
            r.wf(),
            !r.has_any(),
            r.family_entries() == Seq::<CidrPrefix>::empty(),
    {
        CidrSet { any: false, entries: Vec::new() }
    }

    /// What the set holds: whether the universal prefix was inserted, and
    /// the stored family prefixes.
    pub open spec fn state(&self) -> (bool, Set<CidrPrefix>) {
        (self.has_any(), self.members())
    }

    /// Whether some stored prefix holds the address: a binary search for
    /// the last stored prefix that starts by the address. The stored
    /// prefixes of a family are disjoint, so there are at most 2^w of them
    /// for an address width w, and the search takes at most w + 1 steps.
    pub fn contains(&self, a: IpAddress) -> (r: bool)
        requires
            self.wf(),
        ensures
            r == self.matches(a),
    {
        if self.any {
            return true;
        }
        let n = self.entries.len();
        let ghost e = self.entries@;
        let mut lo: usize = 0;
        let mut hi: usize = n;
        while lo < hi
            invariant
                self.wf(),
                e == self.entries@,
                n == e.len(),
                lo <= hi <= n,
                forall|j: int| 0 <= j < lo ==> (#[trigger] e[j]).starts_by(a),
                forall|j: int| hi <= j < n ==> !(#[trigger] e[j]).starts_by(a),
            decreases hi - lo,
        {
            let mid = lo + (hi - lo) / 2;
            if self.entries[mid].starts_by_address(a) {
                proof {
                    assert forall|j: int| 0 <= j <= mid implies (#[trigger] e[j]).starts_by(a) by {
                        if j < mid {
                            assert(e[j].lt(e[mid as int]));
                        }
                    }
                }
                lo = mid + 1;
            } else {
                proof {
                    assert forall|j: int| mid <= j < n implies !(#[trigger] e[j]).starts_by(a) by {
                        if j > mid {
                            assert(e[mid as int].lt(e[j]));
                        }
                    }
                }
                hi = mid;
            }
        }
        // Only the last prefix that starts by the address can hold it.
        let r = lo > 0 && self.entries[lo - 1].holds_address(a);
        proof {
            if r {
                assert(self.members().contains(e[lo - 1]));
            } else {
                assert forall|p: CidrPrefix| self.members().contains(p) implies !#[trigger] p.holds(
                    a,
                ) by {
                    let j = choose|j: int| 0 <= j < n && e[j] == p;
                    if p.holds(a) {
                        lemma_holds_starts_by(p, a);
                        assert(j < lo);
                        assert(j != lo - 1);
                        lemma_nested_start(e[j], e[lo - 1], a);
                        assert(e[j].covers(e[lo - 1]));
                    }
                }
            }
        }
        r
    }

    /// Adds a prefix. A prefix covered by a stored one (or by the universal
    /// prefix) is dropped; one that covers stored prefixes replaces them.
    pub fn insert(&mut self, p: CidrPrefix)
        requires
            old(self).wf(),
            p.wf(),
        ensures
            final(self).wf(),
            final(self).state() == insert_state(old(self).state(), p),
            p is Any ==> final(self).has_any() && final(self).family_entries() == Seq::<
                CidrPrefix,
            >::empty(),
            old(self).has_any() ==> final(self).state() == old(self).state(),
    {
        if let CidrPrefix::Any = p {
            self.any = true;
            self.entries = Vec::new();
            proof {
                assert(self.members() =~= Set::<CidrPrefix>::empty());
            }
            return;
        }
        if self.any {
            return;
        }
        let n = self.entries.len();
        let mut i: usize = 0;
        while i < n
            invariant
                self.wf(),
                self.any == old(self).any,
                self.entries@ == old(self).entries@,
                n == self.entries@.len(),
                i <= n,
                forall|j: int| 0 <= j < i ==> !(#[trigger] self.entries@[j]).covers(p),
            decreases n - i,
        {
            if self.entries[i].covers_prefix(&p) {
                proof {
                    assert(self.members().contains(self.entries@[i as int]));
                }
                return;
            }
            i += 1;
        }
        let ghost old_entries = self.entries@;
        let mut out: Vec<CidrPrefix> = Vec::new();
        let mut placed = false;
        let mut k: usize = 0;
        while k < n
            invariant
                self.entries@ == old_entries,
                canonical_listing(old_entries),
                n == old_entries.len(),
                k <= n,
                p.wf(),
                !(p is Any),
                forall|j: int| 0 <= j < n ==> !(#[trigger] old_entries[j]).covers(p),
                placed <==> (k > 0 && p.lt(old_entries[k - 1])),
                forall|x: CidrPrefix|
                    #![trigger out@.contains(x)]
                    out@.contains(x) <==> ((old_entries.subrange(0, k as int).contains(x)
                        && !p.covers(x)) || (placed && x == p)),
                canonical_listing(out@),
                k < n ==> forall|i: int|
                    0 <= i < out@.len() ==> (#[trigger] out@[i]).lt(old_entries[k as int]),
                !placed ==> forall|i: int| 0 <= i < out@.len() ==> (#[trigger] out@[i]).lt(p),
            decreases n - k,
        {
            let e = self.entries[k];
            let ghost before = out@;
            if !placed && p.less(&e) {
                out.push(p);
                placed = true;
                proof {
                    assert(before.push(p) == out@);
                    assert forall|i: int| 0 <= i < before.len() implies !(#[trigger] before[i]).covers(p) && !p.covers(before[i]) by {
                        assert(before.contains(before[i]));
                        let j = choose|j: int| 0 <= j < k && old_entries.subrange(0, k as int)[j] == before[i];
                        assert(old_entries[j] == before[i]);
                    }
                    assert forall|x: CidrPrefix| #![trigger out@.contains(x)] out@.contains(x) <==> before.contains(x) || x == p by {
                        if out@.contains(x) {
                            let j = choose|j: int| 0 <= j < out@.len() && out@[j] == x;
                            if j < before.len() {
                                assert(before[j] == x);
                            }
                        }
                        if before.contains(x) {
                            let j = choose|j: int| 0 <= j < before.len() && before[j] == x;
                            assert(out@[j] == x);
                        }
                        if x == p {
                            assert(out@[before.len() as int] == x);
                        }
                    }
                }
            }
            let ghost mid = out@;
            if !p.covers_prefix(&e) {
                out.push(e);
                proof {
                    assert forall|i: int| 0 <= i < mid.len() implies !(#[trigger] mid[i]).covers(e) && !e.covers(mid[i]) by {
                        assert(mid.contains(mid[i]));
                        if mid[i] != p {
                            let j = choose|j: int| 0 <= j < k && old_entries.subrange(0, k as int)[j] == mid[i];
                            assert(old_entries[j] == mid[i]);
                        }
                    }
                    assert forall|x: CidrPrefix| #![trigger out@.contains(x)] out@.contains(x) <==> mid.contains(x) || x == e by {
                        if out@.contains(x) {
                            let j = choose|j: int| 0 <= j < out@.len() && out@[j] == x;
                            if j < mid.len() {
                                assert(mid[j] == x);
                            }
                        }
                        if mid.contains(x) {
                            let j = choose|j: int| 0 <= j < mid.len() && mid[j] == x;
                            assert(out@[j] == x);
                        }
                        if x == e {
                            assert(out@[mid.len() as int] == x);
                        }
                    }
                }
            }
            proof {
                let sub = old_entries.subrange(0, k as int);
                let sub1 = old_entries.subrange(0, k + 1);
                assert forall|x: CidrPrefix| sub1.contains(x) <==> sub.contains(x) || x == e by {
                    if sub1.contains(x) {
                        let j = choose|j: int| 0 <= j < sub1.len() && sub1[j] == x;
                        if j < k {
                            assert(sub[j] == x);
                        }
                    }
                    if sub.contains(x) {
                        let j = choose|j: int| 0 <= j < sub.len() && sub[j] == x;
                        assert(sub1[j] == x);
                    }
                    if x == e {
                        assert(sub1[k as int] == x);
                    }
                }
            }
            k += 1;
        }
        if !placed {
            let ghost before = out@;
            out.push(p);
            proof {
                assert forall|i: int| 0 <= i < before.len() implies !(#[trigger] before[i]).covers(p) && !p.covers(before[i]) by {
                    assert(before.contains(before[i]));
                    let j = choose|j: int| 0 <= j < n && old_entries.subrange(0, n as int)[j] == before[i];
                    assert(old_entries[j] == before[i]);
                }
                assert forall|x: CidrPrefix| #![trigger out@.contains(x)] out@.contains(x) <==> before.contains(x) || x == p by {
                    if out@.contains(x) {
                        let j = choose|j: int| 0 <= j < out@.len() && out@[j] == x;
                        if j < before.len() {
                            assert(before[j] == x);
                        }
                    }
                    if before.contains(x) {
                        let j = choose|j: int| 0 <= j < before.len() && before[j] == x;
                        assert(out@[j] == x);
                    }
                    if x == p {
                        assert(out@[before.len() as int] == x);
                    }
                }
            }
        }
        self.entries = out;
        proof {
            assert(old_entries.subrange(0, n as int) == old_entries);
            let s = old_entries.to_set();
            assert(!exists|e: CidrPrefix| s.contains(e) && #[trigger] e.covers(p)) by {
                if exists|e: CidrPrefix| s.contains(e) && #[trigger] e.covers(p) {
                    let e = choose|e: CidrPrefix| s.contains(e) && #[trigger] e.covers(p);
                    let j = choose|j: int| 0 <= j < n && old_entries[j] == e;
                }
            }
            assert(self.members() =~= s.filter(|e: CidrPrefix| !p.covers(e)).insert(p)) by {
                assert forall|x: CidrPrefix| #[trigger] self.members().contains(x) <==> s.filter(|e: CidrPrefix| !p.covers(e)).insert(p).contains(x) by {
                    assert(self.members().contains(x) <==> out@.contains(x));
                    assert(s.contains(x) <==> old_entries.contains(x));
                }
            }
        }
    }

    /// Inserts the prefixes in the order given.
    pub fn from_entries(v: Vec<CidrPrefix>) -> (r: CidrSet)
        requires
            forall|i: int| 0 <= i < v@.len() ==> (#[trigger] v@[i]).wf(),
        ensures
            r.wf(),
            r.state() == build(v@),
    {
        let mut set = CidrSet::new();
        let n = v.len();
        let mut i: usize = 0;
        proof {
            assert(v@.subrange(0, 0) =~= Seq::<CidrPrefix>::empty());
            assert(set.members() =~= Set::<CidrPrefix>::empty());
        }
        while i < n
            invariant
                n == v@.len(),
                i <= n,
                forall|j: int| 0 <= j < v@.len() ==> (#[trigger] v@[j]).wf(),
                set.wf(),
                set.state() == build(v@.subrange(0, i as int)),
            decreases n - i,
        {
            set.insert(v[i]);
            proof {
                assert(v@.subrange(0, i + 1).drop_last() == v@.subrange(0, i as int));
            }
            i += 1;
        }
        proof {
            assert(v@.subrange(0, n as int) == v@);
        }
        set
    }

    /// Sorts the prefixes, then inserts them, so that of overlapping
    /// prefixes the broader one comes first.
    pub fn from_array(v: Vec<CidrPrefix>) -> (r: CidrSet)
        requires
            forall|i: int| 0 <= i < v@.len() ==> (#[trigger] v@[i]).wf(),
        ensures
            r.wf(),
            exists|s: Seq<CidrPrefix>|
                s.to_multiset() == v@.to_multiset() && ascending(s) && r.state() == #[trigger] build(s),
    {
        broadcast use vstd::seq_lib::to_multiset_contains;

        let s = sort_prefixes(v);
        proof {
            assert forall|i: int| 0 <= i < s@.len() implies (#[trigger] s@[i]).wf() by {
                assert(s@.contains(s@[i]));
                assert(s@.to_multiset().count(s@[i]) > 0);
                assert(v@.contains(s@[i]));
            }
        }
        let r = CidrSet::from_entries(s);
        proof {
            assert(r.state() == build(s@));
        }
        r
    }

    /// The universal prefix, if present, then the family prefixes in
    /// ascending order.
    pub fn to_prefixes(&self) -> (r: Vec<CidrPrefix>)
        requires
            self.wf(),
        ensures
            r@ == self.listing(),
    {
        let mut r: Vec<CidrPrefix> = Vec::new();
        if self.any {
            r.push(CidrPrefix::Any);
        }
        let ghost head = r@;
        let n = self.entries.len();
        let mut i: usize = 0;
        while i < n
            invariant
                n == self.entries@.len(),
                i <= n,
                head == (if self.any { seq![CidrPrefix::Any] } else { Seq::<CidrPrefix>::empty() }),
                r@ == head + self.entries@.subrange(0, i as int),
            decreases n - i,
        {
            r.push(self.entries[i]);
            proof {
                assert(self.entries@.subrange(0, i + 1) == self.entries@.subrange(0, i as int).push(self.entries@[i as int]));
            }
            i += 1;
        }
        proof {
            assert(self.entries@.subrange(0, n as int) == self.entries@);
            if !self.any {
                assert(head + self.entries@ == self.entries@);
            }
        }
        r
    }

    /// One CIDR text per prefix of `to_prefixes`, in the same order.
    pub fn to_strings(&self) -> (r: Vec<String>)
        requires
            self.wf(),
        ensures
            r@.len() == self.listing().len(),
            forall|i: int|
                0 <= i < r@.len() ==> (#[trigger] r@[i])@ == cidr_text_of(self.listing()[i])
                    && cidr_parse_of(r@[i]@) is Ok && cidr_parse_of(r@[i]@)->Ok_0
                    == self.listing()[i],
    {
        let ps = self.to_prefixes();
        let mut r: Vec<String> = Vec::new();
        let n = ps.len();
        let mut i: usize = 0;
        while i < n
            invariant
                self.wf(),
                ps@ == self.listing(),
                n == ps@.len(),
                i <= n,
                r@.len() == i,
                forall|j: int|
                    0 <= j < i ==> (#[trigger] r@[j])@ == cidr_text_of(ps@[j]) && cidr_parse_of(
                        r@[j]@,
                    ) is Ok && cidr_parse_of(r@[j]@)->Ok_0 == ps@[j],
            decreases n - i,
        {
            proof {
                if !self.has_any() || i > 0 {
                    let k = if self.has_any() { i - 1 } else { i as int };
                    assert(ps@[i as int] == self.family_entries()[k]);
                }
            }
            let t = prefix_text(&ps[i]);
            r.push(t);
            i += 1;
        }
        r
    }

    /// Parses every text and inserts the prefixes in order. Fails when some
    /// text does not parse, with a message that names each such text and
    /// its reason.
    pub fn try_from_strings(v: Vec<String>) -> (r: Result<CidrSet, String>)
        ensures
            all_parse(string_texts(v@)) ==> r is Ok && r->Ok_0.wf() && r->Ok_0.state() == build(
                parsed(string_texts(v@)),
            ),
            !all_parse(string_texts(v@)) ==> r is Err && r->Err_0@ == problems_text(
                string_texts(v@),
            ),
    {
        let ghost texts = string_texts(v@);
        let mut set = CidrSet::new();
        let mut msg = String::new();
        let mut failed = false;
        let n = v.len();
        let mut i: usize = 0;
        proof {
            assert(texts.subrange(0, 0) =~= Seq::<Seq<char>>::empty());
            assert(parsed(texts.subrange(0, 0)) =~= Seq::<CidrPrefix>::empty());
            assert(set.members() =~= Set::<CidrPrefix>::empty());
        }
        while i < n
            invariant
                n == v@.len(),
                texts == string_texts(v@),
                i <= n,
                set.wf(),
                failed == !all_parse(texts.subrange(0, i as int)),
                msg@ == problems_text(texts.subrange(0, i as int)),
                !failed ==> set.state() == build(parsed(texts.subrange(0, i as int))),
            decreases n - i,
        {
            let entry = v[i].as_str();
            let ghost pre = texts.subrange(0, i as int);
            let ghost cur = texts.subrange(0, i + 1);
            proof {
                assert(cur.drop_last() == pre);
                assert(cur.last() == entry@);
                assert(parsed(cur).drop_last() == parsed(pre));
                assert(all_parse(cur) ==> all_parse(pre)) by {
                    if all_parse(cur) {
                        assert forall|j: int| 0 <= j < pre.len() implies (#[trigger] cidr_parse_of(pre[j])) is Ok by {
                            assert(pre[j] == cur[j]);
                        }
                    }
                }
            }
            match parse_cidr(entry) {
                Ok(p) => {
                    if !failed {
                        set.insert(p);
                    }
                    proof {
                        assert(cidr_parse_of(cur.last()) is Ok);
                        assert(problems_text(cur) == problems_text(pre));
                        if !failed {
                            assert forall|j: int| 0 <= j < cur.len() implies (#[trigger] cidr_parse_of(cur[j])) is Ok by {
                                if j < i {
                                    assert(cur[j] == pre[j]);
                                }
                            }
                        } else {
                            let j = choose|j: int| 0 <= j < pre.len() && !(#[trigger] cidr_parse_of(pre[j]) is Ok);
                            assert(cur[j] == pre[j]);
                        }
                    }
                },
                Err(e) => {
                    if failed {
                        msg.append(", ");
                    }
                    msg.append(entry);
                    msg.append(": ");
                    msg.append(e.as_str());
                    failed = true;
                    proof {
                        reveal_strlit(", ");
                        reveal_strlit(": ");
                        assert(!(cidr_parse_of(cur[i as int]) is Ok));
                        assert(cidr_parse_of(cur.last()) == Err::<CidrPrefix, Seq<char>>(e@));
                        let item = entry@ + seq![':', ' '] + e@;
                        assert(", "@ == seq![',', ' ']);
                        assert(": "@ == seq![':', ' ']);
                        if all_parse(pre) {
                            lemma_no_problems(pre);
                            assert(msg@ =~= item);
                        } else {
                            assert(msg@ =~= problems_text(pre) + seq![',', ' '] + item);
                        }
                        assert(msg@ == problems_text(cur));
                    }
                },
            }
            i += 1;
        }
        proof {
            assert(texts.subrange(0, n as int) == texts);
        }
        if failed {
            Err(msg)
        } else {
            Ok(set)
        }
    }

    /// `try_from_strings` on borrowed texts.
    pub fn try_from_strs(v: Vec<&str>) -> (r: Result<CidrSet, String>)
        ensures
            all_parse(str_texts(v@)) ==> r is Ok && r->Ok_0.wf() && r->Ok_0.state() == build(
                parsed(str_texts(v@)),
            ),
            !all_parse(str_texts(v@)) ==> r is Err && r->Err_0@ == problems_text(
                str_texts(v@),
            ),
    {
        let mut owned: Vec<String> = Vec::new();
        let n = v.len();
        let mut i: usize = 0;
        while i < n
            invariant
                n == v@.len(),
                i <= n,
                owned@.len() == i,
                string_texts(owned@) == str_texts(v@).subrange(0, i as int),
            decreases n - i,
        {
            let s = v[i].to_owned();
            let ghost prev = owned@;
            owned.push(s);
            proof {
                assert(s@ == v@[i as int]@);
                assert forall|j: int| 0 <= j <= i implies #[trigger] string_texts(owned@)[j]
                    == str_texts(v@).subrange(0, i + 1)[j] by {
                    if j < i {
                        assert(owned@[j] == prev[j]);
                        assert(string_texts(prev)[j] == str_texts(v@).subrange(0, i as int)[j]);
                    }
                }
                assert(string_texts(owned@) =~= str_texts(v@).subrange(0, i + 1));
            }
            i += 1;
        }
        proof {
            assert(str_texts(v@).subrange(0, n as int) == str_texts(v@));
        }
        CidrSet::try_from_strings(owned)
    }

    /// The IPv4 loopback host and the IPv6 loopback host.
    pub fn default_trusted_hosts() -> (r: CidrSet)
        ensures
            r.wf(),
            !r.has_any(),
            r.family_entries() == seq![
                CidrPrefix::V4 { addr: 0x7f00_0001u32, len: 32u8 },
                CidrPrefix::V6 { addr: 1u128, len: 128u8 },
            ],
            forall|a: IpAddress|
                #[trigger] r.matches(a) <==> (a == IpAddress::V4(0x7f00_0001u32) || a
                    == IpAddress::V6(1u128)),
    {
        let v4 = CidrPrefix::V4 { addr: 0x7f00_0001u32, len: 32u8 };
        let v6 = CidrPrefix::V6 { addr: 1u128, len: 128u8 };
        let r = CidrSet { any: false, entries: vec![v4, v6] };
        proof {
            assert(mask4(32) == 0xffff_ffffu32) by (bit_vector);
            assert(0x7f00_0001u32 & 0xffff_ffffu32 == 0x7f00_0001u32) by (bit_vector);
            assert(1u128 & 0xffff_ffff_ffff_ffff_ffff_ffff_ffff_ffffu128 == 1u128) by (bit_vector);
            assert(mask6(128) == 0xffff_ffff_ffff_ffff_ffff_ffff_ffff_ffffu128) by (bit_vector);
            assert(v4.wf() && v6.wf());
            lemma_two_entries(&r, v4, v6);
            assert forall|a: IpAddress| #[trigger] r.matches(a) <==> (a == IpAddress::V4(0x7f00_0001u32) || a == IpAddress::V6(1u128)) by {
                match a {
                    IpAddress::V4(x) => {
                        assert(x & 0xffff_ffffu32 == x) by (bit_vector);
                    },
                    IpAddress::V6(x) => {
                        assert(x & 0xffff_ffff_ffff_ffff_ffff_ffff_ffff_ffffu128 == x) by (bit_vector);
                    },
                }
                if a == IpAddress::V4(0x7f00_0001u32) {
                    assert(v4.holds(a));
                }
                if a == IpAddress::V6(1u128) {
                    assert(v6.holds(a));
                }
            }
        }
        r
    }

    /// The whole IPv4 loopback network and the IPv6 loopback host.
    pub fn default_prohibited_hosts() -> (r: CidrSet)
        ensures
            r.wf(),
            !r.has_any(),
            r.family_entries() == seq![
                CidrPrefix::V4 { addr: 0x7f00_0000u32, len: 8u8 },
                CidrPrefix::V6 { addr: 1u128, len: 128u8 },
            ],
            forall|a: IpAddress|
                #[trigger] r.matches(a) <==> (match a {
                    IpAddress::V4(x) => x & 0xff00_0000u32 == 0x7f00_0000u32,
                    IpAddress::V6(x) => x == 1u128,
                }),
    {
        let v4 = CidrPrefix::V4 { addr: 0x7f00_0000u32, len: 8u8 };
        let v6 = CidrPrefix::V6 { addr: 1u128, len: 128u8 };
        let r = CidrSet { any: false, entries: vec![v4, v6] };
        proof {
            assert(mask4(8) == 0xff00_0000u32) by (bit_vector);
            assert(mask6(128) == 0xffff_ffff_ffff_ffff_ffff_ffff_ffff_ffffu128) by (bit_vector);
            assert(0x7f00_0000u32 & 0xff00_0000u32 == 0x7f00_0000u32) by (bit_vector);
            assert(1u128 & 0xffff_ffff_ffff_ffff_ffff_ffff_ffff_ffffu128 == 1u128) by (bit_vector);
            assert(v4.wf() && v6.wf());
            lemma_two_entries(&r, v4, v6);
            assert forall|a: IpAddress| #[trigger] r.matches(a) <==> (match a {
                IpAddress::V4(x) => x & 0xff00_0000u32 == 0x7f00_0000u32,
                IpAddress::V6(x) => x == 1u128,
            }) by {
                match a {
                    IpAddress::V4(x) => {
                        if x & 0xff00_0000u32 == 0x7f00_0000u32 {
                            assert(v4.holds(a));
                        }
                    },
                    IpAddress::V6(x) => {
                        assert(x & 0xffff_ffff_ffff_ffff_ffff_ffff_ffff_ffffu128 == x) by (bit_vector);
                        if x == 1u128 {
                            assert(v6.holds(a));
                        }
                    },
                }
            }
        }
        r
    }
}

impl Default for CidrSet {
    fn default() -> (r: CidrSet)
        ensures
            r.wf(),
            !r.has_any(),
            r.family_entries() == Seq::<CidrPrefix>::empty(),
    {
        CidrSet::new()
    }
}

proof fn lemma_two_entries(r: &CidrSet, p: CidrPrefix, q: CidrPrefix)
    requires
        r.family_entries() == seq![p, q],
    ensures
        forall|x: CidrPrefix| #[trigger] r.members().contains(x) <==> x == p || x == q,
{
    let e = r.family_entries();
    assert forall|x: CidrPrefix| #[trigger] r.members().contains(x) <==> x == p || x == q by {
        if x == p {
            assert(e[0] == x);
        }
        if x == q {
            assert(e[1] == x);
        }
    }
}

} // verus!
