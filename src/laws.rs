//! Properties of prefix sets that relate several operations.

use crate::prefix::{
    lemma_covers_holds, lemma_covers_trans, lemma_holds_starts_by, lemma_lt_total, lemma_nested_start,
    CidrPrefix, IpAddress,
};
use crate::set::{all_parse, build, canonical_listing, insert_result, insert_state, parsed, CidrSet};
use crate::text::cidr_parse_of;
use vstd::prelude::*;

verus! {

/// Whether the state `st` (universal flag, family prefixes) matches `a`.
pub open spec fn state_matches(st: (bool, Set<CidrPrefix>), a: IpAddress) -> bool {
    st.0 || exists|p: CidrPrefix| st.1.contains(p) && #[trigger] p.holds(a)
}

/// A set matches an address exactly when the universal prefix was inserted
/// or some prefix of its listing holds the address.
pub proof fn lemma_matches_iff_listed(s: &CidrSet, a: IpAddress)
    requires
        s.wf(),
    ensures
        s.matches(a) <==> s.has_any() || exists|i: int|
            0 <= i < s.listing().len() && #[trigger] s.listing()[i].holds(a),
        s.matches(a) == state_matches(s.state(), a),
{
    let l = s.listing();
    let e = s.family_entries();
    if s.matches(a) && !s.has_any() {
        let p = choose|p: CidrPrefix| s.members().contains(p) && #[trigger] p.holds(a);
        let j = choose|j: int| 0 <= j < e.len() && e[j] == p;
        assert(l[j].holds(a));
    }
    if !s.has_any() && exists|i: int| 0 <= i < l.len() && #[trigger] l[i].holds(a) {
        let i = choose|i: int| 0 <= i < l.len() && #[trigger] l[i].holds(a);
        assert(s.members().contains(e[i]));
    }
}

/// Once the universal prefix is inserted every address of either family
/// matches, whatever else the set holds.
pub proof fn lemma_any_matches_all(s: &CidrSet, a: IpAddress)
    requires
        s.has_any(),
    ensures
        s.matches(a),
        state_matches(s.state(), a),
{
}

/// Inserting a prefix covered by one inserted before leaves what the set
/// holds unchanged, and every address of the covered prefix still matches.
pub proof fn lemma_overlap_collapse(
    st: (bool, Set<CidrPrefix>),
    b: CidrPrefix,
    n: CidrPrefix,
    a: IpAddress,
)
    requires
        forall|e: CidrPrefix| st.1.contains(e) ==> e.wf(),
        b.wf(),
        n.wf(),
        b.covers(n),
    ensures
        insert_state(insert_state(st, b), n) == insert_state(st, b),
        n.holds(a) ==> state_matches(insert_state(st, b), a),
{
    if !(b is Any) && !st.0 {
        let s = st.1;
        let s1 = insert_result(s, b);
        let c = if exists|e: CidrPrefix| s.contains(e) && #[trigger] e.covers(b) {
            choose|e: CidrPrefix| s.contains(e) && #[trigger] e.covers(b)
        } else {
            b
        };
        assert(s1.contains(c) && c.covers(b));
        lemma_covers_trans(c, b, n);
        assert(s1.contains(c) && c.covers(n));
        if n.holds(a) {
            lemma_covers_holds(c, n, a);
        }
    }
}

/// Inserting the same prefix twice gives what inserting it once does.
pub proof fn lemma_insert_idempotent(st: (bool, Set<CidrPrefix>), p: CidrPrefix)
    requires
        p.wf(),
    ensures
        insert_state(insert_state(st, p), p) == insert_state(st, p),
{
    if !(p is Any) && !st.0 {
        let s = st.1;
        let s1 = insert_result(s, p);
        if exists|e: CidrPrefix| s.contains(e) && #[trigger] e.covers(p) {
            let e = choose|e: CidrPrefix| s.contains(e) && #[trigger] e.covers(p);
            assert(s1.contains(e));
        } else {
            assert(s1.contains(p) && p.covers(p));
        }
    }
}

/// No two prefixes of the listing overlap: none covers another, and no
/// address lies in two of them.
pub proof fn lemma_listing_disjoint(s: &CidrSet, a: IpAddress)
    requires
        s.wf(),
    ensures
        forall|i: int, j: int|
            0 <= i < s.listing().len() && 0 <= j < s.listing().len() && i != j ==> !(
            #[trigger] s.listing()[i]).covers(#[trigger] s.listing()[j]),
        forall|i: int, j: int|
            0 <= i < j < s.listing().len() ==> !((#[trigger] s.listing()[i]).holds(a) && (
            #[trigger] s.listing()[j]).holds(a)),
{
    let l = s.listing();
    if !s.has_any() {
        assert forall|i: int, j: int| 0 <= i < j < l.len() implies !((#[trigger] l[i]).holds(a) && (#[trigger] l[j]).holds(a)) by {
            if l[i].holds(a) && l[j].holds(a) {
                lemma_holds_starts_by(l[j], a);
                lemma_nested_start(l[i], l[j], a);
            }
        }
    }
}

/// The listing is in strictly ascending order.
pub proof fn lemma_listing_ascending(s: &CidrSet)
    requires
        s.wf(),
    ensures
        forall|i: int, j: int|
            0 <= i < j < s.listing().len() ==> (#[trigger] s.listing()[i]).lt(
                #[trigger] s.listing()[j],
            ),
{
    let l = s.listing();
    let e = s.family_entries();
    assert forall|i: int, j: int| 0 <= i < j < l.len() implies (#[trigger] l[i]).lt(#[trigger] l[j]) by {
        if s.has_any() {
            if i > 0 {
                assert(l[i] == e[i - 1] && l[j] == e[j - 1]);
            } else {
                assert(l[j] == e[j - 1]);
                assert(!(e[j - 1] is Any));
            }
        } else {
            assert(l[i] == e[i] && l[j] == e[j]);
        }
    }
}

proof fn lemma_strict_unique(s: Seq<CidrPrefix>, t: Seq<CidrPrefix>)
    requires
        forall|i: int, j: int| 0 <= i < j < s.len() ==> (#[trigger] s[i]).lt(#[trigger] s[j]),
        forall|i: int, j: int| 0 <= i < j < t.len() ==> (#[trigger] t[i]).lt(#[trigger] t[j]),
        s.to_set() == t.to_set(),
    ensures
        s == t,
    decreases s.len(),
{
    if s.len() == 0 {
        if t.len() > 0 {
            assert(t.to_set().contains(t[0]));
        }
        assert(s =~= t);
    } else if t.len() == 0 {
        assert(s.to_set().contains(s[0]));
    } else {
        assert(s.to_set().contains(s[0]));
        assert(t.to_set().contains(t[0]));
        let j = choose|j: int| 0 <= j < t.len() && t[j] == s[0];
        let k = choose|k: int| 0 <= k < s.len() && s[k] == t[0];
        if j > 0 {
            assert(t[0].lt(t[j]));
            if k > 0 {
                assert(s[0].lt(s[k]));
            }
            lemma_lt_total(s[0], t[0]);
        }
        assert(s[0] == t[0]);
        let s1 = s.drop_first();
        let t1 = t.drop_first();
        assert forall|x: CidrPrefix| s1.to_set().contains(x) <==> t1.to_set().contains(x) by {
            if s1.to_set().contains(x) {
                let i = choose|i: int| 0 <= i < s1.len() && s1[i] == x;
                assert(s[i + 1] == x);
                assert(s[0].lt(s[i + 1]));
                lemma_lt_total(x, x);
                assert(t.to_set().contains(x));
                let m = choose|m: int| 0 <= m < t.len() && t[m] == x;
                assert(m != 0);
                assert(t1[m - 1] == x);
            }
            if t1.to_set().contains(x) {
                let i = choose|i: int| 0 <= i < t1.len() && t1[i] == x;
                assert(t[i + 1] == x);
                assert(t[0].lt(t[i + 1]));
                lemma_lt_total(x, x);
                assert(s.to_set().contains(x));
                let m = choose|m: int| 0 <= m < s.len() && s[m] == x;
                assert(m != 0);
                assert(s1[m - 1] == x);
            }
        }
        assert(s1.to_set() =~= t1.to_set());
        lemma_strict_unique(s1, t1);
        assert forall|i: int| 0 <= i < s.len() implies s[i] == t[i] by {
            if i > 0 {
                assert(s[i] == s1[i - 1] && t[i] == t1[i - 1]);
            }
        }
        assert(s =~= t);
    }
}

/// Two sets that hold the same prefixes list them identically: the
/// listing depends on the contents alone, not on the order of insertion.
pub proof fn lemma_listing_determined(s: &CidrSet, t: &CidrSet)
    requires
        s.wf(),
        t.wf(),
        s.state() == t.state(),
    ensures
        s.listing() == t.listing(),
{
    lemma_strict_unique(s.family_entries(), t.family_entries());
}

proof fn lemma_build_listing(head: Seq<CidrPrefix>, es: Seq<CidrPrefix>, i: int)
    requires
        head == Seq::<CidrPrefix>::empty() || (head == seq![CidrPrefix::Any] && es.len() == 0),
        canonical_listing(es),
        0 <= i <= es.len(),
    ensures
        build(head + es.subrange(0, i)) == (head.len() == 1, es.subrange(0, i).to_set()),
    decreases i,
{
    let ps = head + es.subrange(0, i);
    if i == 0 {
        assert(ps == head);
        assert(es.subrange(0, 0).to_set() =~= Set::<CidrPrefix>::empty());
        if head.len() == 1 {
            assert(ps.drop_last() =~= Seq::<CidrPrefix>::empty());
            reveal_with_fuel(build, 2);
        }
    } else {
        lemma_build_listing(head, es, i - 1);
        assert(ps.drop_last() =~= head + es.subrange(0, i - 1));
        let p = es[i - 1];
        assert(ps.last() == p);
        assert(!(p is Any) && p.wf());
        let pre = es.subrange(0, i - 1);
        let cur = es.subrange(0, i);
        let prev = pre.to_set();
        assert(!exists|e: CidrPrefix| prev.contains(e) && #[trigger] e.covers(p)) by {
            if exists|e: CidrPrefix| prev.contains(e) && #[trigger] e.covers(p) {
                let e = choose|e: CidrPrefix| prev.contains(e) && #[trigger] e.covers(p);
                let j = choose|j: int| 0 <= j < i - 1 && pre[j] == e;
                assert(es[j] == e);
            }
        }
        assert(prev.filter(|e: CidrPrefix| !p.covers(e)).insert(p) =~= cur.to_set()) by {
            assert forall|x: CidrPrefix| prev.contains(x) implies !p.covers(x) by {
                let j = choose|j: int| 0 <= j < i - 1 && pre[j] == x;
                assert(es[j] == x);
            }
            assert forall|x: CidrPrefix| #[trigger] cur.to_set().contains(x) <==> prev.contains(x) || x == p by {
                if cur.to_set().contains(x) {
                    let j = choose|j: int| 0 <= j < i && cur[j] == x;
                    if j < i - 1 {
                        assert(pre[j] == x);
                    }
                }
                if prev.contains(x) {
                    let j = choose|j: int| 0 <= j < i - 1 && pre[j] == x;
                    assert(cur[j] == x);
                }
                if x == p {
                    assert(cur[i - 1] == x);
                }
            }
        }
        assert(build(ps) == insert_state(build(ps.drop_last()), p));
    }
}

/// Writing a set as texts and reading them back gives the same set: every
/// text parses, and inserting the parsed prefixes in order restores the
/// universal flag and the stored prefixes.
pub proof fn lemma_round_trip(s: &CidrSet, texts: Seq<Seq<char>>)
    requires
        s.wf(),
        texts.len() == s.listing().len(),
        forall|i: int|
            0 <= i < texts.len() ==> (#[trigger] cidr_parse_of(texts[i])) is Ok && cidr_parse_of(
                texts[i],
            )->Ok_0 == s.listing()[i],
    ensures
        all_parse(texts),
        build(parsed(texts)) == s.state(),
{
    assert(parsed(texts) =~= s.listing());
    let es = s.family_entries();
    let head = if s.has_any() { seq![CidrPrefix::Any] } else { Seq::<CidrPrefix>::empty() };
    lemma_build_listing(head, es, es.len() as int);
    assert(es.subrange(0, es.len() as int) == es);
    assert(head + es == s.listing());
}

} // verus!
