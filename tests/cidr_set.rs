use cidr_map::prefix::{CidrPrefix, IpAddress};
use cidr_map::set::CidrSet;
use cidr_map::text::parse_cidr;

fn ip(s: &str) -> IpAddress {
    IpAddress::parse(s).unwrap()
}

fn scenario() -> CidrSet {
    CidrSet::from_array(vec![
        parse_cidr("127.0.0.1").unwrap(),
        parse_cidr("::1").unwrap(),
        parse_cidr("192.168.1.0/24").unwrap(),
        // This entry is overlapped by the preceding entry
        parse_cidr("192.168.1.24").unwrap(),
        parse_cidr("192.168.3.0/28").unwrap(),
        parse_cidr("10.0.3.0/24").unwrap(),
        parse_cidr("10.0.4.0/24").unwrap(),
        parse_cidr("10.0.7.0/24").unwrap(),
    ])
}

#[test]
fn cidrset_any() {
    let empty_set = CidrSet::new();
    let set_with_any = CidrSet::from_array(vec![CidrPrefix::Any]);

    assert!(!empty_set.contains(ip("127.0.0.1")));
    assert!(set_with_any.contains(ip("127.0.0.1")));
}

#[test]
fn cidrset() {
    let set = scenario();

    assert!(set.contains(ip("127.0.0.1")));
    assert!(!set.contains(ip("127.0.0.2")));
    assert!(set.contains(ip("::1")));

    assert!(!set.contains(ip("192.168.2.1")));

    assert!(set.contains(ip("192.168.1.0")));
    assert!(set.contains(ip("192.168.1.1")));
    assert!(set.contains(ip("192.168.1.100")));
    assert!(set.contains(ip("192.168.1.24")));

    assert!(set.contains(ip("192.168.3.0")));
    assert!(!set.contains(ip("192.168.3.16")));

    // 192.168.1.24/32 overlaps the broader 192.168.1.0/24 and is not kept
    let decompose = set.to_prefixes();
    assert_eq!(
        decompose,
        vec![
            CidrPrefix::V4 { addr: 0x0a00_0300, len: 24 },
            CidrPrefix::V4 { addr: 0x0a00_0400, len: 24 },
            CidrPrefix::V4 { addr: 0x0a00_0700, len: 24 },
            CidrPrefix::V4 { addr: 0x7f00_0001, len: 32 },
            CidrPrefix::V4 { addr: 0xc0a8_0100, len: 24 },
            CidrPrefix::V4 { addr: 0xc0a8_0300, len: 28 },
            CidrPrefix::V6 { addr: 1, len: 128 },
        ]
    );
}

#[test]
fn serialized_scenario() {
    let set = scenario();
    assert_eq!(
        set.to_strings(),
        vec![
            "10.0.3.0/24",
            "10.0.4.0/24",
            "10.0.7.0/24",
            "127.0.0.1/32",
            "192.168.1.0/24",
            "192.168.3.0/28",
            "::1/128",
        ]
    );
}

#[test]
fn empty_set_matches_nothing() {
    let set = CidrSet::new();
    assert!(!set.contains(ip("0.0.0.0")));
    assert!(!set.contains(ip("::")));
    assert!(set.to_prefixes().is_empty());
}

#[test]
fn any_matches_every_family() {
    let mut set = CidrSet::new();
    set.insert(parse_cidr("10.0.0.0/8").unwrap());
    set.insert(CidrPrefix::Any);
    assert!(set.contains(ip("203.0.113.9")));
    assert!(set.contains(ip("2001:db8::1")));
    assert!(set.contains(ip("255.255.255.255")));
    // the universal prefix covers and replaces the stored prefix
    assert_eq!(set.to_strings(), vec!["any"]);
    assert_eq!(set.to_prefixes(), vec![CidrPrefix::Any]);
}

#[test]
fn narrower_after_broader_is_dropped() {
    let mut set = CidrSet::new();
    set.insert(parse_cidr("10.1.0.0/16").unwrap());
    let before = set.to_prefixes();
    set.insert(parse_cidr("10.1.2.0/24").unwrap());
    assert_eq!(set.to_prefixes(), before);
    assert!(set.contains(ip("10.1.2.77")));
}

#[test]
fn broader_after_narrower_replaces() {
    let mut set = CidrSet::new();
    set.insert(parse_cidr("10.1.2.0/24").unwrap());
    set.insert(parse_cidr("10.1.9.9").unwrap());
    set.insert(parse_cidr("10.2.0.0/16").unwrap());
    set.insert(parse_cidr("10.1.0.0/16").unwrap());
    assert_eq!(set.to_strings(), vec!["10.1.0.0/16", "10.2.0.0/16"]);
    assert!(set.contains(ip("10.1.200.1")));
    assert!(!set.contains(ip("10.3.0.1")));
}

#[test]
fn insert_twice_same_as_once() {
    let mut once = CidrSet::new();
    once.insert(parse_cidr("2001:db8::/32").unwrap());
    let mut twice = CidrSet::new();
    twice.insert(parse_cidr("2001:db8::/32").unwrap());
    twice.insert(parse_cidr("2001:db8::/32").unwrap());
    assert_eq!(once.to_prefixes(), twice.to_prefixes());
    assert_eq!(twice.to_strings(), vec!["2001:db8::/32"]);
}

#[test]
fn listing_ascending_whatever_the_order() {
    let set = CidrSet::from_entries(vec![
        parse_cidr("::1").unwrap(),
        parse_cidr("192.168.0.0/16").unwrap(),
        parse_cidr("10.0.0.0/8").unwrap(),
        parse_cidr("10.0.0.0").unwrap(),
        parse_cidr("172.16.0.0/12").unwrap(),
    ]);
    assert_eq!(
        set.to_strings(),
        vec!["10.0.0.0/8", "172.16.0.0/12", "192.168.0.0/16", "::1/128"]
    );
}

#[test]
fn round_trip_through_strings() {
    let set = CidrSet::try_from_strs(vec!["192.0.2.0/24", "2001:db8::/48", "10.9.8.7"]).unwrap();
    let texts = set.to_strings();
    assert_eq!(texts, vec!["10.9.8.7/32", "192.0.2.0/24", "2001:db8::/48"]);
    let again = CidrSet::try_from_strings(texts.clone()).unwrap();
    assert_eq!(again.to_prefixes(), set.to_prefixes());
    assert_eq!(again.to_strings(), texts);
}

#[test]
fn parse_errors_are_collected() {
    let err = CidrSet::try_from_strs(vec!["10.0.0.1", "bogus", "1.2.3.4/40", "::1"]).unwrap_err();
    assert!(err.starts_with("bogus: "), "{err}");
    assert!(err.contains(", 1.2.3.4/40: "), "{err}");
    assert!(!err.contains("10.0.0.1"), "{err}");
    assert!(!err.contains("::1"), "{err}");
}

#[test]
fn single_parse_error_has_no_separator() {
    let err = CidrSet::try_from_strings(vec!["300.1.1.1".to_string()]).unwrap_err();
    assert!(err.starts_with("300.1.1.1: "), "{err}");
    assert!(!err.contains(", "), "{err}");
}

#[test]
fn parse_clears_host_bits() {
    assert_eq!(
        parse_cidr("192.168.1.77/24").unwrap(),
        CidrPrefix::V4 { addr: 0xc0a8_0100, len: 24 }
    );
    assert_eq!(parse_cidr("::1").unwrap(), CidrPrefix::V6 { addr: 1, len: 128 });
    assert_eq!(parse_cidr("any").unwrap(), CidrPrefix::Any);
    assert!(parse_cidr("10.0.0.0/33").is_err());
}

#[test]
fn canonical_constructors() {
    assert_eq!(
        CidrPrefix::new_v4(0xc0a8_014d, 24),
        Some(CidrPrefix::V4 { addr: 0xc0a8_0100, len: 24 })
    );
    assert_eq!(CidrPrefix::new_v4(5, 0), Some(CidrPrefix::V4 { addr: 0, len: 0 }));
    assert_eq!(CidrPrefix::new_v4(1, 33), None);
    assert_eq!(
        CidrPrefix::new_v6(0x2001_0db8_0000_0000_0000_0000_0000_00ff, 32),
        Some(CidrPrefix::V6 { addr: 0x2001_0db8_0000_0000_0000_0000_0000_0000, len: 32 })
    );
    assert_eq!(CidrPrefix::new_v6(1, 129), None);
}

#[test]
fn address_parse() {
    assert_eq!(IpAddress::parse("127.0.0.1"), Some(IpAddress::V4(0x7f00_0001)));
    assert_eq!(IpAddress::parse("::1"), Some(IpAddress::V6(1)));
    assert_eq!(IpAddress::parse("10.0.0.0/8"), None);
    assert_eq!(IpAddress::parse("1.2.3.4/32"), None);
    assert_eq!(IpAddress::parse("nonsense"), None);
}

#[test]
fn default_trusted_hosts_preset() {
    let set = CidrSet::default_trusted_hosts();
    assert!(set.contains(ip("127.0.0.1")));
    assert!(set.contains(ip("::1")));
    assert!(!set.contains(ip("127.0.0.2")));
    assert!(!set.contains(ip("::2")));
    assert_eq!(set.to_strings(), vec!["127.0.0.1/32", "::1/128"]);
}

#[test]
fn default_prohibited_hosts_preset() {
    let set = CidrSet::default_prohibited_hosts();
    assert!(set.contains(ip("127.0.0.0")));
    assert!(set.contains(ip("127.0.0.2")));
    assert!(set.contains(ip("127.255.255.255")));
    assert!(set.contains(ip("::1")));
    assert!(!set.contains(ip("128.0.0.1")));
    assert_eq!(set.to_strings(), vec!["127.0.0.0/8", "::1/128"]);
}

#[test]
fn families_do_not_mix() {
    let set = CidrSet::try_from_strs(vec!["0.0.0.0/0"]).unwrap();
    assert!(set.contains(ip("8.8.8.8")));
    assert!(!set.contains(ip("::ffff:8.8.8.8")));
}

#[test]
fn sort_keeps_every_entry() {
    let sorted = cidr_map::set::sort_prefixes(vec![
        CidrPrefix::V6 { addr: 1, len: 128 },
        CidrPrefix::V4 { addr: 0x0a00_0000, len: 8 },
        CidrPrefix::Any,
        CidrPrefix::V4 { addr: 0x0a00_0000, len: 8 },
        CidrPrefix::V4 { addr: 0x0a00_0000, len: 7 },
    ]);
    assert_eq!(
        sorted,
        vec![
            CidrPrefix::Any,
            CidrPrefix::V4 { addr: 0x0a00_0000, len: 7 },
            CidrPrefix::V4 { addr: 0x0a00_0000, len: 8 },
            CidrPrefix::V4 { addr: 0x0a00_0000, len: 8 },
            CidrPrefix::V6 { addr: 1, len: 128 },
        ]
    );
}

#[test]
fn default_is_empty() {
    let set = CidrSet::default();
    assert!(set.to_prefixes().is_empty());
    assert!(!set.contains(ip("10.0.0.1")));
}

#[test]
fn lookup_picks_the_right_neighbour() {
    let set = CidrSet::try_from_strs(vec![
        "10.0.0.0/8",
        "11.0.0.0/16",
        "11.0.5.0/24",
        "11.1.0.0/16",
        "2001:db8::/32",
        "2001:db9::1",
    ])
    .unwrap();
    assert!(set.contains(ip("10.255.255.255")));
    assert!(set.contains(ip("11.0.200.1")));
    assert!(set.contains(ip("11.1.0.0")));
    assert!(!set.contains(ip("11.2.0.0")));
    assert!(!set.contains(ip("9.255.255.255")));
    assert!(set.contains(ip("2001:db8:ffff::1")));
    assert!(set.contains(ip("2001:db9::1")));
    assert!(!set.contains(ip("2001:db9::2")));
    assert!(!set.contains(ip("::")));
    assert_eq!(
        set.to_strings(),
        vec!["10.0.0.0/8", "11.0.0.0/16", "11.1.0.0/16", "2001:db8::/32", "2001:db9::1/128"]
    );
}

#[test]
fn prefixes_after_any_are_dropped() {
    let mut set = CidrSet::from_array(vec![CidrPrefix::Any]);
    set.insert(parse_cidr("10.0.0.0/8").unwrap());
    set.insert(parse_cidr("::1").unwrap());
    assert_eq!(set.to_prefixes(), vec![CidrPrefix::Any]);
    assert_eq!(set.to_strings(), vec!["any"]);
    assert!(set.contains(ip("::1")));
    assert!(set.contains(ip("192.0.2.1")));
}

#[test]
fn any_round_trips() {
    let set = CidrSet::try_from_strs(vec!["10.0.0.0/8", "any", "::1"]).unwrap();
    let texts = set.to_strings();
    assert_eq!(texts, vec!["any"]);
    let again = CidrSet::try_from_strings(texts).unwrap();
    assert_eq!(again, set);
}

#[test]
fn sets_compare_by_contents() {
    let a = CidrSet::from_entries(vec![
        parse_cidr("10.1.0.0/16").unwrap(),
        parse_cidr("10.0.0.0/8").unwrap(),
    ]);
    let b = CidrSet::from_entries(vec![parse_cidr("10.0.0.0/8").unwrap()]);
    assert_eq!(a, b);
    assert_ne!(a, CidrSet::new());
}
