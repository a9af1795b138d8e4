use iplists::iptools::iptrie::{build, deduplicate, IPTrie, TrieKey};
use iplists::iptools::network::{IpAddr, IpNet, ListNetwork};

fn net(s: &str) -> IpNet {
    IpNet::parse(s).unwrap()
}

fn subtract_all(trie: &IPTrie<IpNet>, a: &[&str]) -> Vec<IpNet> {
    let mut result = Vec::new();
    for s in a {
        result.extend(trie.subtract(&net(s)).unwrap());
    }
    result
}

#[test]
fn subtract_example_from_issue() {
    // A = {1.1.1.1, 8.8.8.8, 192.168.0.0/24}
    // B = {8.8.8.8, 192.168.0.0/25}
    // A - B = {1.1.1.1, 192.168.0.128/25}
    let b = build(vec![net("8.8.8.8/32"), net("192.168.0.0/25")]);
    let result = subtract_all(&b, &["1.1.1.1/32", "8.8.8.8/32", "192.168.0.0/24"]);
    assert_eq!(result, vec![net("1.1.1.1/32"), net("192.168.0.128/25")]);
}

#[test]
fn subtract_exact_match_is_covered() {
    let b = build(vec![net("192.168.0.0/24")]);
    assert!(subtract_all(&b, &["192.168.0.0/24"]).is_empty());
}

#[test]
fn subtract_supernet_covers() {
    let b = build(vec![net("192.168.0.0/24")]);
    assert!(subtract_all(&b, &["192.168.0.0/25", "192.168.0.200/32"]).is_empty());
}

#[test]
fn subtract_disjoint_keeps_whole() {
    let b = build(vec![net("192.168.0.0/24")]);
    assert_eq!(subtract_all(&b, &["10.0.0.0/8"]), vec![net("10.0.0.0/8")]);
}

#[test]
fn subtract_nested_splits() {
    // A has 192.168.0.0/24, B has the first /25 and the first half of the second.
    let b = build(vec![net("192.168.0.0/25"), net("192.168.0.128/26")]);
    assert_eq!(
        subtract_all(&b, &["192.168.0.0/24"]),
        vec![net("192.168.0.192/26")]
    );
}

#[test]
fn subtract_does_not_mutate_trie() {
    let b = build(vec![net("192.168.0.0/25")]);
    let first = subtract_all(&b, &["192.168.0.0/24"]);
    let second = subtract_all(&b, &["192.168.0.0/24"]);
    assert_eq!(first, second);
}

#[test]
fn insert_reports_covered_networks() {
    let mut t: IPTrie<IpNet> = IPTrie::new();
    assert!(t.insert(&net("10.0.0.0/8")));
    assert!(!t.insert(&net("10.1.0.0/16")));
    assert!(!t.insert(&net("10.0.0.0/8")));
    assert!(t.insert(&net("11.0.0.0/8")));
}

#[test]
fn insert_broader_network_replaces_narrower() {
    let mut t: IPTrie<IpNet> = IPTrie::new();
    assert!(t.insert(&net("10.1.0.0/16")));
    assert!(t.insert(&net("10.0.0.0/8")));
    let key = TrieKey::from_addr(IpAddr::V4(0x0a01_0203));
    assert_eq!(t.lookup(key), Some(&net("10.0.0.0/8")));
}

#[test]
fn lookup_finds_containing_network() {
    let t = build(vec![net("192.168.0.0/24"), net("2001:db8::/32")]);
    let inside = TrieKey::from_addr(IpAddr::V4(0xc0a8_0005));
    let outside = TrieKey::from_addr(IpAddr::V4(0xc0a8_0105));
    assert_eq!(t.lookup(inside), Some(&net("192.168.0.0/24")));
    assert_eq!(t.lookup(outside), None);
    let v6 = TrieKey::from_addr(IpAddr::V6(0x2001_0db8_0000_0000_0000_0000_0000_0001));
    assert_eq!(t.lookup(v6), Some(&net("2001:db8::/32")));
}

#[test]
fn lookup_keeps_families_apart() {
    // 0.0.0.0/0 must not answer for an IPv6 address.
    let t = build(vec![net("0.0.0.0/0")]);
    let v6 = TrieKey::from_addr(IpAddr::V6(1));
    assert_eq!(t.lookup(v6), None);
}

#[test]
fn deduplicate_drops_covered_networks() {
    let d = deduplicate(vec![
        net("192.168.1.0/24"),
        net("10.0.0.0/8"),
        net("192.168.0.0/16"),
        net("10.0.0.0/8"),
        net("172.16.0.0/12"),
    ]);
    assert_eq!(d, vec![net("10.0.0.0/8"), net("172.16.0.0/12"), net("192.168.0.0/16")]);
}

#[test]
fn deduplicate_orders_by_prefix_stably() {
    let d = deduplicate(vec![net("9.0.0.0/24"), net("8.0.0.0/8"), net("7.0.0.0/24")]);
    assert_eq!(d, vec![net("8.0.0.0/8"), net("9.0.0.0/24"), net("7.0.0.0/24")]);
}

#[test]
fn subtract_splits_around_a_host() {
    let b = build(vec![net("10.0.0.0/32")]);
    let r = subtract_all(&b, &["10.0.0.0/30"]);
    assert_eq!(r, vec![net("10.0.0.1/32"), net("10.0.0.2/31")]);
    let texts: Vec<String> = r.iter().map(|n| n.network_string()).collect();
    assert_eq!(texts, vec!["10.0.0.1/32".to_string(), "10.0.0.2/31".to_string()]);
}

#[test]
fn deduplicate_twice_changes_nothing() {
    let input: Vec<IpNet> = ["10.1.0.0/16", "10.0.0.0/8", "10.2.3.0/24", "192.168.0.0/24", "192.168.0.0/25", "172.16.0.0/12"]
        .iter()
        .map(|s| net(s))
        .collect();
    let once = deduplicate(input.clone());
    let twice = deduplicate(once.clone());
    assert_eq!(once, twice);
    let mut kept = build(once.clone());
    for x in &input {
        assert!(!kept.insert(x));
    }
}

#[test]
fn subtract_from_built_list_leaves_uncovered_hosts() {
    let trie = build(vec![net("10.0.0.0/25"), net("10.0.0.128/26"), net("10.0.0.0/26")]);
    let rest = trie.subtract(&net("10.0.0.0/24")).unwrap();
    assert_eq!(rest, vec![net("10.0.0.192/26")]);
}
