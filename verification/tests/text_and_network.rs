use iplists::iptools::network::{summarize_ranges, IpAddr, IpNet, Ipv4Net, Ipv6Net, ListNetwork, Splitable};
use iplists::text::{decimal, split_on, split_whitespace, strip_prefix, trim};
use iplists::error::AppError;

fn net(s: &str) -> IpNet {
    IpNet::parse(s).unwrap()
}

#[test]
fn split_on_keeps_empty_pieces() {
    assert_eq!(split_on("a,b,,c", ","), vec!["a", "b", "", "c"]);
    assert_eq!(split_on("abc", "x"), vec!["abc"]);
    assert_eq!(split_on("a::b", "::"), vec!["a", "b"]);
}

#[test]
fn split_on_empty_separator_splits_every_char() {
    assert_eq!(split_on("ab", ""), vec!["", "a", "b", ""]);
}

#[test]
fn trim_and_words() {
    assert_eq!(trim("  x y \t\n"), "x y");
    assert_eq!(trim(""), "");
    assert_eq!(split_whitespace(" a  b\nc\t"), vec!["a", "b", "c"]);
    assert!(split_whitespace("   ").is_empty());
}

#[test]
fn decimal_text() {
    assert_eq!(decimal(0), "0");
    assert_eq!(decimal(7), "7");
    assert_eq!(decimal(1234567890), "1234567890");
}

#[test]
fn strip_prefix_text() {
    assert_eq!(strip_prefix("Bearer abc", "Bearer "), Some("abc".to_string()));
    assert_eq!(strip_prefix("Bear", "Bearer "), None);
    assert_eq!(strip_prefix("abc", ""), Some("abc".to_string()));
}

#[test]
fn parse_networks() {
    let v4 = Ipv4Net::parse("192.168.1.0/24").unwrap();
    assert_eq!(v4.addr(), 0xc0a8_0100);
    assert_eq!(v4.prefix_len(), 24);
    assert!(Ipv4Net::parse("192.168.1.0/33").is_none());
    assert!(Ipv4Net::parse("192.168.1.0").is_none());
    assert!(Ipv4Net::parse("300.0.0.0/8").is_none());
    assert!(Ipv4Net::parse("junk").is_none());
    let v6 = Ipv6Net::parse("2001:db8::/32").unwrap();
    assert_eq!(v6.prefix_len(), 32);
    assert_eq!(v6.addr(), 0x2001_0db8_0000_0000_0000_0000_0000_0000);
    assert!(IpNet::parse("10.0.0.0/8").is_some());
    assert!(IpNet::parse("2001:db8::/129").is_none());
}

#[test]
fn network_text_and_host_bits() {
    let n = net("192.168.1.7/24");
    assert_eq!(n.network_string(), "192.168.1.7/24");
    assert!(!n.is_net());
    assert!(net("192.168.1.0/24").is_net());
    assert_eq!(net("2001:db8::/32").network_string(), "2001:db8::/32");
    assert!(net("2001:db8::/32").is_ipv6());
    assert!(net("10.0.0.0/8").is_ipv4());
    assert_eq!(net("10.0.0.0/8").network_prefix(), 8);
}

#[test]
fn split_halves() {
    let (a, b) = net("10.0.0.0/8").split().unwrap();
    assert_eq!(a, net("10.0.0.0/9"));
    assert_eq!(b, net("10.128.0.0/9"));
    let (c, d) = net("2001:db8::/32").split().unwrap();
    assert_eq!(c, net("2001:db8::/33"));
    assert_eq!(d, net("2001:db8:8000::/33"));
}

#[test]
fn split_single_host_fails() {
    match net("10.0.0.1/32").split() {
        Err(AppError::AddressManipulationError(m)) => assert_eq!(m, "invalid IP prefix length"),
        _ => panic!("a host cannot be split"),
    }
}

#[test]
fn address_texts() {
    assert_eq!(IpAddr::V4(0x0102_0304).network_string(), "1.2.3.4");
    assert_eq!(IpAddr::V6(1).network_string(), "::1");
    assert_eq!(IpAddr::V4(0).network_prefix(), 32);
    assert_eq!(IpAddr::V6(0).network_prefix(), 128);
}

#[test]
fn summarize_address_ranges() {
    let r = summarize_ranges(IpAddr::V4(0x0a00_0000), IpAddr::V4(0x0a00_00ff));
    assert_eq!(r, vec![net("10.0.0.0/24")]);
    let r = summarize_ranges(IpAddr::V4(0x0a00_0001), IpAddr::V4(0x0a00_0004));
    assert_eq!(r, vec![net("10.0.0.1/32"), net("10.0.0.2/31"), net("10.0.0.4/32")]);
    assert!(summarize_ranges(IpAddr::V4(1), IpAddr::V6(2)).is_empty());
}

#[test]
fn ipv4_text_reads_back() {
    for text in ["0.0.0.0/0", "10.0.0.0/8", "192.168.1.77/24", "255.255.255.255/32"] {
        let n = Ipv4Net::parse(text).unwrap();
        assert_eq!(n.network_string(), text);
        assert_eq!(Ipv4Net::parse(&n.network_string()), Some(n));
    }
}

#[test]
fn summarize_ipv6_range() {
    let r = summarize_ranges(IpAddr::V6(0), IpAddr::V6(0xff));
    assert_eq!(r, vec![net("::/120")]);
    let r = summarize_ranges(IpAddr::V6(1), IpAddr::V6(2));
    assert_eq!(r, vec![net("::1/128"), net("::2/128")]);
}

#[test]
fn summarize_takes_largest_aligned_blocks() {
    let r = summarize_ranges(IpAddr::V4(0x0a00_0001), IpAddr::V4(0x0a00_000a));
    assert_eq!(
        r,
        vec![net("10.0.0.1/32"), net("10.0.0.2/31"), net("10.0.0.4/30"), net("10.0.0.8/31"), net("10.0.0.10/32")]
    );
    assert_eq!(summarize_ranges(IpAddr::V4(0), IpAddr::V4(u32::MAX)), vec![net("0.0.0.0/0")]);
    assert!(summarize_ranges(IpAddr::V4(5), IpAddr::V4(4)).is_empty());
    assert_eq!(summarize_ranges(IpAddr::V6(0), IpAddr::V6(u128::MAX)), vec![net("::/0")]);
}
