use iplists::blocklist::config::default_timeout;
use iplists::blocklist::fetch::{
    fetched_entries, parse_from_string, read_entries, validate_subnets, BlocklistRanges, UrlListOutcome,
};
use iplists::error::AppError;
use iplists::iptools::network::{IpNet, Ipv4Net, Ipv6Net};
use iplists::status::{ComponentStatus, StatusCode};

fn v4(v: &[&str]) -> Vec<Ipv4Net> {
    v.iter().map(|s| Ipv4Net::parse(s).unwrap()).collect()
}

fn v6(v: &[&str]) -> Vec<Ipv6Net> {
    v.iter().map(|s| Ipv6Net::parse(s).unwrap()).collect()
}

fn ranges(a: &[&str], b: &[&str]) -> BlocklistRanges<Ipv4Net, Ipv6Net> {
    BlocklistRanges { ipv4: v4(a), ipv6: v6(b) }
}

#[test]
fn parse_from_string_whitespace_and_separator() {
    assert_eq!(
        parse_from_string("1.1.1.1/32 2.2.2.0/24\n3.3.3.0/24\n", None),
        vec!["1.1.1.1/32", "2.2.2.0/24", "3.3.3.0/24"]
    );
    assert_eq!(parse_from_string("a, b ,c", Some(",")), vec!["a", "b", "c"]);
    assert_eq!(parse_from_string("a;;b", Some(";")), vec!["a", "", "b"]);
}

#[test]
fn fetched_body_is_trimmed_first() {
    assert_eq!(fetched_entries("\n1.1.1.0/24,2.2.2.0/24\n", Some(",")), vec!["1.1.1.0/24", "2.2.2.0/24"]);
}

#[test]
fn validate_keeps_parsable_networks() {
    let entries: Vec<String> = vec!["10.0.0.0/8".into(), "10.0.0.1/8".into(), "junk".into(), "2001:db8::/32".into()];
    let r: Vec<Ipv4Net> = validate_subnets(&entries);
    assert_eq!(r, v4(&["10.0.0.0/8"]));
    let any: Vec<IpNet> = validate_subnets(&entries);
    assert_eq!(any, vec![IpNet::parse("10.0.0.0/8").unwrap(), IpNet::parse("2001:db8::/32").unwrap()]);
}

#[test]
fn read_entries_of_a_file() {
    let r: Vec<Ipv6Net> = read_entries("2001:db8::/32\nfe80::1/64\n", None);
    assert_eq!(r, v6(&["2001:db8::/32"]));
}

#[test]
fn from_entries_per_family() {
    let a: Vec<String> = vec!["10.0.0.0/8".into()];
    let r: BlocklistRanges<Ipv4Net, Ipv6Net> = BlocklistRanges::from_entries(Some(&a), None);
    assert_eq!(r.ipv4, v4(&["10.0.0.0/8"]));
    assert!(r.ipv6.is_empty());
}

#[test]
fn merge_and_deduplicate() {
    let mut a = ranges(&["10.1.0.0/16"], &[]);
    a.merge(ranges(&["10.0.0.0/8"], &["2001:db8::/32"]));
    assert_eq!(a.ipv4, v4(&["10.1.0.0/16", "10.0.0.0/8"]));
    let d = a.deduplicate();
    assert_eq!(d.ipv4, v4(&["10.0.0.0/8"]));
    assert_eq!(d.ipv6, v6(&["2001:db8::/32"]));
}

#[test]
fn allowlist_is_subtracted() {
    let blocked = ranges(&["192.168.0.0/24", "8.8.8.8/32"], &["2001:db8::/32"]);
    let allowed = ranges(&["192.168.0.0/25", "8.8.8.8/32"], &["2001:db8::/33"]);
    let r = blocked.subtract_allowlist(allowed);
    assert_eq!(r.ipv4, v4(&["192.168.0.128/25"]));
    assert_eq!(r.ipv6, v6(&["2001:db8:8000::/33"]));
}

#[test]
fn default_timeout_is_ten_seconds() {
    assert_eq!(default_timeout(), 10_000);
}

#[test]
fn merged_all_good() {
    let mut status = ComponentStatus::default();
    let downloads = vec![UrlListOutcome::Downloaded { ranges: ranges(&["10.0.0.0/8"], &[]), saved: Ok(()) }];
    let r = BlocklistRanges::merged_blocklist_ranges(
        downloads,
        Ok(ranges(&["10.1.0.0/16", "11.0.0.0/8"], &[])),
        Ok(ranges(&["11.0.0.0/9"], &[])),
        &mut status,
    );
    assert_eq!(r.ipv4, v4(&["10.0.0.0/8", "11.128.0.0/9"]));
    assert_eq!(status.status.status_code, StatusCode::Okay);
    assert_eq!(status.status.message, "blocklist fetched successfully");
}

#[test]
fn merged_failed_download_uses_backup() {
    let mut status = ComponentStatus::default();
    let downloads = vec![
        UrlListOutcome::Failed {
            error: AppError::RequestError("timeout".to_string()),
            backup: Ok(ranges(&["1.0.0.0/8"], &[])),
        },
        UrlListOutcome::Downloaded { ranges: ranges(&["2.0.0.0/8"], &[]), saved: Ok(()) },
    ];
    let r = BlocklistRanges::merged_blocklist_ranges(downloads, Ok(ranges(&[], &[])), Ok(ranges(&[], &[])), &mut status);
    assert_eq!(r.ipv4, v4(&["1.0.0.0/8", "2.0.0.0/8"]));
    assert_eq!(status.status.status_code, StatusCode::Error);
    assert_eq!(status.status.message, "failed to download blocklist from: Request error: timeout");
    assert_eq!(status.status.status_meaning, "error");
}

#[test]
fn merged_save_failure_is_superseded_when_all_loaded() {
    let mut status = ComponentStatus::default();
    let downloads = vec![UrlListOutcome::Downloaded {
        ranges: ranges(&["2.0.0.0/8"], &[]),
        saved: Err(AppError::FileError("disk full".to_string())),
    }];
    let _ = BlocklistRanges::merged_blocklist_ranges(downloads, Ok(ranges(&[], &[])), Ok(ranges(&[], &[])), &mut status);
    assert_eq!(status.status.status_code, StatusCode::Okay);
}

#[test]
fn merged_custom_blocklist_failure_warns() {
    let mut status = ComponentStatus::default();
    let r = BlocklistRanges::merged_blocklist_ranges(
        vec![UrlListOutcome::Downloaded { ranges: ranges(&["2.0.0.0/8"], &[]), saved: Ok(()) }],
        Err(AppError::FileError("no folder".to_string())),
        Ok(ranges(&[], &[])),
        &mut status,
    );
    assert_eq!(r.ipv4, v4(&["2.0.0.0/8"]));
    assert_eq!(status.status.status_code, StatusCode::Warning);
    assert_eq!(status.status.message, "failed to load custom blocklist ranges: File error: no folder");
}

#[test]
fn merged_without_allowlist_is_deduplicated() {
    let mut status = ComponentStatus::default();
    let r = BlocklistRanges::merged_blocklist_ranges(
        vec![UrlListOutcome::Downloaded { ranges: ranges(&["2.1.0.0/16", "2.0.0.0/8"], &[]), saved: Ok(()) }],
        Ok(ranges(&[], &[])),
        Err(AppError::FileError("gone".to_string())),
        &mut status,
    );
    assert_eq!(r.ipv4, v4(&["2.0.0.0/8"]));
    assert_eq!(status.status.status_code, StatusCode::Warning);
    assert_eq!(status.status.message, "failed to load custom allowlist ranges: File error: gone");
}

#[test]
fn parsing_joined_entries_gives_them_back() {
    let entries = vec!["1.1.1.1/32".to_string(), "2.2.2.0/24".to_string(), "".to_string(), "3.3.3.0/24".to_string()];
    assert_eq!(parse_from_string(&entries.join(";"), Some(";")), entries);
}

#[test]
fn allowlist_leaves_maximal_pieces_in_order() {
    let blocked = ranges(&["10.0.0.0/24", "10.0.0.64/27", "172.16.0.0/30"], &[]);
    let allowed = ranges(&["10.0.0.0/26", "10.0.0.128/25", "172.16.0.1/32"], &[]);
    let r = blocked.subtract_allowlist(allowed);
    assert_eq!(r.ipv4, v4(&["10.0.0.64/26", "172.16.0.2/31", "172.16.0.0/32"]));
}

fn mixed(v: &[&str]) -> Vec<IpNet> {
    v.iter().map(|s| IpNet::parse(s).unwrap()).collect()
}

#[test]
fn allowlist_is_subtracted_from_mixed_families() {
    let blocked: BlocklistRanges<IpNet, IpNet> =
        BlocklistRanges { ipv4: mixed(&["10.0.0.0/8", "2001:db8::/32"]), ipv6: Vec::new() };
    let allowed: BlocklistRanges<IpNet, IpNet> =
        BlocklistRanges { ipv4: mixed(&["10.1.0.0/16", "2001:db8::/33"]), ipv6: Vec::new() };
    let r = blocked.subtract_allowlist(allowed);
    assert_eq!(
        r.ipv4,
        mixed(&[
            "10.128.0.0/9", "10.64.0.0/10", "10.32.0.0/11", "10.16.0.0/12", "10.8.0.0/13", "10.4.0.0/14",
            "10.2.0.0/15", "10.0.0.0/16", "2001:db8:8000::/33",
        ])
    );
}

#[test]
fn networks_whose_bits_overlap_across_families_are_merged_by_bits() {
    let blocked: BlocklistRanges<IpNet, IpNet> =
        BlocklistRanges { ipv4: mixed(&["0.0.0.0/0", "::/0"]), ipv6: Vec::new() };
    let r = blocked.subtract_allowlist(BlocklistRanges { ipv4: Vec::new(), ipv6: Vec::new() });
    assert_eq!(r.ipv4, mixed(&["0.0.0.0/0"]));
}
