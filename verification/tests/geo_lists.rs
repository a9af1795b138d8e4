use iplists::error::AppError;
use iplists::forms::iplist::{IpListFormByAsn, IpListFormByCountry};
use iplists::forms::IpVersion;
use iplists::handlers::iplist::{get_all_continents, get_ips_by_version, select_by_asn, select_by_location};
use iplists::iplist::formatter::OutputFormat;
use iplists::iplist::iprange::{concat_ranges, IpAsnRange, IpAsnRanges, IpLocationRange, IpLocationRanges, Location};
use iplists::iptools::iptrie::TrieKey;
use iplists::iptools::network::{IpAddr, IpNet};
use iplists::list::{list_load_error, prepare_locations, record_geo_update, IpLists};
use iplists::status::{AppStatus, StatusCode};

fn net(s: &str) -> IpNet {
    IpNet::parse(s).unwrap()
}

fn loc(id: &str, code: &str, continent: &str) -> Location {
    Location { id: id.to_string(), name: format!("name {id}"), code: code.to_string(), continent: continent.to_string() }
}

fn lr(n: &str, l: &Location) -> IpLocationRange {
    IpLocationRange { network: net(n), location: l.clone() }
}

fn asn(n: &str, a: u32) -> IpAsnRange {
    IpAsnRange { network: net(n), asn: a, isp: format!("isp{a}") }
}

fn nets_of_loc(v: &[IpLocationRange]) -> Vec<IpNet> {
    v.iter().map(|r| r.network).collect()
}

fn nets_of_asn(v: &[IpAsnRange]) -> Vec<IpNet> {
    v.iter().map(|r| r.network).collect()
}

fn sample_lists() -> IpLists {
    let de = loc("1", "DE", "Europe");
    let fr = loc("2", "FR", "Europe");
    let us = loc("3", "US", "North America");
    let ranges = vec![
        lr("10.1.0.0/16", &de),
        lr("10.0.0.0/8", &de),
        lr("2001:db8::/32", &fr),
        lr("20.0.0.0/8", &us),
        lr("30.0.0.0/8", &fr),
    ];
    let location_ranges = IpLocationRanges::new(vec![de, fr, us], ranges);
    let asn_ranges = IpAsnRanges::new(vec![
        asn("10.0.0.0/8", 1),
        asn("10.1.0.0/16", 2),
        asn("2001:db8::/32", 1),
        asn("20.0.0.0/8", 3),
    ]);
    IpLists { location_ranges, asn_ranges }
}

#[test]
fn asn_ranges_are_grouped_and_deduplicated() {
    let lists = sample_lists();
    let one = lists.get_by_asn(1).unwrap();
    assert_eq!(nets_of_asn(&one.ipv4), vec![net("10.0.0.0/8")]);
    assert_eq!(nets_of_asn(&one.ipv6), vec![net("2001:db8::/32")]);
    assert!(lists.asn_ranges.by_asn.get(&2).is_none());
    match lists.get_by_asn(2) {
        Err(AppError::NotFound(m)) => assert_eq!(m, "No ASN ranges found for ASN: 2"),
        _ => panic!("AS 2 is covered by AS 1"),
    }
    let key = TrieKey::from_addr(IpAddr::V4(0x1401_0101));
    assert_eq!(lists.asn_ranges.trie.ipv4.lookup(key).map(|r| r.asn), Some(3));
}

#[test]
fn location_ranges_are_grouped_by_country_and_continent() {
    let lists = sample_lists();
    let de = lists.get_by_country("DE").unwrap();
    assert_eq!(nets_of_loc(&de.ipv4), vec![net("10.0.0.0/8")]);
    assert!(de.ipv6.is_empty());
    let europe = lists.get_by_continent("Europe").unwrap();
    assert_eq!(nets_of_loc(&europe.ipv4), vec![net("10.0.0.0/8"), net("30.0.0.0/8")]);
    assert_eq!(nets_of_loc(&europe.ipv6), vec![net("2001:db8::/32")]);
    match lists.get_by_country("XX") {
        Err(AppError::NotFound(m)) => assert_eq!(m, "No location ranges found for country: XX"),
        _ => panic!(),
    }
    match lists.get_by_continent("Atlantis") {
        Err(AppError::NotFound(m)) => assert_eq!(m, "No location ranges found for continent: Atlantis"),
        _ => panic!(),
    }
    assert_eq!(lists.location_ranges.by_country.len(), 3);
    assert_eq!(lists.location_ranges.by_continent.len(), 2);
    assert_eq!(lists.location_ranges.locations.len(), 3);
}

#[test]
fn save_files_cover_each_group() {
    let lists = sample_lists();
    let files = lists.location_ranges.save_files("out");
    assert_eq!(files.len(), 6 * 5);
    assert_eq!(files[0].path, "out/gen/DE-ipv4.txt");
    assert_eq!(files[0].content, "10.0.0.0/8");
    assert_eq!(files[1].path, "out/gen/DE-ipv6.txt");
    assert_eq!(files[1].content, "");
    assert_eq!(files[2].path, "out/gen/DE.txt");
    assert_eq!(files[5].path, "out/gen/DE.nft");
    let continent_start = 6 * 3;
    assert_eq!(files[continent_start].path, "out/gen/Europe.txt");
    assert_eq!(files[continent_start].content, "10.0.0.0/8\n30.0.0.0/8\n2001:db8::/32");
    assert!(files[continent_start + 3].content.contains("set europe_ipv4"));
}

#[test]
fn select_by_location_prefers_continent() {
    let lists = sample_lists();
    let form = IpListFormByCountry {
        country: Some("US".to_string()),
        continent: Some("Europe".to_string()),
        format: OutputFormat::Text,
        version: Some(IpVersion::Ipv6),
    };
    let (v, name) = select_by_location(&lists, &form).unwrap();
    assert_eq!(nets_of_loc(&v), vec![net("2001:db8::/32")]);
    assert_eq!(name, Some("Europe".to_string()));
    let form = IpListFormByCountry { country: Some("US".to_string()), continent: None, format: OutputFormat::Text, version: None };
    let (v, name) = select_by_location(&lists, &form).unwrap();
    assert_eq!(nets_of_loc(&v), vec![net("20.0.0.0/8")]);
    assert_eq!(name, Some("US".to_string()));
}

#[test]
fn select_by_location_all() {
    let lists = sample_lists();
    let form = IpListFormByCountry { country: None, continent: None, format: OutputFormat::Json, version: None };
    let (v, name) = select_by_location(&lists, &form).unwrap();
    assert_eq!(name, None);
    assert_eq!(
        nets_of_loc(&v),
        vec![net("10.0.0.0/8"), net("30.0.0.0/8"), net("20.0.0.0/8"), net("2001:db8::/32")]
    );
}

#[test]
fn select_by_location_unknown_country() {
    let lists = sample_lists();
    let form = IpListFormByCountry { country: Some("XX".to_string()), continent: None, format: OutputFormat::Json, version: None };
    assert!(matches!(select_by_location(&lists, &form), Err(AppError::NotFound(_))));
}

#[test]
fn select_by_asn_one_and_all() {
    let lists = sample_lists();
    let form = IpListFormByAsn { asn: Some(1), format: OutputFormat::Text, version: None };
    let (v, name) = select_by_asn(&lists, &form).unwrap();
    assert_eq!(nets_of_asn(&v), vec![net("10.0.0.0/8"), net("2001:db8::/32")]);
    assert_eq!(name, Some("asn1".to_string()));
    let form = IpListFormByAsn { asn: None, format: OutputFormat::Text, version: Some(IpVersion::Ipv4) };
    let (v, name) = select_by_asn(&lists, &form).unwrap();
    assert_eq!(name, None);
    let mut got = nets_of_asn(&v);
    got.sort_by_key(|n| format!("{n:?}"));
    let mut want = vec![net("10.0.0.0/8"), net("20.0.0.0/8")];
    want.sort_by_key(|n| format!("{n:?}"));
    assert_eq!(got, want);
    let form = IpListFormByAsn { asn: Some(9), format: OutputFormat::Text, version: None };
    assert!(matches!(select_by_asn(&lists, &form), Err(AppError::NotFound(_))));
}

#[test]
fn ips_by_version() {
    let lists = sample_lists();
    let europe = lists.get_by_continent("Europe").unwrap();
    let mut form = IpListFormByCountry { country: None, continent: None, format: OutputFormat::Text, version: Some(IpVersion::Ipv4) };
    assert_eq!(nets_of_loc(&get_ips_by_version(europe, &form)), vec![net("10.0.0.0/8"), net("30.0.0.0/8")]);
    form.version = None;
    assert_eq!(get_ips_by_version(europe, &form).len(), 3);
}

#[test]
fn continents_in_first_order() {
    let locs = vec![loc("1", "DE", "Europe"), loc("3", "US", "North America"), loc("2", "FR", "Europe")];
    assert_eq!(get_all_continents(&locs), vec!["Europe".to_string(), "North America".to_string()]);
}

#[test]
fn prepared_locations_are_sorted_and_coded() {
    let locs = vec![loc("1", "FR", "Europe"), loc("2", "", "Antarctica"), loc("3", "DE", "Europe"), loc("4", "FR", "x")];
    let p = prepare_locations(locs);
    let ids: Vec<String> = p.iter().map(|l| l.id.clone()).collect();
    assert_eq!(ids, vec!["3", "1", "4"]);
}

#[test]
fn concat_copies_both() {
    let a = vec![net("1.0.0.0/8")];
    let b = vec![net("2.0.0.0/8")];
    assert_eq!(concat_ranges(&a, &b), vec![net("1.0.0.0/8"), net("2.0.0.0/8")]);
}

#[test]
fn list_load_error_message() {
    let e = list_load_error("ASNs", &AppError::FileError("x".to_string()));
    match e {
        AppError::ListLoadError(m) => assert_eq!(m, "Failed to load ASNs: File error: x"),
        _ => panic!(),
    }
}

#[test]
fn geo_update_status() {
    let mut status = AppStatus::default();
    record_geo_update(&mut status, &Ok(None), &Ok(()));
    assert_eq!(status.geo.status.status_code, StatusCode::Okay);
    assert_eq!(status.geo.status.message, "GEO index loaded successfully");
    assert_eq!(status.locations.status.message, "Locations loaded successfully");
    assert_eq!(status.asns.status.message, "ASNs loaded successfully");
    assert_eq!(status.geo.status.status_meaning, "ok");
    assert_eq!(status.locations.status.status_meaning, "ok");
    assert_eq!(status.asns.status.status_meaning, "ok");

    let mut status = AppStatus::default();
    let e = AppError::ListLoadError("Failed to load ASNs: boom".to_string());
    record_geo_update(&mut status, &Ok(Some(AppError::FileError("w".to_string()))), &Err(e));
    assert_eq!(status.locations.status.status_code, StatusCode::Okay);
    assert_eq!(status.asns.status.status_code, StatusCode::Error);
    assert_eq!(status.asns.status.message, "List load error: Failed to load ASNs: boom");
    assert_eq!(status.geo.status.status_code, StatusCode::Warning);
    assert_eq!(status.locations.status.status_meaning, "ok");
    assert_eq!(status.asns.status.status_meaning, "error");
    assert_eq!(status.geo.status.status_meaning, "warning");
    assert_eq!(status.geo.status.message, "ASNs not updated: List load error: Failed to load ASNs: boom");

    let mut status = AppStatus::default();
    let e = AppError::ListLoadError("x".to_string());
    record_geo_update(&mut status, &Err(e), &Ok(()));
    assert_eq!(status.locations.status.status_code, StatusCode::Error);
    assert_eq!(status.geo.status.message, "Locations not updated: List load error: x");
}
