use std::io::Write;

use iplists::config::{default_info, default_static_files, default_true, default_web_hostname};
use iplists::error::AppError;
use iplists::iplist::config::{default_max_age, default_timeout, BasicAuth};
use iplists::iplist::fetch::{duration_string, needs_download, padded_decimal, pick_member, Downloader, GeoData, Loader};
use iplists::iplist::iprange::Location;
use iplists::iplist::parse::join_locations;
use iplists::iptools::network::IpNet;
use iplists::models::iprange::CombinedIpRange;
use iplists::iptools::network::IpAddr;
use iplists::status::{local_time, AppStatus, ComponentStatus, Schedule, Status, StatusCode, UpdateStatus};

#[test]
fn durations_read_as_debug_does() {
    assert_eq!(duration_string(86_400_000), "86400s");
    assert_eq!(duration_string(10_000), "10s");
    assert_eq!(duration_string(10_500), "10.5s");
    assert_eq!(duration_string(1_050), "1.05s");
    assert_eq!(duration_string(1_005), "1.005s");
    assert_eq!(duration_string(500), "500ms");
    assert_eq!(duration_string(0), "0ns");
    assert_eq!(format!("{:?}", std::time::Duration::from_millis(1_050)), duration_string(1_050));
    assert_eq!(format!("{:?}", std::time::Duration::from_millis(86_400_000)), duration_string(86_400_000));
}

#[test]
fn padded_numbers() {
    assert_eq!(padded_decimal(7, 2), "07");
    assert_eq!(padded_decimal(2024, 4), "2024");
    assert_eq!(padded_decimal(123, 2), "123");
}

#[test]
fn download_uri_fills_the_date() {
    let headers: Vec<(String, String)> = Vec::new();
    let d = Downloader::new("https://x/db-{year}{month}{day}.zip", 1000, &headers, None);
    assert_eq!(d.download_uri(2024, 3, 7).unwrap(), "https://x/db-20240307.zip");
    assert_eq!(d.download_uri(-5, 12, 31).unwrap(), "https://x/db--0051231.zip");
    let bad = Downloader::new("https://x/{nope}", 1000, &headers, None);
    match bad.download_uri(2024, 1, 1) {
        Err(AppError::FmtError(m)) => assert_eq!(m, "KeyError(Invalid key: nope)"),
        _ => panic!("unknown variable"),
    }
    let auth = BasicAuth { username: "u".to_string(), password: "p".to_string() };
    let with_auth = Downloader::new("https://x", 5, &headers, Some(&auth));
    assert_eq!(with_auth.timeout, 5);
    assert!(with_auth.basic_auth.is_some());
}

#[test]
fn loader_path_and_age() {
    let l = Loader::new("data", "ip-asn.zip", 1000);
    assert_eq!(l.path(), "data/download/ip-asn.zip");
    assert!(l.check_age(5_000_000_000, 6_000_000_000).is_ok());
    match l.check_age(5_000_000_000, 6_000_000_001) {
        Err(AppError::DataFileLoadError(m)) => assert_eq!(m, "downloaded file is older than the max age: 1s"),
        _ => panic!("stale"),
    }
    let huge = Loader::new("d", "f", u64::MAX);
    assert!(huge.check_age(1, 2).is_ok());
    match l.check_age(u128::MAX - 1, u128::MAX) {
        Err(AppError::DataFileLoadError(m)) => assert_eq!(m, "could not increment time to compare downloaded file age"),
        _ => panic!("overflow"),
    }
    assert!(needs_download(&AppError::DataFileLoadError("x".to_string())));
    assert!(!needs_download(&AppError::FileError("x".to_string())));
}

#[test]
fn config_defaults() {
    assert_eq!(default_timeout(), 10_000);
    assert_eq!(default_max_age(), 86_400_000);
    assert_eq!(default_info(), "info");
    assert_eq!(default_static_files(), "static");
    assert_eq!(default_true(), Some(true));
    assert_eq!(default_web_hostname(), vec!["[::]:8000".to_string()]);
}

#[test]
fn member_is_picked_by_suffix() {
    let names = vec!["a/x.csv".to_string(), "b/Blocks.csv".to_string(), "c/Blocks.csv".to_string()];
    assert_eq!(pick_member(&names, "Blocks.csv"), "c/Blocks.csv");
    assert_eq!(pick_member(&names, "none.csv"), "");
}

fn archive(members: &[(&str, &str)]) -> Vec<u8> {
    let mut buf = std::io::Cursor::new(Vec::new());
    {
        let mut w = zip::ZipWriter::new(&mut buf);
        for (name, content) in members {
            w.start_file(*name, zip::write::SimpleFileOptions::default()).unwrap();
            w.write_all(content.as_bytes()).unwrap();
        }
        w.finish().unwrap();
    }
    buf.into_inner()
}

#[test]
fn archive_member_is_read() {
    let data = GeoData::new(archive(&[("db/Locations.csv", "id,code\n1,DE\n"), ("db/Other.csv", "x")]));
    assert_eq!(data.member("Locations.csv").unwrap(), b"id,code\n1,DE\n".to_vec());
    assert!(matches!(data.member("Missing.csv"), Err(AppError::FileError(_))));
    assert!(matches!(GeoData::new(b"not a zip".to_vec()).member("x"), Err(AppError::FileError(_))));
}

#[test]
fn rows_are_joined_with_locations() {
    let de = Location { id: "1".into(), name: "Germany".into(), code: "DE".into(), continent: "Europe".into() };
    let fr = Location { id: "2".into(), name: "France".into(), code: "FR".into(), continent: "Europe".into() };
    let rows = vec![
        ("2".to_string(), IpNet::parse("1.0.0.0/8").unwrap()),
        ("9".to_string(), IpNet::parse("2.0.0.0/8").unwrap()),
        ("1".to_string(), IpNet::parse("3.0.0.0/8").unwrap()),
    ];
    let r = join_locations(&rows, &vec![de, fr]);
    assert_eq!(r.len(), 2);
    assert_eq!(r[0].location.code, "FR");
    assert_eq!(r[1].location.code, "DE");
    assert_eq!(r[1].network, IpNet::parse("3.0.0.0/8").unwrap());
}

#[test]
fn combined_range() {
    let l = Location::default();
    let c = CombinedIpRange::new(IpAddr::V4(1), IpNet::parse("0.0.0.0/8").unwrap(), 7, "isp".to_string(), l);
    assert_eq!(c.asn, 7);
    assert_eq!(c.isp, "isp");
    assert_eq!(c.location.code, "");
}

#[test]
fn status_codes() {
    assert_eq!(StatusCode::Okay.meaning(), "ok");
    assert_eq!(StatusCode::Disaster.meaning(), "disaster");
    for c in [StatusCode::Okay, StatusCode::Warning, StatusCode::Error, StatusCode::Disaster] {
        assert_eq!(StatusCode::from_code(c.code()), Some(c));
    }
    assert_eq!(StatusCode::from_code(4), None);
    assert_eq!(StatusCode::Error.code(), 2);
}

#[test]
fn statuses() {
    let s = Status::warning("w".to_string());
    assert_eq!(s.status_meaning, "warning");
    assert_eq!(s.message, "w");
    let n = Status::never_updated();
    assert_eq!(n.status_code, StatusCode::Warning);
    assert_eq!(n.status_meaning, "never updated");
    assert_eq!(n.message, "list has never been updated");
    assert_eq!(Status::disaster("d".to_string()).status_code, StatusCode::Disaster);
    let mut c = ComponentStatus::default();
    c.error("e".to_string());
    assert_eq!(c.status.status_code, StatusCode::Error);
    assert!(UpdateStatus::default().last_update.is_none());
}

#[test]
fn worst_status_is_last_most_severe() {
    let mut a = AppStatus::default();
    a.asns.warning("asn".to_string());
    a.blocklist.warning("block".to_string());
    let w = a.worst();
    assert_eq!(w.status_code, StatusCode::Warning);
    assert_eq!(w.message, "block");
    a.iplist_error("down");
    assert_eq!(a.worst().message, "down");
    assert_eq!(a.geo.status.status_code, StatusCode::Error);
    a.iplist_ok("up");
    assert_eq!(a.locations.status.status_code, StatusCode::Okay);
    assert_eq!(a.blocklist.status.status_code, StatusCode::Error);
}

#[test]
fn schedules_need_seconds() {
    assert!(Schedule::new("0 0 * * * *", "0 30 2 * * *").is_ok());
    assert!(matches!(Schedule::build("0 * * * *"), Err(AppError::ParseError(_))));
    assert!(matches!(Schedule::new("nonsense", "0 0 * * * *"), Err(AppError::ParseError(_))));
    let s = Schedule::new("0 0 * * * *", "0 30 2 * * *").unwrap();
    assert!(s.get_next_run_blocklist().is_some());
    assert!(s.get_next_run_iplist().is_some());
}

#[test]
fn next_runs_fall_on_the_pattern_in_the_future() {
    let s = Schedule::new("0 0 * * * *", "0 30 2 * * *").unwrap();
    let now = time::OffsetDateTime::now_utc();
    let b = s.get_next_run_blocklist().unwrap();
    assert!(b > now);
    assert!(b - now <= time::Duration::hours(1));
    assert_eq!((b.minute(), b.second()), (0, 0));
    let i = s.get_next_run_iplist().unwrap();
    assert!(i > now);
    assert!(i - now <= time::Duration::days(1));
    assert_eq!((i.hour(), i.minute(), i.second()), (2, 30, 0));
}

#[test]
fn error_messages_and_codes() {
    let e = AppError::NotFound("x".to_string());
    assert_eq!(e.message(), "Not found: x");
    assert_eq!(e.status_code(), 404);
    assert_eq!(AppError::BadRequest("b".to_string()).status_code(), 400);
    assert_eq!(AppError::ParseError("p".to_string()).status_code(), 400);
    assert_eq!(AppError::Unauthorized("u".to_string()).status_code(), 401);
    assert_eq!(AppError::ConfigError("c".to_string()).status_code(), 500);
    assert_eq!(AppError::EnvVarError("v".to_string()).message(), "Could not load the env var: v");
    let g = AppError::Unauthorized("u".to_string()).into_generic();
    assert_eq!(g.code, 401);
}

#[test]
fn local_time_sees_the_instant_in_the_offset() {
    let t = local_time(3600, 7200).unwrap();
    assert_eq!(t.unix_timestamp(), 3600);
    assert_eq!(t.offset().whole_seconds(), 7200);
    assert_eq!((t.hour(), t.minute()), (3, 0));
    assert!(local_time(0, 93600).is_none());
    assert!(local_time(i64::MAX, 0).is_none());
}
