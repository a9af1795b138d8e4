use iplists::error::AppError;
use iplists::handlers::auth::{authorize, parse_users, request_token};
use iplists::utils::request::{bare_address, real_ip_remote_addr, unquote};

#[test]
fn users_file_is_read() {
    let users = parse_users("# comment\n\nalice:tok1\n bob : tok2 \r\n").unwrap();
    assert_eq!(users.len(), 2);
    assert_eq!(users.get("tok1"), Some(&"alice".to_string()));
    assert_eq!(users.get("tok2"), Some(&"bob".to_string()));
    assert_eq!(users.get("alice"), None);
}

#[test]
fn users_file_later_token_wins() {
    let users = parse_users("a:t\nb:t").unwrap();
    assert_eq!(users.get("t"), Some(&"b".to_string()));
}

#[test]
fn users_file_token_may_hold_colons() {
    let users = parse_users("a:t:u").unwrap();
    assert_eq!(users.get("t:u"), Some(&"a".to_string()));
}

#[test]
fn users_file_missing_token() {
    match parse_users("# c\nbob\n") {
        Err(AppError::ConfigError(m)) => assert_eq!(m, "Missing token on line 2"),
        _ => panic!("expected a config error"),
    }
}

#[test]
fn users_file_empty_field() {
    match parse_users("a:b\n:tok\n") {
        Err(AppError::ConfigError(m)) => assert_eq!(m, "Empty username or token on line 2"),
        _ => panic!("expected a config error"),
    }
    match parse_users("alice:  \n") {
        Err(AppError::ConfigError(m)) => assert_eq!(m, "Empty username or token on line 1"),
        _ => panic!("expected a config error"),
    }
}

#[test]
fn empty_users_file_has_no_users() {
    assert_eq!(parse_users("").unwrap().len(), 0);
}

#[test]
fn bearer_prefix_is_stripped() {
    assert_eq!(request_token("Bearer abc"), "abc");
    assert_eq!(request_token("abc"), "abc");
    assert_eq!(request_token("bearer abc"), "bearer abc");
}

#[test]
fn authorization_decisions() {
    let users = parse_users("alice:tok1").unwrap();
    assert!(authorize(false, None, &users).is_ok());
    assert!(authorize(true, Some(Some("Bearer tok1")), &users).is_ok());
    assert!(authorize(true, Some(Some("tok1")), &users).is_ok());
    match authorize(true, None, &users) {
        Err(AppError::Unauthorized(m)) => assert_eq!(m, "Missing Authorization header"),
        _ => panic!(),
    }
    match authorize(true, Some(None), &users) {
        Err(AppError::Unauthorized(m)) => assert_eq!(m, "Invalid Authorization header"),
        _ => panic!(),
    }
    match authorize(true, Some(Some("Bearer nope")), &users) {
        Err(AppError::Unauthorized(m)) => assert_eq!(m, "Invalid token"),
        _ => panic!(),
    }
}

#[test]
fn unquote_and_bare_address() {
    assert_eq!(unquote("  \"abc\" "), "abc");
    assert_eq!(unquote("abc"), "abc");
    assert_eq!(bare_address("1.2.3.4:80"), "1.2.3.4");
    assert_eq!(bare_address("1.2.3.4"), "1.2.3.4");
    assert_eq!(bare_address("[2001:db8::1]:443"), "2001:db8::1");
    assert_eq!(bare_address("[::1]"), "::1");
}

#[test]
fn forwarded_for_is_used_first() {
    let fwd = vec!["for=192.0.2.60;proto=http;by=203.0.113.43".to_string()];
    assert_eq!(real_ip_remote_addr(&fwd, Some("10.0.0.1")), Some("192.0.2.60".to_string()));
}

#[test]
fn forwarded_for_quoted_v6_with_port() {
    let fwd = vec!["proto=https, For=\"[2001:db8:cafe::17]:4711\"".to_string()];
    assert_eq!(real_ip_remote_addr(&fwd, None), Some("2001:db8:cafe::17".to_string()));
}

#[test]
fn forwarded_for_first_of_several_headers() {
    let fwd = vec!["proto=http".to_string(), "for=198.51.100.17:8080, for=10.0.0.2".to_string()];
    assert_eq!(real_ip_remote_addr(&fwd, None), Some("198.51.100.17".to_string()));
}

#[test]
fn x_forwarded_for_fallback() {
    let none: Vec<String> = Vec::new();
    assert_eq!(
        real_ip_remote_addr(&none, Some(" 203.0.113.195 , 70.41.3.18")),
        Some("203.0.113.195".to_string())
    );
    assert_eq!(real_ip_remote_addr(&none, Some("  , 70.41.3.18")), None);
    assert_eq!(real_ip_remote_addr(&none, None), None);
    let no_for = vec!["by=1.2.3.4".to_string()];
    assert_eq!(real_ip_remote_addr(&no_for, Some("5.6.7.8")), Some("5.6.7.8".to_string()));
}
