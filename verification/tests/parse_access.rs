use mgi_pulse::engine::parse::ParseStats;
use mgi_pulse::engine::parse_access::{looks_like_access, project_field, ts_and_level};
use mgi_pulse::engine::record::severity;
use mgi_pulse::engine::record::TS_UNTIMED;

#[test]
fn parses_common_log_format() {
    let mut stats = ParseStats::default();
    let line = br#"1.2.3.4 - - [01/Jun/2026:12:00:00 +0000] "GET /api HTTP/1.1" 200 1234"#;
    let (ts, sev) = ts_and_level(line, &mut stats, None);
    assert!(ts > 0);
    assert_eq!(sev, severity::INFO);
    assert_eq!(stats.untimed, 0);
}

#[test]
fn parses_combined_log_format() {
    let mut stats = ParseStats::default();
    let line = br#"1.2.3.4 - - [01/Jun/2026:12:00:01 +0000] "POST /login HTTP/1.1" 401 89 "-" "curl/8.0""#;
    let (ts, sev) = ts_and_level(line, &mut stats, None);
    assert!(ts > 0);
    assert_eq!(sev, severity::WARN);
    assert_eq!(stats.untimed, 0);
}

#[test]
fn status_5xx_maps_to_error() {
    let mut stats = ParseStats::default();
    let line = br#"10.0.0.1 - - [01/Jun/2026:12:00:00 +0000] "GET / HTTP/1.1" 502 0"#;
    let (_, sev) = ts_and_level(line, &mut stats, None);
    assert_eq!(sev, severity::ERROR);
}

#[test]
fn parse_access_malformed_increments_parse_errors() {
    let mut stats = ParseStats::default();
    let line = b"this is not access log";
    let (ts, sev) = ts_and_level(line, &mut stats, None);
    assert_eq!(ts, TS_UNTIMED);
    assert_eq!(sev, severity::UNKNOWN);
    assert_eq!(stats.json_parse_errors, 1);
}

#[test]
fn projects_ip_status_bytes() {
    let line = br#"1.2.3.4 - admin [01/Jun/2026:12:00:00 +0000] "GET /api HTTP/1.1" 200 1234"#;
    assert_eq!(project_field(line, "ip").as_deref(), Some("1.2.3.4"));
    assert_eq!(project_field(line, "host").as_deref(), Some("1.2.3.4"));
    assert_eq!(project_field(line, "user").as_deref(), Some("admin"));
    assert_eq!(project_field(line, "status").as_deref(), Some("200"));
    assert_eq!(project_field(line, "bytes").as_deref(), Some("1234"));
}

#[test]
fn nilvalue_bytes_becomes_none() {
    let line = br#"1.2.3.4 - - [01/Jun/2026:12:00:00 +0000] "GET / HTTP/1.1" 304 -"#;
    assert!(project_field(line, "bytes").is_none());
}

#[test]
fn projects_method_uri_protocol() {
    let line = br#"1.2.3.4 - - [01/Jun/2026:12:00:00 +0000] "POST /api/v1/users HTTP/2" 201 0"#;
    assert_eq!(project_field(line, "method").as_deref(), Some("POST"));
    assert_eq!(
        project_field(line, "uri").as_deref(),
        Some("/api/v1/users")
    );
    assert_eq!(project_field(line, "protocol").as_deref(), Some("HTTP/2"));
}

#[test]
fn projects_referer_and_user_agent_on_combined() {
    let line = br#"1.2.3.4 - - [01/Jun/2026:12:00:00 +0000] "GET / HTTP/1.1" 200 5 "https://e.x/" "curl/8.0""#;
    assert_eq!(
        project_field(line, "referer").as_deref(),
        Some("https://e.x/")
    );
    assert_eq!(
        project_field(line, "user_agent").as_deref(),
        Some("curl/8.0")
    );
}

#[test]
fn referer_user_agent_absent_on_clf() {
    let line = br#"1.2.3.4 - - [01/Jun/2026:12:00:00 +0000] "GET / HTTP/1.1" 200 5"#;
    assert!(project_field(line, "referer").is_none());
    assert!(project_field(line, "user_agent").is_none());
}

#[test]
fn projects_synthetic_level() {
    let line = br#"1.2.3.4 - - [01/Jun/2026:12:00:00 +0000] "GET / HTTP/1.1" 500 0"#;
    assert_eq!(project_field(line, "level").as_deref(), Some("error"));
    let warn = br#"1.2.3.4 - - [01/Jun/2026:12:00:00 +0000] "GET / HTTP/1.1" 404 0"#;
    assert_eq!(project_field(warn, "level").as_deref(), Some("warn"));
    let info = br#"1.2.3.4 - - [01/Jun/2026:12:00:00 +0000] "GET / HTTP/1.1" 301 0"#;
    assert_eq!(project_field(info, "level").as_deref(), Some("info"));
}

#[test]
fn looks_like_access_matches_clf() {
    assert!(looks_like_access(
        br#"1.2.3.4 - - [01/Jun/2026:12:00:00 +0000] "GET / HTTP/1.1" 200 5"#
    ));
}

#[test]
fn looks_like_access_rejects_json() {
    assert!(!looks_like_access(br#"{"a":1,"b":2}"#));
}

#[test]
fn looks_like_access_rejects_syslog() {
    assert!(!looks_like_access(
        b"<134>1 2026-06-01T12:00:00Z host app 1 - - hi"
    ));
}

#[test]
fn escaped_quote_inside_request() {
    // mod_log_config emits \" inside the request when the URL
    // contains a literal quote. We dequote correctly.
    let line = br#"1.2.3.4 - - [01/Jun/2026:12:00:00 +0000] "GET /a\"b HTTP/1.1" 200 5"#;
    assert_eq!(
        project_field(line, "request").as_deref(),
        Some(r#"GET /a"b HTTP/1.1"#)
    );
}
