use httpstress::cli::{parse_key_val, parse_strict_duration};
use httpstress::control::plan_request;
use httpstress::outcome::{classify_outcome, parse_content_length, Outcome, RequestResult};
use httpstress::url::{parse_url, UrlError};

#[test]
fn duration_seconds() {
    let d = parse_strict_duration("30s").unwrap();
    assert_eq!(d.nanos, 30_000_000_000);
}

#[test]
fn duration_milliseconds() {
    let d = parse_strict_duration("5ms").unwrap();
    assert_eq!(d.nanos, 5_000_000);
}

#[test]
fn duration_minutes() {
    let d = parse_strict_duration("10m").unwrap();
    assert_eq!(d.nanos, 600_000_000_000);
}

#[test]
fn duration_days() {
    let d = parse_strict_duration("2d").unwrap();
    assert_eq!(d.nanos, 172_800_000_000_000);
}

#[test]
fn duration_without_unit_is_rejected() {
    let e = parse_strict_duration("30").unwrap_err();
    assert_eq!(e, "Invalid format. Must include a unit (e.g., 30s, 10m).");
    let e = parse_strict_duration("").unwrap_err();
    assert_eq!(e, "Invalid format. Must include a unit (e.g., 30s, 10m).");
}

#[test]
fn duration_without_number_is_rejected() {
    let e = parse_strict_duration("s").unwrap_err();
    assert_eq!(e, "Invalid number: ''");
}

#[test]
fn duration_beyond_u64_is_rejected() {
    // One past u64::MAX.
    let e = parse_strict_duration("18446744073709551616s").unwrap_err();
    assert_eq!(e, "Invalid number: '18446744073709551616'");
    let d = parse_strict_duration("18446744073709551615s").unwrap();
    assert_eq!(d.nanos, 18_446_744_073_709_551_615u128 * 1_000_000_000);
}

#[test]
fn duration_with_unknown_unit_is_rejected() {
    let e = parse_strict_duration("30h").unwrap_err();
    assert_eq!(e, "Unsupported time unit: 'h'. Use 's', 'ms', 'm', or 'd'.");
}

#[test]
fn key_val_splits_at_first_colon_and_trims() {
    let (k, v) = parse_key_val("Content-Type: application/json").unwrap();
    assert_eq!(k, "Content-Type");
    assert_eq!(v, "application/json");
    let (k, v) = parse_key_val("  X-Token :  a:b:c  ").unwrap();
    assert_eq!(k, "X-Token");
    assert_eq!(v, "a:b:c");
}

#[test]
fn key_val_without_colon_is_rejected() {
    let e = parse_key_val("no colon here").unwrap_err();
    assert_eq!(e, "Header must be in 'Key:Value' format");
}

#[test]
fn content_length_plain_digits() {
    assert_eq!(parse_content_length("1024"), 1024);
    assert_eq!(parse_content_length("0"), 0);
    assert_eq!(parse_content_length("18446744073709551615"), u64::MAX);
}

#[test]
fn content_length_garbage_counts_as_zero() {
    assert_eq!(parse_content_length(""), 0);
    assert_eq!(parse_content_length("12x"), 0);
    assert_eq!(parse_content_length("-5"), 0);
    // One past u64::MAX.
    assert_eq!(parse_content_length("18446744073709551616"), 0);
}

#[test]
fn classify_received_response_is_success() {
    let o = classify_outcome(
        12_345,
        RequestResult::Response {
            status_code: 503,
            content_length_header: Some(String::from("77")),
        },
    );
    match o {
        Outcome::Success(r) => {
            assert_eq!(r.time_cost_ns, 12_345);
            assert_eq!(r.status_code, 503);
            assert_eq!(r.content_length, 77);
        }
        Outcome::Failure { .. } => panic!("a received response must classify as a success"),
    }
}

#[test]
fn classify_timeout_uses_fixed_message() {
    let o = classify_outcome(5_000_000, RequestResult::TimedOut);
    match o {
        Outcome::Failure { kind, message } => {
            assert_eq!(kind, httpstress::outcome::FailureKind::Timeout);
            assert_eq!(message, "Request timeout");
        }
        Outcome::Success(_) => panic!("a timeout must classify as a failure"),
    }
}

#[test]
fn classify_transport_error_keeps_message() {
    let o = classify_outcome(
        1,
        RequestResult::TransportError {
            message: String::from("connection reset by peer"),
        },
    );
    match o {
        Outcome::Failure { kind, message } => {
            assert_eq!(kind, httpstress::outcome::FailureKind::Transport);
            assert_eq!(message, "connection reset by peer");
        }
        Outcome::Success(_) => panic!("a transport error must classify as a failure"),
    }
}

#[test]
fn url_http_and_https_accepted() {
    let u = parse_url("http://example.org/hello/world").unwrap();
    assert_eq!(u.scheme, "http");
    assert_eq!(u.host, "example.org");
    assert_eq!(u.raw, "http://example.org/hello/world");
    let u = parse_url("https://example.com:8443/x?y=z").unwrap();
    assert_eq!(u.scheme, "https");
    assert_eq!(u.host, "example.com");
}

#[test]
fn url_other_scheme_rejected() {
    assert_eq!(parse_url("ftp://example.org/").unwrap_err(), UrlError::UnsupportedScheme);
}

#[test]
fn url_without_scheme_rejected() {
    assert_eq!(parse_url("/hello/world").unwrap_err(), UrlError::MissingScheme);
}

#[test]
fn url_empty_host_rejected() {
    // The URI grammar tolerates an authority that is only a port, but the
    // engine demands a non-empty host.
    assert_eq!(parse_url("http://:80/").unwrap_err(), UrlError::MissingHost);
}

#[test]
fn url_garbage_rejected() {
    assert_eq!(parse_url("http://exa mple.org/").unwrap_err(), UrlError::InvalidFormat);
}

#[test]
fn request_plan_follows_body() {
    let (method, content_type) = plan_request(false);
    assert_eq!(method, "GET");
    assert!(content_type.is_none());
    let (method, content_type) = plan_request(true);
    assert_eq!(method, "POST");
    assert_eq!(content_type.unwrap(), "application/x-www-form-urlencoded");
}
