use redirectfs::config::{
    parse_bool_setting, parse_bool_text, parse_optional_u64_setting, parse_optional_u64_text,
    parse_u64_setting, parse_usize, parse_usize_setting, DemoSettings, FuseDemoConfig,
};
use redirectfs::encoding::{parse_u64, render_u64};

#[test]
fn parse_bool_text_falsey_values() {
    assert!(!parse_bool_text("0"));
    assert!(!parse_bool_text("false"));
    assert!(!parse_bool_text("off"));
    assert!(!parse_bool_text("No"));
}

#[test]
fn parse_bool_text_truthy_values() {
    assert!(parse_bool_text("1"));
    assert!(parse_bool_text("true"));
    assert!(parse_bool_text("on"));
    assert!(parse_bool_text("yes"));
}

#[test]
fn parse_optional_u64_text_none_and_valid() {
    assert_eq!(parse_optional_u64_text(""), None);
    assert_eq!(parse_optional_u64_text("none"), None);
    assert_eq!(parse_optional_u64_text("off"), None);
    assert_eq!(parse_optional_u64_text("25"), Some(25));
    assert_eq!(parse_optional_u64_text("oops"), None);
}

#[test]
fn daemon_smoke_validation_rejects_missing_timeout_when_expecting_timeout() {
    let config = FuseDemoConfig {
        wal_sync_writes: true,
        chunk_size_bytes: 4,
        daemon_request_timeout_ms: None,
        daemon_max_pending_requests: 64,
        timeout_smoke: true,
        timeout_smoke_expect_timeout: true,
        timeout_smoke_delay_ms: 80,
    };
    let err = config
        .validate_for_daemon_smoke()
        .expect_err("validation should fail");
    assert!(err.contains("FUSE_DAEMON_REQUEST_TIMEOUT_MS"));
}

#[test]
fn daemon_smoke_validation_rejects_non_strict_timeout_window() {
    let config = FuseDemoConfig {
        wal_sync_writes: true,
        chunk_size_bytes: 4,
        daemon_request_timeout_ms: Some(80),
        daemon_max_pending_requests: 64,
        timeout_smoke: true,
        timeout_smoke_expect_timeout: true,
        timeout_smoke_delay_ms: 80,
    };
    let err = config
        .validate_for_daemon_smoke()
        .expect_err("validation should fail");
    assert!(err.contains("not less than delay"));
}

#[test]
fn daemon_smoke_validation_accepts_strict_timeout_window() {
    let config = FuseDemoConfig {
        wal_sync_writes: true,
        chunk_size_bytes: 4,
        daemon_request_timeout_ms: Some(25),
        daemon_max_pending_requests: 64,
        timeout_smoke: true,
        timeout_smoke_expect_timeout: true,
        timeout_smoke_delay_ms: 80,
    };
    config
        .validate_for_daemon_smoke()
        .expect("validation should pass");
}

#[test]
fn daemon_smoke_validation_requires_smoke_flag() {
    let config = FuseDemoConfig {
        wal_sync_writes: true,
        chunk_size_bytes: 4,
        daemon_request_timeout_ms: Some(25),
        daemon_max_pending_requests: 64,
        timeout_smoke: false,
        timeout_smoke_expect_timeout: true,
        timeout_smoke_delay_ms: 80,
    };
    assert_eq!(
        config.validate_for_daemon_smoke().unwrap_err(),
        "FUSE_TIMEOUT_SMOKE_EXPECT_TIMEOUT requires FUSE_TIMEOUT_SMOKE=true"
    );
}

#[test]
fn daemon_smoke_validation_message_names_both_numbers() {
    let config = FuseDemoConfig {
        wal_sync_writes: false,
        chunk_size_bytes: 4,
        daemon_request_timeout_ms: Some(90),
        daemon_max_pending_requests: 64,
        timeout_smoke: true,
        timeout_smoke_expect_timeout: true,
        timeout_smoke_delay_ms: 80,
    };
    assert_eq!(
        config.validate_for_daemon_smoke().unwrap_err(),
        "timeout smoke expects timeout, but configured timeout (90ms) is not less than delay (80ms)"
    );
}

#[test]
fn summary_lists_every_setting() {
    let config = FuseDemoConfig {
        wal_sync_writes: true,
        chunk_size_bytes: 4096,
        daemon_request_timeout_ms: None,
        daemon_max_pending_requests: 1024,
        timeout_smoke: false,
        timeout_smoke_expect_timeout: false,
        timeout_smoke_delay_ms: 80,
    };
    assert_eq!(
        config.summary("demo"),
        "demo config: WAL_SYNC_WRITES=true, CHUNK_SIZE_BYTES=4096, FUSE_DAEMON_REQUEST_TIMEOUT_MS=none, FUSE_DAEMON_MAX_PENDING_REQUESTS=1024, FUSE_TIMEOUT_SMOKE=false, FUSE_TIMEOUT_SMOKE_EXPECT_TIMEOUT=false, FUSE_TIMEOUT_SMOKE_DELAY_MS=80"
    );
    let with_timeout = FuseDemoConfig {
        daemon_request_timeout_ms: Some(25),
        ..config
    };
    assert!(with_timeout
        .summary("d")
        .contains("FUSE_DAEMON_REQUEST_TIMEOUT_MS=25,"));
}

#[test]
fn settings_fall_back_to_defaults_and_floors() {
    let settings = DemoSettings {
        wal_sync_writes: None,
        chunk_size_bytes: Some(" 0 ".to_string()),
        daemon_request_timeout_ms: Some(" 250 ".to_string()),
        daemon_max_pending_requests: Some("many".to_string()),
        timeout_smoke: Some("TRUE".to_string()),
        timeout_smoke_expect_timeout: Some(" off ".to_string()),
        timeout_smoke_delay_ms: Some("x".to_string()),
    };
    let c = FuseDemoConfig::from_settings(65536, &settings);
    assert!(c.wal_sync_writes);
    assert_eq!(c.chunk_size_bytes, 1);
    assert_eq!(c.daemon_request_timeout_ms, Some(250));
    assert_eq!(c.daemon_max_pending_requests, 1024);
    assert!(c.timeout_smoke);
    assert!(!c.timeout_smoke_expect_timeout);
    assert_eq!(c.timeout_smoke_delay_ms, 80);

    let empty = DemoSettings {
        wal_sync_writes: None,
        chunk_size_bytes: None,
        daemon_request_timeout_ms: None,
        daemon_max_pending_requests: None,
        timeout_smoke: None,
        timeout_smoke_expect_timeout: None,
        timeout_smoke_delay_ms: None,
    };
    let d = FuseDemoConfig::from_settings(0, &empty);
    assert_eq!(d.chunk_size_bytes, 1);
    assert_eq!(d.daemon_request_timeout_ms, None);
}

#[test]
fn single_settings_parse_like_the_standard_library() {
    assert!(parse_bool_setting(None, true));
    assert!(!parse_bool_setting(Some("\t No \n"), true));
    assert_eq!(parse_usize_setting(Some("7"), 3, 10), 10);
    assert_eq!(parse_usize_setting(Some("+12"), 3, 1), 12);
    assert_eq!(parse_usize_setting(None, 0, 5), 5);
    assert_eq!(parse_u64_setting(Some("18446744073709551615"), 1), u64::MAX);
    assert_eq!(parse_u64_setting(Some("18446744073709551616"), 1), 1);
    assert_eq!(parse_optional_u64_setting(Some("NONE")), None);
    assert_eq!(parse_optional_u64_setting(None), None);
    assert_eq!(parse_usize("-1"), None);
}

#[test]
fn unsigned_parse_and_render_agree_with_std() {
    for text in ["0", "7", "+42", "", "+", "-3", "12a", "007", "18446744073709551615", "99999999999999999999"] {
        assert_eq!(parse_u64(text), text.parse::<u64>().ok(), "input {text:?}");
    }
    for n in [0u64, 9, 10, 12345, u64::MAX] {
        assert_eq!(render_u64(n), n.to_string());
        assert_eq!(parse_u64(&render_u64(n)), Some(n));
    }
}
