use werss_cli::auth::{current_timestamp, timestamp_of, AuthError, TokenData, TokenResponse};
use werss_cli::config::{generate_example, Config, SyncConfig, TomlVecOrString};

#[test]
fn token_from_response_at_adds_lifetime() {
    let resp = TokenResponse {
        access_token: Some("abc".into()),
        refresh_token: None,
        expires_in: Some(600),
    };
    let t = TokenData::from_response_at(&resp, 1000).ok().unwrap();
    assert_eq!(t.access_token, "abc");
    assert_eq!(t.refresh_token, "");
    assert_eq!(t.expires_at, 1600);
    let resp = TokenResponse {
        access_token: Some("abc".into()),
        refresh_token: Some("r".into()),
        expires_in: None,
    };
    let t = TokenData::from_response_at(&resp, 1000).ok().unwrap();
    assert_eq!(t.refresh_token, "r");
    assert_eq!(t.expires_at, 1000 + 86400);
}

#[test]
fn token_from_response_needs_access_token() {
    let resp = TokenResponse { access_token: None, refresh_token: None, expires_in: None };
    assert_eq!(TokenData::from_response_at(&resp, 0).err(), Some(AuthError::NoAccessToken));
    assert_eq!(TokenData::from_response(&resp).err(), Some(AuthError::NoAccessToken));
}

#[test]
fn token_from_response_refuses_overflowing_expiry() {
    let resp = TokenResponse {
        access_token: Some("a".into()),
        refresh_token: None,
        expires_in: Some(i64::MAX),
    };
    assert_eq!(TokenData::from_response(&resp).err(), Some(AuthError::ExpiryOutOfRange));
}

#[test]
fn token_validity_has_five_minute_margin() {
    let t = TokenData { access_token: "a".into(), refresh_token: "".into(), expires_at: 1000 };
    assert!(t.is_valid_at(699));
    assert!(!t.is_valid_at(700));
    assert!(!t.is_valid_at(i64::MAX));
    assert!(t.is_valid_at(i64::MIN));
    let fresh = TokenData { access_token: "a".into(), refresh_token: "".into(), expires_at: i64::MAX };
    assert!(fresh.is_valid());
    let stale = TokenData { access_token: "a".into(), refresh_token: "".into(), expires_at: 0 };
    assert!(!stale.is_valid());
}

#[test]
fn expiry_text_round_trips() {
    for x in [0i64, 1, -1, 1744012800, i64::MAX, i64::MIN] {
        let t = TokenData { access_token: "a".into(), refresh_token: "b".into(), expires_at: x };
        let text = t.expiry_text();
        assert_eq!(text, x.to_string());
        let back = TokenData::from_stored("a".into(), "b".into(), Some(text));
        assert_eq!(back.expires_at, x);
    }
}

#[test]
fn stored_expiry_defaults_to_zero() {
    assert_eq!(TokenData::from_stored("a".into(), "b".into(), None).expires_at, 0);
    for bad in ["", "abc", "12x", "+", "-", "9223372036854775808", " 1"] {
        let t = TokenData::from_stored("a".into(), "b".into(), Some(bad.to_string()));
        assert_eq!(t.expires_at, 0, "{bad}");
    }
    assert_eq!(TokenData::from_stored("a".into(), "b".into(), Some("+42".into())).expires_at, 42);
    assert_eq!(TokenData::from_stored("a".into(), "b".into(), Some("-007".into())).expires_at, -7);
}

#[test]
fn sync_config_defaults() {
    let c = SyncConfig::default();
    assert_eq!(c.target_mps.to_comma_string(), "all");
    assert_eq!(c.output_dir, "./articles");
    assert_eq!(c.workspace_dir, "");
    assert_eq!(c.max_failures, 3);
    assert_eq!(c.limit, 0);
    assert_eq!(c.start_page, 0);
    assert_eq!(c.end_page, 1);
    let cfg = Config::default();
    assert_eq!(cfg.api.base, "");
    assert_eq!(cfg.sync.since, "");
}

#[test]
fn to_comma_string_joins_lists() {
    let v = TomlVecOrString::Array(vec!["A".into(), "B".into(), "C".into()]);
    assert_eq!(v.to_comma_string(), "A,B,C");
    assert_eq!(TomlVecOrString::Array(vec![]).to_comma_string(), "");
    assert_eq!(TomlVecOrString::String("x,y".into()).to_comma_string(), "x,y");
}

#[test]
fn generated_example_is_trimmed_template() {
    let e = generate_example();
    assert!(e.starts_with("# werss-cli configuration\n\n[api]"));
    assert!(e.ends_with("end_page = 1"));
    assert!(e.contains("target_mps = \"all\""));
}

#[test]
fn clock_reads_after_epoch() {
    let now = current_timestamp();
    assert!(now > 1_600_000_000);
    let t = TokenData { access_token: "a".into(), refresh_token: "".into(), expires_at: now + 301 };
    assert!(t.is_valid() || current_timestamp() > now);
}

#[test]
fn clock_readings_become_timestamps() {
    assert_eq!(timestamp_of(None), 0);
    assert_eq!(timestamp_of(Some(1_700_000_000)), 1_700_000_000);
    assert_eq!(timestamp_of(Some(i64::MAX as u64)), i64::MAX);
    assert_eq!(timestamp_of(Some(u64::MAX)), i64::MAX);
}

#[test]
fn token_from_response_outcomes() {
    let none = TokenResponse { access_token: None, refresh_token: None, expires_in: Some(-5) };
    assert_eq!(TokenData::from_response(&none).err(), Some(AuthError::NoAccessToken));
    let past = TokenResponse { access_token: Some("a".into()), refresh_token: None, expires_in: Some(i64::MIN) };
    let t = TokenData::from_response(&past).ok().unwrap();
    assert_eq!(t.access_token, "a");
    assert_eq!(t.refresh_token, "");
    assert!(t.expires_at < 0);
    assert!(!t.is_valid());
    let day = TokenResponse { access_token: Some("a".into()), refresh_token: Some("r".into()), expires_in: None };
    let before = current_timestamp();
    let t = TokenData::from_response(&day).ok().unwrap();
    assert!(t.expires_at >= before + 86400 && t.expires_at <= current_timestamp() + 86400);
    assert_eq!(t.refresh_token, "r");
}

#[test]
fn comma_string_splits_back_to_the_list() {
    let v: Vec<String> = vec!["MP_1".into(), "".into(), "MP_3".into()];
    let s = TomlVecOrString::Array(v.clone()).to_comma_string();
    assert_eq!(s, "MP_1,,MP_3");
    assert_eq!(s.split(',').map(String::from).collect::<Vec<String>>(), v);
}
