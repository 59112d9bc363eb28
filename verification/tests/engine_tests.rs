use base64::Engine;
use haruki_sekai::account::{
    AccountSession, AccountType, LoginResponse, SekaiAccount, SekaiAccountCP,
    SekaiAccountNuverse, SessionPool, UserRegistration,
};
use haruki_sekai::engine::{
    build_api_url, classify_response, handle_response_ordered, login_route, recovery_step,
    run_game_call, HeaderBook, RecoveryAction, WireClass,
};
use haruki_sekai::errors::{is_retryable_error, AppError, SekaiHttpStatus};
use haruki_sekai::ops::{
    extract_server_from_path, plan_region_jobs, validate_image_params, PlannedJob,
    ReloadDebouncer, ServerRegion,
};
use haruki_sekai::codec::SekaiCryptor;
use haruki_sekai::tokens::{extract_user_id_from_jwt, extract_user_id_from_nuverse_token};
use haruki_sekai::trusted::{json_decode, msgpack_decode};
use haruki_sekai::value::{JsonMap, JsonVal, MsgVal};
use haruki_sekai::version::{AppInfo, VersionInfo};

#[test]
fn test_extract_user_id_from_jwt() {
    let payload = r#"{"userId":"12345"}"#;
    let encoded = base64::engine::general_purpose::URL_SAFE_NO_PAD.encode(payload);
    let jwt = format!("header.{}.signature", encoded);
    let result = extract_user_id_from_jwt(&jwt);
    assert_eq!(result.unwrap(), "12345");
}

#[test]
fn test_extract_user_id_from_nuverse_token() {
    let jwt_payload = r#"{"sdk_open_id":"67890","device_id":123}"#;
    let jwt_payload_b64 = base64::engine::general_purpose::URL_SAFE_NO_PAD.encode(jwt_payload);
    let jwt = format!(
        "eyJhbGciOiJIUzI1NiIsInR5cCI6IkpXVCJ9.{}.signature",
        jwt_payload_b64
    );
    let encoded = base64::engine::general_purpose::STANDARD.encode(&jwt);
    let result = extract_user_id_from_nuverse_token(&encoded);
    assert_eq!(result.unwrap(), "67890");
}

#[test]
fn test_jwt_rejects_malformed_tokens() {
    assert!(matches!(
        extract_user_id_from_jwt("only.two"),
        Err(AppError::ParseError(_))
    ));
    assert!(matches!(
        extract_user_id_from_jwt("a.!!!.c"),
        Err(AppError::ParseError(_))
    ));
}

#[test]
fn test_region_names() {
    assert_eq!(ServerRegion::from_str("JP"), Some(ServerRegion::Jp));
    assert_eq!(ServerRegion::from_str("tw"), Some(ServerRegion::Tw));
    assert_eq!(ServerRegion::from_str("xx"), None);
    assert_eq!(ServerRegion::Jp.as_str(), "jp");
    assert!(ServerRegion::En.is_cp_server());
    assert!(!ServerRegion::Kr.is_cp_server());
}

#[test]
fn test_extract_server_from_path() {
    assert_eq!(extract_server_from_path("/JP/system"), "jp");
    assert_eq!(extract_server_from_path("en/info"), "en");
    assert_eq!(extract_server_from_path("///"), "");
}

#[test]
fn test_status_classification_table() {
    assert_eq!(
        classify_response(403, "application/octet-stream"),
        WireClass::SessionFailure
    );
    assert_eq!(classify_response(200, "binary"), WireClass::Decode);
    assert_eq!(
        classify_response(426, "application/OCTET-STREAM"),
        WireClass::UpgradeNeeded
    );
    assert_eq!(classify_response(503, "text/html"), WireClass::Maintenance);
    assert_eq!(classify_response(403, "text/xml"), WireClass::CookieFailure);
    assert_eq!(classify_response(403, "text/html"), WireClass::Unrecognized);
    assert_eq!(classify_response(500, "text/html"), WireClass::Unrecognized);
    // A status outside the closed set is unrecognised, binary or not.
    assert_eq!(classify_response(418, "text/html"), WireClass::Unrecognized);
    assert_eq!(classify_response(999, "application/octet-stream"), WireClass::Unrecognized);
}

#[test]
fn test_sekai_http_status_codes() {
    assert_eq!(SekaiHttpStatus::from_code(200).unwrap(), SekaiHttpStatus::Success);
    assert_eq!(SekaiHttpStatus::from_code(409).unwrap(), SekaiHttpStatus::Conflict);
    assert!(matches!(
        SekaiHttpStatus::from_code(418),
        Err(AppError::InvalidHttpStatus(418))
    ));
    assert_eq!(SekaiHttpStatus::UnderMaintenance.code(), 503);
}

#[test]
fn test_error_status_mapping() {
    assert_eq!(AppError::SessionError.status_code(), 403);
    assert_eq!(AppError::UpgradeRequired.status_code(), 426);
    assert_eq!(AppError::UnderMaintenance.status_code(), 503);
    assert_eq!(AppError::ParseError("x".to_owned()).status_code(), 400);
    assert_eq!(AppError::AuthError("x".to_owned()).status_code(), 401);
    assert_eq!(AppError::CryptoError("x".to_owned()).status_code(), 500);
    assert!(is_retryable_error(&AppError::NetworkError("x".to_owned())));
    assert!(!is_retryable_error(&AppError::UnderMaintenance));
}

#[test]
fn test_handle_response_decodes_payload() {
    let cryptor = SekaiCryptor::from_hex(
        "00112233445566778899aabbccddeeff",
        "ffeeddccbbaa99887766554433221100",
    )
    .unwrap();
    let payload = MsgVal::MapV(vec![(
        MsgVal::Str("ok".to_owned()),
        MsgVal::Bool(true),
    )]);
    let body = cryptor.pack(&payload).unwrap();
    let map = handle_response_ordered(&cryptor, 200, "application/octet-stream", &body).unwrap();
    assert_eq!(map.get("ok"), Some(&JsonVal::Bool(true)));
    assert!(matches!(
        handle_response_ordered(&cryptor, 403, "application/octet-stream", &body),
        Err(AppError::SessionError)
    ));
    assert!(matches!(
        handle_response_ordered(&cryptor, 503, "application/octet-stream", &body),
        Err(AppError::UnderMaintenance)
    ));
}

fn ok_map() -> JsonMap {
    let mut m = JsonMap::new();
    m.insert("status".to_owned(), JsonVal::Str("ok".to_owned()));
    m
}

#[test]
fn test_recovery_two_logins_then_success() {
    // Canned upstream outcomes 403, 403, 200 with successful logins in
    // between: the call succeeds after two re-logins.
    let events = vec![
        Err(AppError::SessionError),
        Err(AppError::SessionError),
        Ok(ok_map()),
    ];
    let logins = vec![true, true];
    let (result, calls, logins_used) = run_game_call(events, logins, false);
    let (map, status) = result.unwrap();
    assert_eq!(status, 200);
    assert_eq!(map.get("status"), Some(&JsonVal::Str("ok".to_owned())));
    assert_eq!(calls, 3);
    assert_eq!(logins_used, 2);
}

#[test]
fn test_maintenance_not_retried() {
    let events = vec![Err(AppError::UnderMaintenance), Ok(ok_map())];
    let (result, calls, logins_used) = run_game_call(events, vec![], false);
    assert!(matches!(result, Err(AppError::UnderMaintenance)));
    assert_eq!(calls, 1);
    assert_eq!(logins_used, 0);
}

#[test]
fn test_failed_relogin_surfaces_session_error() {
    let events = vec![Err(AppError::SessionError), Ok(ok_map())];
    let (result, calls, logins_used) = run_game_call(events, vec![false], false);
    assert!(matches!(result, Err(AppError::SessionError)));
    assert_eq!(calls, 1);
    assert_eq!(logins_used, 1);
}

#[test]
fn test_cookie_expiry_respects_region_config() {
    let events = vec![Err(AppError::CookieExpired), Ok(ok_map())];
    let (result, _, _) = run_game_call(events, vec![], true);
    assert!(result.is_ok());
    let events = vec![Err(AppError::CookieExpired), Ok(ok_map())];
    let (result, calls, _) = run_game_call(events, vec![], false);
    assert!(matches!(result, Err(AppError::CookieExpired)));
    assert_eq!(calls, 1);
}

#[test]
fn test_retries_are_bounded() {
    let events = vec![
        Err(AppError::UpgradeRequired),
        Err(AppError::UpgradeRequired),
        Err(AppError::UpgradeRequired),
        Err(AppError::UpgradeRequired),
        Ok(ok_map()),
    ];
    let (result, calls, _) = run_game_call(events, vec![], false);
    assert!(matches!(result, Err(AppError::NetworkError(_))));
    assert_eq!(calls, 4);
}

fn cp_account(uid: &str) -> AccountType {
    AccountType::CP(SekaiAccountCP {
        user_id: uid.to_owned(),
        device_id: String::new(),
        credential: "cred".to_owned(),
    })
}

#[test]
fn test_round_robin_fairness() {
    let mut pool = SessionPool::new();
    for uid in ["1", "2", "3"] {
        pool.push_session(AccountSession::new(cp_account(uid)));
    }
    let mut counts = [0usize; 3];
    for _ in 0..6 {
        let idx = pool.get_session().unwrap();
        counts[idx] += 1;
    }
    assert_eq!(counts, [2, 2, 2]);
    let mut empty = SessionPool::new();
    assert!(empty.get_session().is_none());
}

#[test]
fn test_session_applies_login_response() {
    let mut session = AccountSession::new(AccountType::Nuverse(SekaiAccountNuverse {
        user_id: "0".to_owned(),
        device_id: String::new(),
        access_token: "tok".to_owned(),
    }));
    let resp = LoginResponse {
        session_token: "fresh-token".to_owned(),
        data_version: String::new(),
        asset_version: String::new(),
        asset_hash: String::new(),
        suite_master_split_path: vec![],
        cdn_version: 0,
        user_registration: Some(UserRegistration { user_id: "777".to_owned() }),
    };
    session.apply_login_response(&resp, false);
    assert_eq!(session.session_token, Some("fresh-token".to_owned()));
    assert_eq!(session.user_id(), "777");
    // A zero registration id never overwrites the identity.
    let resp2 = LoginResponse {
        session_token: String::new(),
        data_version: String::new(),
        asset_version: String::new(),
        asset_hash: String::new(),
        suite_master_split_path: vec![],
        cdn_version: 0,
        user_registration: Some(UserRegistration { user_id: "0".to_owned() }),
    };
    session.apply_login_response(&resp2, false);
    assert_eq!(session.user_id(), "777");
    assert_eq!(session.session_token, Some("fresh-token".to_owned()));
}

#[test]
fn test_cp_dump_payload_shape() {
    let account = AccountType::CP(SekaiAccountCP {
        user_id: "42".to_owned(),
        device_id: "dev-1".to_owned(),
        credential: "cred-x".to_owned(),
    });
    let bytes = account.dump().unwrap();
    let decoded = msgpack_decode(&bytes).unwrap();
    let expected = MsgVal::MapV(vec![
        (MsgVal::Str("deviceId".to_owned()), MsgVal::Str("dev-1".to_owned())),
        (MsgVal::Str("credential".to_owned()), MsgVal::Str("cred-x".to_owned())),
        (
            MsgVal::Str("authTriggerType".to_owned()),
            MsgVal::Str("normal".to_owned()),
        ),
    ]);
    assert_eq!(decoded, expected);
}

#[test]
fn test_nuverse_dump_payload_shape() {
    let account = AccountType::Nuverse(SekaiAccountNuverse {
        user_id: "9001".to_owned(),
        device_id: String::new(),
        access_token: "at".to_owned(),
    });
    let bytes = account.dump().unwrap();
    let decoded = msgpack_decode(&bytes).unwrap();
    let expected = MsgVal::MapV(vec![
        (MsgVal::Str("accessToken".to_owned()), MsgVal::Str("at".to_owned())),
        (MsgVal::Str("userID".to_owned()), MsgVal::Int(9001)),
    ]);
    assert_eq!(decoded, expected);
    let bad = AccountType::Nuverse(SekaiAccountNuverse {
        user_id: "not-a-number".to_owned(),
        device_id: String::new(),
        access_token: "at".to_owned(),
    });
    assert!(matches!(bad.dump(), Err(AppError::ParseError(_))));
}

#[test]
fn test_debounce_single_fire() {
    let mut d = ReloadDebouncer::new(2000);
    // The very first event fires: no reload has happened yet.
    assert!(d.on_event(1000));
    // A second event within two seconds of the reload does not fire again.
    assert!(!d.on_event(2500));
    assert!(d.on_event(3000));
    assert!(!d.on_event(4500));
    assert!(d.on_event(5000));
}

#[test]
fn test_image_param_validation() {
    let hex64 = "a".repeat(64);
    assert!(validate_image_params(true, &hex64, &hex64));
    assert!(!validate_image_params(true, "1234", &hex64));
    assert!(!validate_image_params(true, &"A".repeat(64), &hex64));
    assert!(validate_image_params(false, "123", "7"));
    assert!(!validate_image_params(false, "12a", "7"));
    assert!(!validate_image_params(false, "", "7"));
}

#[test]
fn test_job_planning() {
    let jobs = plan_region_jobs(true, true, true, "0 0 * * * *", true, "", true);
    assert_eq!(jobs.len(), 2);
    assert!(matches!(&jobs[0], PlannedJob::CookieRefresh(c) if c == "0 0 */20 * * *"));
    assert!(matches!(&jobs[1], PlannedJob::MasterSync(c) if c == "0 0 * * * *"));
    let none = plan_region_jobs(false, false, false, "", false, "", false);
    assert!(none.is_empty());
}

#[test]
fn test_build_api_url_substitutes_user_id() {
    let url = build_api_url("https://game.example", "/user/{userId}/profile", "55").unwrap();
    assert_eq!(url, "https://game.example/api/user/55/profile");
}

#[test]
fn test_request_headers_replace_request_id() {
    let mut book = HeaderBook::new();
    book.set("X-Request-Id".to_owned(), "stale".to_owned());
    book.set("Accept".to_owned(), "*/*".to_owned());
    let headers = haruki_sekai::engine::prepare_headers(&book, Some(&"tok".to_owned()));
    let names: Vec<&str> = headers.iter().map(|h| h.0.as_str()).collect();
    assert_eq!(names, vec!["Accept", "X-Session-Token", "X-Request-Id"]);
    // The stored stale request id is dropped; the fresh one is a 36-character
    // hyphenated identifier.
    assert_eq!(headers[2].1.chars().count(), 36);
    assert_ne!(headers[2].1, "stale");
}

#[test]
fn test_version_manifest_roundtrip() {
    let doc = json_decode(br#"{"appVersion":"4.0.5","appHash":"h","dataVersion":"1.2.3","extra":7}"#)
        .unwrap();
    let map = match doc {
        JsonVal::Obj(m) => m,
        other => panic!("expected object, got {:?}", other),
    };
    let info = VersionInfo::from_json(&map);
    assert_eq!(info.app_version, "4.0.5");
    assert_eq!(info.data_version, "1.2.3");
    assert_eq!(info.asset_version, "");
    assert_eq!(info.cdn_version, 0);
    let merged = info.merge_into(&map);
    // Untouched keys survive the rewrite.
    assert_eq!(merged.get("extra"), Some(&JsonVal::Int(7)));
    assert_eq!(merged.get("assetHash"), Some(&JsonVal::Str(String::new())));
}

#[test]
fn test_app_info_merge() {
    let doc = json_decode(br#"{"appVersion":"1.0.0","appHash":"old","dataVersion":"5"}"#).unwrap();
    let map = match doc {
        JsonVal::Obj(m) => m,
        other => panic!("expected object, got {:?}", other),
    };
    let current = AppInfo::from_json(&map).unwrap();
    let fetched = AppInfo { app_version: "1.1.0".to_owned(), app_hash: "new".to_owned() };
    assert!(fetched.differs_from(&current));
    assert!(!current.differs_from(&current));
    let merged = fetched.merge_into(&map);
    assert_eq!(merged.get("appVersion"), Some(&JsonVal::Str("1.1.0".to_owned())));
    assert_eq!(merged.get("appHash"), Some(&JsonVal::Str("new".to_owned())));
    assert_eq!(merged.get("dataVersion"), Some(&JsonVal::Str("5".to_owned())));
}

#[test]
fn test_unknown_response_keeps_body_text() {
    let cryptor = SekaiCryptor::from_hex(
        "00112233445566778899aabbccddeeff",
        "ffeeddccbbaa99887766554433221100",
    )
    .unwrap();
    match handle_response_ordered(&cryptor, 500, "text/html", b"oops") {
        Err(AppError::Unknown { status, body }) => {
            assert_eq!(status, 500);
            assert_eq!(body, "oops");
        }
        other => panic!("expected Unknown, got {:?}", other),
    }
}

#[test]
fn test_login_response_from_json() {
    let doc = json_decode(
        br#"{"sessionToken":"t1","dataVersion":"3.9.0","assetVersion":"3.8.0",
             "suiteMasterSplitPath":["a/b", 7, "c"],
             "cdnVersion": 42,
             "userRegistration": {"userId": 555}}"#,
    )
    .unwrap();
    let map = match doc {
        JsonVal::Obj(m) => m,
        other => panic!("expected object, got {:?}", other),
    };
    let login = LoginResponse::from_json(&map);
    assert_eq!(login.session_token, "t1");
    assert_eq!(login.data_version, "3.9.0");
    assert_eq!(login.asset_version, "3.8.0");
    assert_eq!(login.asset_hash, "");
    // Non-string path entries are dropped; a numeric registration id is
    // rendered in decimal.
    assert_eq!(login.suite_master_split_path, vec!["a/b".to_owned(), "c".to_owned()]);
    assert_eq!(login.cdn_version, 42);
    assert_eq!(
        login.user_registration,
        Some(UserRegistration { user_id: "555".to_owned() })
    );
}

#[test]
fn test_normalize_master_path() {
    assert_eq!(haruki_sekai::ops::normalize_master_path("/x/y"), "/x/y");
    assert_eq!(haruki_sekai::ops::normalize_master_path("x/y"), "/x/y");
}

#[test]
fn test_unknown_status_surfaces_as_unknown() {
    let cryptor = SekaiCryptor::from_hex(
        "00112233445566778899aabbccddeeff",
        "ffeeddccbbaa99887766554433221100",
    )
    .unwrap();
    match haruki_sekai::engine::handle_response(&cryptor, 999, "application/octet-stream", b"x") {
        Err(AppError::Unknown { status, .. }) => assert_eq!(status, 999),
        other => panic!("expected Unknown, got {:?}", other),
    }
    match handle_response_ordered(&cryptor, 777, "text/html", b"x") {
        Err(AppError::Unknown { status, .. }) => assert_eq!(status, 777),
        other => panic!("expected Unknown, got {:?}", other),
    }
}

#[test]
fn test_ordered_non_binary_maintenance() {
    let cryptor = SekaiCryptor::from_hex(
        "00112233445566778899aabbccddeeff",
        "ffeeddccbbaa99887766554433221100",
    )
    .unwrap();
    // Maintenance surfaces from the game exchange even for a non-binary
    // body, so the recovery loop never retries it.
    assert!(matches!(
        handle_response_ordered(&cryptor, 503, "text/html", b"maintenance"),
        Err(AppError::UnderMaintenance)
    ));
}

#[test]
fn test_typed_response_cookie_expiry() {
    let cryptor = SekaiCryptor::from_hex(
        "00112233445566778899aabbccddeeff",
        "ffeeddccbbaa99887766554433221100",
    )
    .unwrap();
    // A non-binary 403 XML response on the typed exchange means the cookie
    // expired; the ordered game exchange treats the same response as
    // unrecognised.
    assert!(matches!(
        haruki_sekai::engine::handle_response(&cryptor, 403, "text/xml", b"<err/>"),
        Err(AppError::CookieExpired)
    ));
    assert!(matches!(
        handle_response_ordered(&cryptor, 403, "text/xml", b"<err/>"),
        Err(AppError::Unknown { .. })
    ));
}

#[test]
fn test_extract_thumbnail() {
    let mut doc = JsonMap::new();
    doc.insert("thumbnail".to_owned(), JsonVal::Str("AQID".to_owned()));
    assert_eq!(
        haruki_sekai::engine::extract_thumbnail(&doc).unwrap(),
        vec![1u8, 2, 3]
    );
    let empty = JsonMap::new();
    assert!(matches!(
        haruki_sekai::engine::extract_thumbnail(&empty),
        Err(AppError::ParseError(_))
    ));
    let mut bad = JsonMap::new();
    bad.insert("thumbnail".to_owned(), JsonVal::Str("!!".to_owned()));
    assert!(matches!(
        haruki_sekai::engine::extract_thumbnail(&bad),
        Err(AppError::ParseError(_))
    ));
}

#[test]
fn test_login_route_per_dialect() {
    let (path, use_put) = login_route(true, "42");
    assert_eq!(path, "/user/42/auth?refreshUpdatedResources=False");
    assert!(use_put);
    let (path, use_put) = login_route(false, "42");
    assert_eq!(path, "/user/auth");
    assert!(!use_put);
}

#[test]
fn test_recovery_step_actions() {
    assert!(matches!(
        recovery_step(Ok(ok_map()), false),
        RecoveryAction::Deliver(_)
    ));
    assert!(matches!(
        recovery_step(Err(AppError::SessionError), false),
        RecoveryAction::Relogin
    ));
    assert!(matches!(
        recovery_step(Err(AppError::CookieExpired), true),
        RecoveryAction::RefreshCookies
    ));
    assert!(matches!(
        recovery_step(Err(AppError::CookieExpired), false),
        RecoveryAction::Surface(AppError::CookieExpired)
    ));
    assert!(matches!(
        recovery_step(Err(AppError::UpgradeRequired), true),
        RecoveryAction::RefreshVersion
    ));
    assert!(matches!(
        recovery_step(Err(AppError::UnderMaintenance), true),
        RecoveryAction::Surface(AppError::UnderMaintenance)
    ));
}

#[test]
fn test_account_identity_precedence() {
    // A usable stored id wins over the embedded token.
    let payload = r#"{"userId":"12345"}"#;
    let encoded = base64::engine::general_purpose::URL_SAFE_NO_PAD.encode(payload);
    let jwt = format!("header.{}.signature", encoded);
    let mut doc = JsonMap::new();
    doc.insert("userId".to_owned(), JsonVal::Str("777".to_owned()));
    doc.insert("credential".to_owned(), JsonVal::Str(jwt.clone()));
    let account = haruki_sekai::account::parse_account_value(true, &doc);
    assert_eq!(account.user_id(), "777");
    // An empty stored id is derived from the token.
    let mut doc = JsonMap::new();
    doc.insert("credential".to_owned(), JsonVal::Str(jwt));
    let account = haruki_sekai::account::parse_account_value(true, &doc);
    assert_eq!(account.user_id(), "12345");
    // The Nuverse dialect also treats a stored "0" as absent.
    let inner_payload = r#"{"sdk_open_id":"67890"}"#;
    let inner_b64 = base64::engine::general_purpose::URL_SAFE_NO_PAD.encode(inner_payload);
    let inner_jwt = format!("h.{}.s", inner_b64);
    let token = base64::engine::general_purpose::STANDARD.encode(&inner_jwt);
    let mut doc = JsonMap::new();
    doc.insert("userId".to_owned(), JsonVal::Str("0".to_owned()));
    doc.insert("accessToken".to_owned(), JsonVal::Str(token));
    let account = haruki_sekai::account::parse_account_value(false, &doc);
    assert_eq!(account.user_id(), "67890");
}
