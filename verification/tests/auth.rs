use kiro_rs::api_key::{ApiKey, ApiKeyManager};
use kiro_rs::auth::{admin_key_accepted, constant_time_eq, decide_auth, decide_auth_at, AuthDecision};
use kiro_rs::concurrency::credential_concurrency_snapshot;
use kiro_rs::time::Timestamp;

fn ts(secs: i64) -> Timestamp {
    Timestamp { secs, nanos: 0 }
}

fn manager() -> ApiKeyManager {
    let mk = |id: u32, secret: &str, enabled: bool, exp: Option<Timestamp>| ApiKey {
        id,
        key: secret.to_string(),
        name: "n".to_string(),
        enabled,
        created_at: ts(0),
        expires_at: exp,
    };
    ApiKeyManager::from_keys(vec![
        mk(7, "sk-user", true, None),
        mk(8, "sk-off", false, None),
        mk(9, "sk-old", true, Some(ts(100))),
    ])
}

#[test]
fn constant_time_eq_is_equality() {
    assert!(constant_time_eq("abc", "abc"));
    assert!(!constant_time_eq("abc", "abd"));
    assert!(!constant_time_eq("abc", "ab"));
    assert!(constant_time_eq("", ""));
    assert!(constant_time_eq("密钥", "密钥"));
}

#[test]
fn master_key_is_accepted_as_identity_zero() {
    let m = manager();
    match decide_auth(Some("master"), "master", Some(&m)) {
        AuthDecision::Accept(id) => assert_eq!(id.key_id, 0),
        other => panic!("unexpected {:?}", other),
    }
    assert!(matches!(decide_auth(Some("master"), "master", None), AuthDecision::Accept(_)));
}

#[test]
fn user_keys_decide_by_registry() {
    let m = manager();
    assert_eq!(decide_auth(Some("sk-user"), "master", Some(&m)), AuthDecision::Accept(kiro_rs::auth::ApiKeyIdentity { key_id: 7 }));
    assert_eq!(decide_auth(Some("sk-off"), "master", Some(&m)), AuthDecision::KeyDisabled);
    assert_eq!(decide_auth(Some("sk-old"), "master", Some(&m)), AuthDecision::KeyExpired);
    assert_eq!(decide_auth_at(Some("sk-old"), "master", Some(&m), ts(99)), AuthDecision::Accept(kiro_rs::auth::ApiKeyIdentity { key_id: 9 }));
    assert_eq!(decide_auth(Some("sk-unknown"), "master", Some(&m)), AuthDecision::Unauthorized);
    assert_eq!(decide_auth(Some("sk-user"), "master", None), AuthDecision::Unauthorized);
    assert_eq!(decide_auth(None, "master", Some(&m)), AuthDecision::Unauthorized);
}

#[test]
fn admin_key_must_match_exactly() {
    assert!(admin_key_accepted(Some("admin"), "admin"));
    assert!(!admin_key_accepted(Some("admin2"), "admin"));
    assert!(!admin_key_accepted(None, "admin"));
}

#[test]
fn concurrency_snapshot_subtracts_free_permits() {
    let snap = credential_concurrency_snapshot(Some(5), &[(1, 5), (2, 2), (3, 0)]);
    assert_eq!(snap.len(), 3);
    assert_eq!(snap[&1], 0);
    assert_eq!(snap[&2], 3);
    assert_eq!(snap[&3], 5);
    assert!(credential_concurrency_snapshot(Some(0), &[(1, 3)]).is_empty());
    assert!(credential_concurrency_snapshot(None, &[(1, 3)]).is_empty());
}
