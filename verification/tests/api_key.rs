use kiro_rs::api_key::{default_enabled, ApiKey, ApiKeyAuthResult, ApiKeyManager};
use kiro_rs::time::Timestamp;

fn ts(secs: i64) -> Timestamp {
    Timestamp { secs, nanos: 0 }
}

fn key(id: u32, secret: &str, enabled: bool, expires_at: Option<Timestamp>) -> ApiKey {
    ApiKey {
        id,
        key: secret.to_string(),
        name: format!("user{}", id),
        enabled,
        created_at: ts(0),
        expires_at,
    }
}

#[test]
fn enabled_defaults_to_true() {
    assert!(default_enabled());
}

#[test]
fn generated_keys_have_the_documented_shape() {
    let k = ApiKey::new(4, "n".to_string(), None);
    assert_eq!(k.id, 4);
    assert!(k.enabled);
    assert_eq!(k.key.len(), 35);
    assert!(k.key.starts_with("sk-"));
    assert!(k.key[3..].chars().all(|c| c.is_ascii_digit() || ('a'..='f').contains(&c)));
    assert_eq!(k.key.as_bytes()[15], b'4');
    let other = ApiKey::new(5, "m".to_string(), None);
    assert_ne!(k.key, other.key);
    assert!(k.created_at.secs > 1_600_000_000);
}

#[test]
fn validity_and_expiry_at_given_times() {
    let k = key(1, "sk-a", true, Some(ts(100)));
    assert!(k.is_valid_at(ts(99)));
    assert!(!k.is_valid_at(ts(100)));
    assert!(k.is_expired_at(ts(100)));
    assert!(!k.is_expired_at(Timestamp { secs: 99, nanos: 999_999_999 }));
    let off = key(2, "sk-b", false, None);
    assert!(!off.is_valid_at(ts(0)));
    assert!(!off.is_expired_at(ts(0)));
}

#[test]
fn validity_now_uses_the_clock() {
    assert!(key(1, "a", true, Some(ts(i64::MAX))).is_valid());
    assert!(!key(1, "a", true, Some(ts(1))).is_valid());
    assert!(key(1, "a", true, Some(ts(1))).is_expired());
    assert!(!key(1, "a", true, None).is_expired());
}

#[test]
fn authenticate_reports_each_outcome() {
    let m = ApiKeyManager::from_keys(vec![
        key(1, "sk-ok", true, None),
        key(2, "sk-off", false, Some(ts(1))),
        key(3, "sk-old", true, Some(ts(1))),
        key(4, "sk-later", true, Some(ts(i64::MAX))),
    ]);
    match m.authenticate("sk-ok") {
        ApiKeyAuthResult::Valid { id, name } => {
            assert_eq!(id, 1);
            assert_eq!(name, "user1");
        }
        other => panic!("unexpected {:?}", other),
    }
    assert!(matches!(m.authenticate("sk-off"), ApiKeyAuthResult::Disabled));
    assert!(matches!(m.authenticate("sk-old"), ApiKeyAuthResult::Expired));
    assert!(matches!(m.authenticate("sk-later"), ApiKeyAuthResult::Valid { id: 4, .. }));
    assert!(matches!(m.authenticate("sk-none"), ApiKeyAuthResult::NotFound));
    assert!(matches!(m.authenticate_at("sk-later", ts(i64::MAX)), ApiKeyAuthResult::Expired));
}

#[test]
fn create_uses_next_id_after_largest() {
    let mut m = ApiKeyManager::from_keys(vec![key(5, "a", true, None), key(2, "b", true, None)]);
    let k = m.create("new".to_string(), Some(ts(10)));
    assert_eq!(k.id, 6);
    assert_eq!(k.expires_at, Some(ts(10)));
    assert_eq!(m.list().len(), 3);
    assert_eq!(m.list()[2].key, k.key);
    let mut empty = ApiKeyManager::from_keys(Vec::new());
    assert_eq!(empty.create("x".to_string(), None).id, 1);
}

#[test]
fn update_and_delete_keys() {
    let mut m = ApiKeyManager::from_keys(vec![key(1, "a", true, Some(ts(5)))]);
    let k = m.update(1, None, Some(false), Some(None)).unwrap();
    assert!(!k.enabled);
    assert_eq!(k.expires_at, None);
    assert_eq!(k.name, "user1");
    assert!(m.update(2, None, None, None).is_none());
    assert!(m.delete(1));
    assert!(!m.delete(1));
    assert!(m.list().is_empty());
}
