//! Comparison of presented keys against configured secrets.

use vstd::prelude::*;
use vstd::utf8::encode_utf8_decode_utf8;

use crate::api_key::{auth_result_at, ApiKey, ApiKeyAuthResult, ApiKeyManager};
use crate::time::Timestamp;

verus! {

/// Compares two keys without an early exit on the first differing byte:
/// every byte pair is folded into one accumulator, so the time taken depends
/// on the length only. The result is plain string equality.
pub fn constant_time_eq(a: &str, b: &str) -> (r: bool)
    ensures
        r == (a@ == b@),
{
    let x = a.as_bytes();
    let y = b.as_bytes();
    proof {
        encode_utf8_decode_utf8(a@);
        encode_utf8_decode_utf8(b@);
    }
    if x.len() != y.len() {
        return false;
    }
    let mut acc: u8 = 0;
    let n = x.len();
    for i in 0..n
        invariant
            n == x@.len(),
            n == y@.len(),
            acc == 0 <==> forall|j: int| 0 <= j < i ==> x@[j] == y@[j],
    {
        let p = x[i];
        let q = y[i];
        let next = acc | (p ^ q);
        assert(next == 0 <==> (acc == 0 && p == q)) by (bit_vector)
            requires
                next == acc | (p ^ q),
        ;
        acc = next;
    }
    if acc == 0 {
        assert(x@ =~= y@);
        true
    } else {
        false
    }
}

/// Who made an authenticated request: the id of the user key, 0 for the
/// master key.
#[derive(Debug, Clone, Copy, PartialEq, Eq, Structural)]
pub struct ApiKeyIdentity {
    pub key_id: u32,
}

/// What the gateway does with a request after looking at its key.
#[derive(Debug, PartialEq, Eq, Structural)]
pub enum AuthDecision {
    /// Let the request through, tagged with this identity.
    Accept(ApiKeyIdentity),
    /// No key, or an unknown one: an authentication error (401).
    Unauthorized,
    /// A known user key that is disabled: a permission error (403).
    KeyDisabled,
    /// A known user key past its expiry: a permission error (403).
    KeyExpired,
}

/// The decision on a request: the master key is always accepted (identity
/// 0); otherwise the user-key registry, when there is one, decides; a
/// missing or unknown key is refused as unauthenticated.
pub open spec fn auth_decision_at(
    presented: Option<&str>,
    master: &str,
    keys: Option<Seq<ApiKey>>,
    now: Timestamp,
) -> AuthDecision {
    match presented {
        None => AuthDecision::Unauthorized,
        Some(k) => if k@ == master@ {
            AuthDecision::Accept(ApiKeyIdentity { key_id: 0 })
        } else {
            match keys {
                None => AuthDecision::Unauthorized,
                Some(s) => match auth_result_at(s, k@, now) {
                    ApiKeyAuthResult::Valid { id, .. } => AuthDecision::Accept(
                        ApiKeyIdentity { key_id: id },
                    ),
                    ApiKeyAuthResult::Disabled => AuthDecision::KeyDisabled,
                    ApiKeyAuthResult::Expired => AuthDecision::KeyExpired,
                    ApiKeyAuthResult::NotFound => AuthDecision::Unauthorized,
                },
            }
        },
    }
}

/// The registry's keys, when there is a registry.
pub open spec fn registry_keys(manager: Option<&ApiKeyManager>) -> Option<Seq<ApiKey>> {
    match manager {
        Some(m) => Some(m.keys()),
        None => None,
    }
}

fn decide_from(presented: Option<&str>, master: &str, verdict: Option<ApiKeyAuthResult>) -> (r:
    AuthDecision)
    ensures
        r == (match presented {
            None => AuthDecision::Unauthorized,
            Some(k) => if k@ == master@ {
                AuthDecision::Accept(ApiKeyIdentity { key_id: 0 })
            } else {
                match verdict {
                    Some(ApiKeyAuthResult::Valid { id, .. }) => AuthDecision::Accept(
                        ApiKeyIdentity { key_id: id },
                    ),
                    Some(ApiKeyAuthResult::Disabled) => AuthDecision::KeyDisabled,
                    Some(ApiKeyAuthResult::Expired) => AuthDecision::KeyExpired,
                    _ => AuthDecision::Unauthorized,
                }
            },
        }),
{
    match presented {
        None => AuthDecision::Unauthorized,
        Some(k) => {
            if constant_time_eq(k, master) {
                AuthDecision::Accept(ApiKeyIdentity { key_id: 0 })
            } else {
                match verdict {
                    Some(ApiKeyAuthResult::Valid { id, .. }) => AuthDecision::Accept(
                        ApiKeyIdentity { key_id: id },
                    ),
                    Some(ApiKeyAuthResult::Disabled) => AuthDecision::KeyDisabled,
                    Some(ApiKeyAuthResult::Expired) => AuthDecision::KeyExpired,
                    _ => AuthDecision::Unauthorized,
                }
            }
        },
    }
}

/// Decides on a request at time `now` (see `auth_decision_at`). The user
/// registry is consulted only when the master key does not match.
pub fn decide_auth_at(
    presented: Option<&str>,
    master: &str,
    manager: Option<&ApiKeyManager>,
    now: Timestamp,
) -> (r: AuthDecision)
    ensures
        r == auth_decision_at(presented, master, registry_keys(manager), now),
{
    let verdict = match (presented, manager) {
        (Some(k), Some(m)) => {
            if constant_time_eq(k, master) {
                None
            } else {
                Some(m.authenticate_at(k, now))
            }
        },
        _ => None,
    };
    decide_from(presented, master, verdict)
}

/// Decides on a request now (see `auth_decision_at`); the clock is read
/// only when a known, enabled user key with an expiry has to be checked.
pub fn decide_auth(presented: Option<&str>, master: &str, manager: Option<&ApiKeyManager>) -> (r:
    AuthDecision)
    ensures
        exists|now: Timestamp| r == auth_decision_at(presented, master, registry_keys(manager), now),
{
    let verdict = match (presented, manager) {
        (Some(k), Some(m)) => {
            if constant_time_eq(k, master) {
                None
            } else {
                Some(m.authenticate(k))
            }
        },
        _ => None,
    };
    let r = decide_from(presented, master, verdict);
    proof {
        let any = Timestamp { secs: 0, nanos: 0 };
        match (presented, manager) {
            (Some(k), Some(m)) => {
                if k@ == master@ {
                    assert(r == auth_decision_at(presented, master, registry_keys(manager), any));
                } else {
                    let v = verdict.unwrap();
                    let w = choose|now: Timestamp| v == auth_result_at(m.keys(), k@, now);
                    assert(r == auth_decision_at(presented, master, registry_keys(manager), w));
                }
            },
            _ => {
                assert(r == auth_decision_at(presented, master, registry_keys(manager), any));
            },
        }
    }
    r
}

/// Whether a request to the admin API carries the admin key.
pub fn admin_key_accepted(presented: Option<&str>, admin_key: &str) -> (r: bool)
    ensures
        r == (match presented {
            Some(k) => k@ == admin_key@,
            None => false,
        }),
{
    match presented {
        Some(k) => constant_time_eq(k, admin_key),
        None => false,
    }
}


/// Law: the master key is accepted, as identity 0, whatever the registry
/// holds and whenever it is presented.
pub proof fn law_master_key_always_accepted(
    presented: &str,
    master: &str,
    keys: Option<Seq<ApiKey>>,
    now: Timestamp,
)
    requires
        presented@ == master@,
    ensures
        auth_decision_at(Some(presented), master, keys, now) == AuthDecision::Accept(
            ApiKeyIdentity { key_id: 0 },
        ),
{
}

/// Law: a request without a key is never accepted.
pub proof fn law_missing_key_refused(master: &str, keys: Option<Seq<ApiKey>>, now: Timestamp)
    ensures
        auth_decision_at(None, master, keys, now) == AuthDecision::Unauthorized,
{
}

/// Law: a user key lets a request through only when the first key with that
/// secret is enabled and unexpired, and the request then carries its id.
pub proof fn law_user_key_accepted_only_if_valid(
    presented: &str,
    master: &str,
    keys: Seq<ApiKey>,
    now: Timestamp,
    id: u32,
)
    requires
        presented@ != master@,
        auth_decision_at(Some(presented), master, Some(keys), now) == AuthDecision::Accept(
            ApiKeyIdentity { key_id: id },
        ),
    ensures
        crate::api_key::has_key(keys, presented@),
        keys[crate::api_key::first_with_key(keys, presented@)].valid_at(now),
        keys[crate::api_key::first_with_key(keys, presented@)].id == id,
{
}

} // verus!
