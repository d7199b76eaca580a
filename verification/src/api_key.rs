//! API keys for the users of the gateway and the registry that checks them.

use vstd::prelude::*;

use crate::auth::constant_time_eq;
use crate::time::{utc_now, Timestamp};

verus! {

/// The value a missing `enabled` flag takes when keys are read back.
pub fn default_enabled() -> (r: bool)
    ensures
        r,
{
    true
}

/// A lowercase hexadecimal digit.
pub open spec fn is_lower_hex(c: char) -> bool {
    (('0' as u32) <= (c as u32) && (c as u32) <= ('9' as u32)) || (('a' as u32) <= (c as u32) && (c
        as u32) <= ('f' as u32))
}

/// The simple (unhyphenated, lowercase) text of a random version-4 UUID.
pub open spec fn is_simple_uuid_v4(s: Seq<char>) -> bool {
    &&& s.len() == 32
    &&& forall|i: int| 0 <= i < 32 ==> #[trigger] is_lower_hex(s[i])
    &&& s[12] == '4'
}

/// The shape of a generated key: `sk-` followed by a simple UUID v4.
pub open spec fn is_generated_key(k: Seq<char>) -> bool {
    &&& k.len() == 35
    &&& k[0] == 's' && k[1] == 'k' && k[2] == '-'
    &&& is_simple_uuid_v4(k.subrange(3, 35))
}

/// A fresh random UUID in simple text form, from `uuid::Uuid::new_v4`
/// followed by `Uuid::simple` and its `Display`.
///
/// Trusted: the value is random. The crate writes the 16 random bytes as 32
/// lowercase hex digits, and `new_v4` fixes the version nibble (digit 12)
/// to 4; that shape is what the contract states.
#[verifier::external_body]
fn uuid_v4_simple() -> (s: String)
    ensures
        is_simple_uuid_v4(s@),
{
    uuid::Uuid::new_v4().simple().to_string()
}

/// A new random key: `sk-` followed by a simple UUID v4.
fn generate_api_key() -> (k: String)
    ensures
        is_generated_key(k@),
{
    let id = uuid_v4_simple();
    let mut k = String::from_str("sk-");
    k.append(id.as_str());
    proof {
        reveal_strlit("sk-");
        assert(k@.subrange(3, 35) =~= id@);
    }
    k
}

/// One API key.
#[derive(Debug)]
pub struct ApiKey {
    pub id: u32,
    pub key: String,
    pub name: String,
    pub enabled: bool,
    pub created_at: Timestamp,
    pub expires_at: Option<Timestamp>,
}

impl Clone for ApiKey {
    fn clone(&self) -> (r: Self)
        ensures
            r == *self,
    {
        ApiKey {
            id: self.id,
            key: self.key.clone(),
            name: self.name.clone(),
            enabled: self.enabled,
            created_at: self.created_at,
            expires_at: self.expires_at,
        }
    }
}

impl ApiKey {
    /// The key has an expiry and `now` is at or past it.
    pub open spec fn expired_at(self, now: Timestamp) -> bool {
        match self.expires_at {
            Some(exp) => !now.precedes(exp),
            None => false,
        }
    }

    /// The key is enabled and `now` lies before its expiry, if it has one.
    pub open spec fn valid_at(self, now: Timestamp) -> bool {
        self.enabled && match self.expires_at {
            Some(exp) => now.precedes(exp),
            None => true,
        }
    }

    /// Creates an enabled key with a fresh random secret, created now.
    pub fn new(id: u32, name: String, expires_at: Option<Timestamp>) -> (r: ApiKey)
        ensures
            r.id == id,
            r.name == name,
            r.enabled,
            r.expires_at == expires_at,
            is_generated_key(r.key@),
            r.created_at.nanos < 1_000_000_000,
    {
        ApiKey { id, key: generate_api_key(), name, enabled: true, created_at: utc_now(), expires_at }
    }

    /// Whether the key is usable at `now`.
    pub fn is_valid_at(&self, now: Timestamp) -> (r: bool)
        ensures
            r == self.valid_at(now),
    {
        if !self.enabled {
            return false;
        }
        match self.expires_at {
            Some(exp) => now.is_before(&exp),
            None => true,
        }
    }

    /// Whether the key is usable now (clock read only for an enabled key
    /// with an expiry).
    pub fn is_valid(&self) -> (r: bool)
        ensures
            exists|now: Timestamp| r == self.valid_at(now),
            !self.enabled ==> !r,
            self.enabled && self.expires_at is None ==> r,
    {
        if !self.enabled {
            proof {
                assert(!self.valid_at(Timestamp { secs: 0, nanos: 0 }));
            }
            return false;
        }
        match self.expires_at {
            Some(exp) => {
                let now = utc_now();
                let r = now.is_before(&exp);
                proof {
                    assert(r == self.valid_at(now));
                }
                r
            },
            None => {
                proof {
                    assert(self.valid_at(Timestamp { secs: 0, nanos: 0 }));
                }
                true
            },
        }
    }

    /// Whether the key has expired at `now`.
    pub fn is_expired_at(&self, now: Timestamp) -> (r: bool)
        ensures
            r == self.expired_at(now),
    {
        match self.expires_at {
            Some(exp) => !now.is_before(&exp),
            None => false,
        }
    }

    /// Whether the key has expired now (clock read only for a key with an
    /// expiry).
    pub fn is_expired(&self) -> (r: bool)
        ensures
            exists|now: Timestamp| r == self.expired_at(now),
            self.expires_at is None ==> !r,
    {
        match self.expires_at {
            Some(exp) => {
                let now = utc_now();
                let r = !now.is_before(&exp);
                proof {
                    assert(r == self.expired_at(now));
                }
                r
            },
            None => {
                proof {
                    assert(!self.expired_at(Timestamp { secs: 0, nanos: 0 }));
                }
                false
            },
        }
    }
}

/// The outcome of checking a presented key.
#[derive(Debug)]
pub enum ApiKeyAuthResult {
    /// The key is known, enabled and not expired.
    Valid { id: u32, name: String },
    /// The key is known but disabled.
    Disabled,
    /// The key is known and enabled but past its expiry.
    Expired,
    /// No key has this secret.
    NotFound,
}

/// Some key has secret `key`.
pub open spec fn has_key(s: Seq<ApiKey>, key: Seq<char>) -> bool {
    exists|i: int| 0 <= i < s.len() && #[trigger] s[i].key@ == key
}

/// `i` is the position of the first key with secret `key`.
pub open spec fn is_first_with_key(s: Seq<ApiKey>, key: Seq<char>, i: int) -> bool {
    &&& 0 <= i < s.len()
    &&& s[i].key@ == key
    &&& forall|j: int| 0 <= j < i ==> #[trigger] s[j].key@ != key
}

/// The position of the first key with secret `key` (meaningful when
/// `has_key`).
pub open spec fn first_with_key(s: Seq<ApiKey>, key: Seq<char>) -> int {
    choose|i: int| is_first_with_key(s, key, i)
}

/// The verdict on a presented secret at time `now`: the first key with that
/// secret decides; being disabled is reported before being expired.
pub open spec fn auth_result_at(s: Seq<ApiKey>, key: Seq<char>, now: Timestamp) -> ApiKeyAuthResult {
    if has_key(s, key) {
        let k = s[first_with_key(s, key)];
        if !k.enabled {
            ApiKeyAuthResult::Disabled
        } else if k.expired_at(now) {
            ApiKeyAuthResult::Expired
        } else {
            ApiKeyAuthResult::Valid { id: k.id, name: k.name }
        }
    } else {
        ApiKeyAuthResult::NotFound
    }
}

/// Some key has id `id`.
pub open spec fn has_key_id(s: Seq<ApiKey>, id: u32) -> bool {
    exists|i: int| 0 <= i < s.len() && #[trigger] s[i].id == id
}

/// `i` is the position of the first key with id `id`.
pub open spec fn is_first_with_key_id(s: Seq<ApiKey>, id: u32, i: int) -> bool {
    &&& 0 <= i < s.len()
    &&& s[i].id == id
    &&& forall|j: int| 0 <= j < i ==> #[trigger] s[j].id != id
}

/// The position of the first key with id `id` (meaningful when
/// `has_key_id`).
pub open spec fn first_with_key_id(s: Seq<ApiKey>, id: u32) -> int {
    choose|i: int| is_first_with_key_id(s, id, i)
}

/// The largest key id, 0 for none.
pub open spec fn max_key_id(s: Seq<ApiKey>) -> u32
    decreases s.len(),
{
    if s.len() == 0 {
        0
    } else {
        let m = max_key_id(s.drop_last());
        if s.last().id > m {
            s.last().id
        } else {
            m
        }
    }
}

/// The predicate "key does not have id `id`".
pub open spec fn other_key_id(id: u32) -> spec_fn(ApiKey) -> bool {
    |k: ApiKey| k.id != id
}

/// A key after a partial update: each given field replaces the old one.
pub open spec fn updated_key(
    k: ApiKey,
    name: Option<String>,
    enabled: Option<bool>,
    expires_at: Option<Option<Timestamp>>,
) -> ApiKey {
    ApiKey {
        name: match name {
            Some(n) => n,
            None => k.name,
        },
        enabled: match enabled {
            Some(e) => e,
            None => k.enabled,
        },
        expires_at: match expires_at {
            Some(e) => e,
            None => k.expires_at,
        },
        ..k
    }
}

fn find_key(keys: &Vec<ApiKey>, key: &str) -> (r: Option<usize>)
    ensures
        match r {
            Some(k) => is_first_with_key(keys@, key@, k as int) && k == first_with_key(keys@, key@),
            None => !has_key(keys@, key@),
        },
{
    let n = keys.len();
    for k in 0..n
        invariant
            n == keys@.len(),
            forall|j: int| 0 <= j < k ==> #[trigger] keys@[j].key@ != key@,
    {
        if constant_time_eq(keys[k].key.as_str(), key) {
            proof {
                let w = first_with_key(keys@, key@);
                assert(is_first_with_key(keys@, key@, k as int));
                assert(is_first_with_key(keys@, key@, w));
            }
            return Some(k);
        }
    }
    None
}

fn find_key_id(keys: &Vec<ApiKey>, id: u32) -> (r: Option<usize>)
    ensures
        match r {
            Some(k) => is_first_with_key_id(keys@, id, k as int) && k == first_with_key_id(
                keys@,
                id,
            ),
            None => !has_key_id(keys@, id),
        },
{
    let n = keys.len();
    for k in 0..n
        invariant
            n == keys@.len(),
            forall|j: int| 0 <= j < k ==> #[trigger] keys@[j].id != id,
    {
        if keys[k].id == id {
            proof {
                let w = first_with_key_id(keys@, id);
                assert(is_first_with_key_id(keys@, id, k as int));
                assert(is_first_with_key_id(keys@, id, w));
            }
            return Some(k);
        }
    }
    None
}

/// The registry of API keys.
pub struct ApiKeyManager {
    keys: Vec<ApiKey>,
}

impl ApiKeyManager {
    /// The keys, in registry order.
    pub closed spec fn keys(&self) -> Seq<ApiKey> {
        self.keys@
    }

    /// Builds a registry from persisted keys.
    pub fn from_keys(keys: Vec<ApiKey>) -> (r: Self)
        ensures
            r.keys() == keys@,
    {
        ApiKeyManager { keys }
    }

    /// Checks a presented secret at time `now` (see `auth_result_at`).
    pub fn authenticate_at(&self, key: &str, now: Timestamp) -> (r: ApiKeyAuthResult)
        ensures
            r == auth_result_at(self.keys(), key@, now),
    {
        match find_key(&self.keys, key) {
            None => ApiKeyAuthResult::NotFound,
            Some(k) => {
                let api_key = &self.keys[k];
                if !api_key.enabled {
                    ApiKeyAuthResult::Disabled
                } else if api_key.is_expired_at(now) {
                    ApiKeyAuthResult::Expired
                } else {
                    ApiKeyAuthResult::Valid { id: api_key.id, name: api_key.name.clone() }
                }
            },
        }
    }

    /// Checks a presented secret now; the clock is read only for a known,
    /// enabled key that has an expiry.
    pub fn authenticate(&self, key: &str) -> (r: ApiKeyAuthResult)
        ensures
            exists|now: Timestamp| r == auth_result_at(self.keys(), key@, now),
    {
        let ghost any = Timestamp { secs: 0, nanos: 0 };
        match find_key(&self.keys, key) {
            None => {
                proof {
                    assert(auth_result_at(self.keys(), key@, any) == ApiKeyAuthResult::NotFound);
                }
                ApiKeyAuthResult::NotFound
            },
            Some(k) => {
                let api_key = &self.keys[k];
                if !api_key.enabled {
                    proof {
                        assert(auth_result_at(self.keys(), key@, any) == ApiKeyAuthResult::Disabled);
                    }
                    ApiKeyAuthResult::Disabled
                } else {
                    match api_key.expires_at {
                        Some(exp) => {
                            let now = utc_now();
                            let r = if !now.is_before(&exp) {
                                ApiKeyAuthResult::Expired
                            } else {
                                ApiKeyAuthResult::Valid {
                                    id: api_key.id,
                                    name: api_key.name.clone(),
                                }
                            };
                            proof {
                                assert(r == auth_result_at(self.keys(), key@, now));
                            }
                            r
                        },
                        None => {
                            let r = ApiKeyAuthResult::Valid {
                                id: api_key.id,
                                name: api_key.name.clone(),
                            };
                            proof {
                                assert(r == auth_result_at(self.keys(), key@, any));
                            }
                            r
                        },
                    }
                }
            },
        }
    }

    /// A snapshot of all keys.
    pub fn list(&self) -> (r: Vec<ApiKey>)
        ensures
            r@ == self.keys(),
    {
        let mut out: Vec<ApiKey> = Vec::new();
        let n = self.keys.len();
        for i in 0..n
            invariant
                n == self.keys@.len(),
                out@ == self.keys@.take(i as int),
        {
            out.push(self.keys[i].clone());
            proof {
                assert(out@ =~= self.keys@.take(i + 1));
            }
        }
        proof {
            assert(self.keys@.take(n as int) =~= self.keys@);
        }
        out
    }

    /// Creates an enabled key with a fresh secret under the id one above the
    /// largest id present (1 for an empty registry).
    pub fn create(&mut self, name: String, expires_at: Option<Timestamp>) -> (r: ApiKey)
        requires
            max_key_id(old(self).keys()) < u32::MAX,
        ensures
            r.id == max_key_id(old(self).keys()) + 1,
            r.name == name,
            r.enabled,
            r.expires_at == expires_at,
            is_generated_key(r.key@),
            final(self).keys() == old(self).keys().push(r),
    {
        let mut max_id: u32 = 0;
        let n = self.keys.len();
        for i in 0..n
            invariant
                n == self.keys@.len(),
                max_id == max_key_id(self.keys@.take(i as int)),
        {
            proof {
                assert(self.keys@.take(i + 1).drop_last() =~= self.keys@.take(i as int));
            }
            if self.keys[i].id > max_id {
                max_id = self.keys[i].id;
            }
        }
        proof {
            assert(self.keys@.take(n as int) =~= self.keys@);
        }
        let api_key = ApiKey::new(max_id + 1, name, expires_at);
        self.keys.push(api_key.clone());
        api_key
    }

    /// Partially updates the first key with id `id`; `None` when no key has
    /// that id. A `Some` field replaces the old value, `None` keeps it.
    pub fn update(
        &mut self,
        id: u32,
        name: Option<String>,
        enabled: Option<bool>,
        expires_at: Option<Option<Timestamp>>,
    ) -> (r: Option<ApiKey>)
        ensures
            r is None <==> !has_key_id(old(self).keys(), id),
            match r {
                None => final(self).keys() == old(self).keys(),
                Some(k) => {
                    let i = first_with_key_id(old(self).keys(), id);
                    &&& k == updated_key(old(self).keys()[i], name, enabled, expires_at)
                    &&& final(self).keys() == old(self).keys().update(i, k)
                },
            },
    {
        match find_key_id(&self.keys, id) {
            None => None,
            Some(k) => {
                let mut api_key = self.keys[k].clone();
                if let Some(n) = name {
                    api_key.name = n;
                }
                if let Some(e) = enabled {
                    api_key.enabled = e;
                }
                if let Some(e) = expires_at {
                    api_key.expires_at = e;
                }
                self.keys.set(k, api_key.clone());
                Some(api_key)
            },
        }
    }

    /// Removes every key with id `id`; `true` when one was removed.
    pub fn delete(&mut self, id: u32) -> (deleted: bool)
        ensures
            deleted == has_key_id(old(self).keys(), id),
            final(self).keys() == old(self).keys().filter(other_key_id(id)),
    {
        let len_before = self.keys.len();
        let mut kept: Vec<ApiKey> = Vec::new();
        for i in 0..len_before
            invariant
                len_before == self.keys@.len(),
                kept@ == self.keys@.take(i as int).filter(other_key_id(id)),
                kept@.len() <= i,
                kept@.len() == i <==> forall|j: int| 0 <= j < i ==> #[trigger] self.keys@[j].id != id,
        {
            proof {
                reveal_with_fuel(Seq::filter, 1);
                assert(self.keys@.take(i + 1).drop_last() =~= self.keys@.take(i as int));
            }
            if self.keys[i].id != id {
                kept.push(self.keys[i].clone());
            }
        }
        proof {
            assert(self.keys@.take(len_before as int) =~= self.keys@);
        }
        let deleted = kept.len() < len_before;
        self.keys = kept;
        deleted
    }
}


/// Law: a key is valid exactly when it is enabled and not expired.
pub proof fn law_valid_iff_enabled_and_unexpired(k: ApiKey, now: Timestamp)
    ensures
        k.valid_at(now) <==> k.enabled && !k.expired_at(now),
{
}

/// Law: checking a known secret reports `Valid` exactly when the first key
/// with that secret is valid at that moment, and then reports its id and
/// name.
pub proof fn law_authenticate_valid_iff_key_valid(s: Seq<ApiKey>, key: Seq<char>, now: Timestamp)
    requires
        has_key(s, key),
    ensures
        auth_result_at(s, key, now) is Valid <==> s[first_with_key(s, key)].valid_at(now),
        auth_result_at(s, key, now) is Valid ==> auth_result_at(s, key, now) == (
        ApiKeyAuthResult::Valid {
            id: s[first_with_key(s, key)].id,
            name: s[first_with_key(s, key)].name,
        }),
{
}

/// The largest key id is at least every key id.
pub proof fn lemma_max_key_id(s: Seq<ApiKey>, i: int)
    requires
        0 <= i < s.len(),
    ensures
        s[i].id <= max_key_id(s),
    decreases s.len(),
{
    if i < s.len() - 1 {
        lemma_max_key_id(s.drop_last(), i);
        assert(s.drop_last()[i] == s[i]);
    }
}

/// Law: a created key gets an id that no existing key has.
pub proof fn law_create_id_fresh(s: Seq<ApiKey>, i: int)
    requires
        0 <= i < s.len(),
        max_key_id(s) < u32::MAX,
    ensures
        s[i].id != max_key_id(s) + 1,
{
    lemma_max_key_id(s, i);
}


/// Law (delete): `delete(id)` keeps exactly the keys whose id differs from
/// `id`: such a key stays, a key with that id goes.
pub proof fn law_delete_keeps_exactly_other_key_ids(s: Seq<ApiKey>, id: u32, k: ApiKey)
    ensures
        s.filter(other_key_id(id)).contains(k) <==> s.contains(k) && k.id != id,
{
    crate::filter_facts::lemma_filter_contains_iff(s, other_key_id(id), k);
}

/// Law (delete keeps order): deleting an id that no key has leaves the
/// registry exactly as it was, in the same order.
pub proof fn law_delete_absent_key_id_keeps_registry(s: Seq<ApiKey>, id: u32)
    requires
        forall|i: int| 0 <= i < s.len() ==> #[trigger] s[i].id != id,
    ensures
        s.filter(other_key_id(id)) == s,
{
    crate::filter_facts::lemma_filter_keeps_all(s, other_key_id(id));
}

/// Law (delete keeps order): deleting from a registry extended by one key
/// gives the deletion from the shorter registry, followed by that key when
/// its id differs.
pub proof fn law_delete_keeps_registry_order(s: Seq<ApiKey>, x: ApiKey, id: u32)
    ensures
        s.push(x).filter(other_key_id(id)) == (if x.id != id {
            s.filter(other_key_id(id)).push(x)
        } else {
            s.filter(other_key_id(id))
        }),
{
    reveal_with_fuel(Seq::filter, 1);
    assert(s.push(x).drop_last() =~= s);
}

/// Law (partial update): every field given as `Some(v)` takes the value `v`,
/// every field given as `None` keeps its value, and id, secret and creation
/// time are never touched.
pub proof fn law_update_key_sets_exactly_the_given_fields(
    k: ApiKey,
    name: Option<String>,
    enabled: Option<bool>,
    expires_at: Option<Option<Timestamp>>,
)
    ensures
        ({
            let u = updated_key(k, name, enabled, expires_at);
            &&& name matches Some(v) ==> u.name == v
            &&& name is None ==> u.name == k.name
            &&& enabled matches Some(v) ==> u.enabled == v
            &&& enabled is None ==> u.enabled == k.enabled
            &&& expires_at matches Some(v) ==> u.expires_at == v
            &&& expires_at is None ==> u.expires_at == k.expires_at
            &&& u.id == k.id && u.key == k.key && u.created_at == k.created_at
        }),
{
}


/// Law: the largest key id of a non-empty registry is the id of one of its
/// keys; an empty registry has largest id 0.
pub proof fn law_max_key_id_is_a_key_id(s: Seq<ApiKey>)
    ensures
        s.len() == 0 ==> max_key_id(s) == 0,
        s.len() > 0 ==> exists|i: int| 0 <= i < s.len() && #[trigger] s[i].id == max_key_id(s),
    decreases s.len(),
{
    if s.len() > 0 {
        let rest = s.drop_last();
        law_max_key_id_is_a_key_id(rest);
        if s.last().id > max_key_id(rest) || rest.len() == 0 {
            assert(s[s.len() - 1].id == max_key_id(s));
        } else {
            let i = choose|i: int| 0 <= i < rest.len() && #[trigger] rest[i].id == max_key_id(rest);
            assert(s[i] == rest[i]);
        }
    }
}

/// Law (authentication outcomes): an unknown secret is `NotFound`; a known
/// secret whose first key is disabled is `Disabled`, whatever its expiry; an
/// enabled key at or past its expiry is `Expired`.
pub proof fn law_authenticate_outcomes(s: Seq<ApiKey>, key: Seq<char>, now: Timestamp)
    ensures
        (forall|i: int| 0 <= i < s.len() ==> #[trigger] s[i].key@ != key) ==> auth_result_at(
            s,
            key,
            now,
        ) is NotFound,
        has_key(s, key) && !s[first_with_key(s, key)].enabled ==> auth_result_at(s, key, now)
            is Disabled,
        has_key(s, key) && s[first_with_key(s, key)].enabled && s[first_with_key(
            s,
            key,
        )].expired_at(now) ==> auth_result_at(s, key, now) is Expired,
{
}

/// Law: a presented secret that some key has leads to the first such key,
/// which carries that secret, and no earlier key does.
pub proof fn law_first_with_key_finds_the_secret(s: Seq<ApiKey>, key: Seq<char>)
    requires
        has_key(s, key),
    ensures
        0 <= first_with_key(s, key) < s.len(),
        s[first_with_key(s, key)].key@ == key,
        forall|j: int| 0 <= j < first_with_key(s, key) ==> #[trigger] s[j].key@ != key,
{
    let i = first_key_witness(s, key);
}

proof fn first_key_witness(s: Seq<ApiKey>, key: Seq<char>) -> (i: int)
    requires
        has_key(s, key),
    ensures
        is_first_with_key(s, key, i),
    decreases s.len(),
{
    let rest = s.drop_last();
    if has_key(rest, key) {
        let k = first_key_witness(rest, key);
        assert forall|j: int| 0 <= j < k implies #[trigger] s[j].key@ != key by {
            assert(rest[j] == s[j]);
        }
        k
    } else {
        let w = choose|w: int| 0 <= w < s.len() && #[trigger] s[w].key@ == key;
        if w < s.len() - 1 {
            assert(rest[w].key@ == key);
        }
        assert forall|j: int| 0 <= j < s.len() - 1 implies #[trigger] s[j].key@ != key by {
            if s[j].key@ == key {
                assert(rest[j].key@ == key);
            }
        }
        s.len() - 1
    }
}


/// Law (expiry): a key without an expiry never expires; a key with expiry
/// `exp` is expired from `exp` on (at `exp` and every later instant) and not
/// at any instant before it.
pub proof fn law_expiry_starts_at_the_expiry_time(k: ApiKey, now: Timestamp)
    ensures
        k.expires_at is None ==> !k.expired_at(now),
        k.expires_at matches Some(exp) ==> k.expired_at(exp),
        k.expires_at matches Some(exp) ==> (now.precedes(exp) ==> !k.expired_at(now)),
        k.expires_at matches Some(exp) ==> (exp.precedes(now) ==> k.expired_at(now)),
{
}

} // verus!
