//! The proxy pool: CRUD over proxy entries, round-robin and sticky proxy
//! selection, binding rebalancing, and the bookkeeping of health checks.

use std::collections::HashMap;
use vstd::prelude::*;

use crate::binding::{law_rebalance_binds_exactly_eligible, law_rebalance_uses_available_proxies, rebalance_bindings, rebalanced};
use crate::health::{
    apply_round, checked_entry, lemma_round_fits_any_time, round_changes_availability,
    round_entry, round_fits, round_fits_at, round_flips, round_step,
};
use crate::time::{is_rfc3339_of_some_instant, utc_now_rfc3339};

verus! {

broadcast use vstd::std_specs::hash::group_hash_axioms;

/// One proxy of the pool.
#[derive(Debug)]
pub struct ProxyPoolEntry {
    pub id: u32,
    pub name: String,
    pub url: String,
    pub username: Option<String>,
    pub password: Option<String>,
    pub enabled: bool,
    pub healthy: bool,
    pub last_check_at: Option<String>,
    pub latency_ms: Option<u64>,
    pub consecutive_failures: u32,
}

fn clone_opt_string(o: &Option<String>) -> (r: Option<String>)
    ensures
        r == *o,
{
    match o {
        Some(s) => Some(s.clone()),
        None => None,
    }
}

impl Clone for ProxyPoolEntry {
    fn clone(&self) -> (r: Self)
        ensures
            r == *self,
    {
        ProxyPoolEntry {
            id: self.id,
            name: self.name.clone(),
            url: self.url.clone(),
            username: clone_opt_string(&self.username),
            password: clone_opt_string(&self.password),
            enabled: self.enabled,
            healthy: self.healthy,
            last_check_at: clone_opt_string(&self.last_check_at),
            latency_ms: self.latency_ms,
            consecutive_failures: self.consecutive_failures,
        }
    }
}

/// Where and how to reach a proxy: its URL and, when the entry has both a
/// user name and a password, those credentials.
#[derive(Debug)]
pub struct ProxyConfig {
    pub url: String,
    pub username: Option<String>,
    pub password: Option<String>,
}

/// The connection settings that an entry stands for: credentials are passed
/// on only when both the user name and the password are set.
pub open spec fn config_of(e: ProxyPoolEntry) -> ProxyConfig {
    if e.username is Some && e.password is Some {
        ProxyConfig { url: e.url, username: e.username, password: e.password }
    } else {
        ProxyConfig { url: e.url, username: None, password: None }
    }
}

impl ProxyPoolEntry {
    /// The connection settings of this entry (see `config_of`).
    pub fn proxy_config(&self) -> (r: ProxyConfig)
        ensures
            r == config_of(*self),
    {
        match (&self.username, &self.password) {
            (Some(u), Some(p)) => ProxyConfig {
                url: self.url.clone(),
                username: Some(u.clone()),
                password: Some(p.clone()),
            },
            _ => ProxyConfig { url: self.url.clone(), username: None, password: None },
        }
    }
}

/// Why the pool refused a request.
#[derive(Debug)]
pub enum ProxyPoolError {
    /// A proxy with this URL is already in the pool.
    DuplicateUrl { url: String },
}

/// The entry that `add` creates.
pub open spec fn new_entry(
    id: u32,
    name: String,
    url: String,
    username: Option<String>,
    password: Option<String>,
) -> ProxyPoolEntry {
    ProxyPoolEntry {
        id,
        name,
        url,
        username,
        password,
        enabled: true,
        healthy: true,
        last_check_at: None,
        latency_ms: None,
        consecutive_failures: 0,
    }
}

/// The id after `id` on a 32-bit counter that wraps around.
pub open spec fn id_after(id: u32) -> u32 {
    if id == u32::MAX {
        0
    } else {
        (id + 1) as u32
    }
}

/// The largest id among the entries, 0 for none.
pub open spec fn max_entry_id(s: Seq<ProxyPoolEntry>) -> u32
    decreases s.len(),
{
    if s.len() == 0 {
        0
    } else {
        let m = max_entry_id(s.drop_last());
        if s.last().id > m {
            s.last().id
        } else {
            m
        }
    }
}

/// Some entry carries URL `url`.
pub open spec fn has_url(s: Seq<ProxyPoolEntry>, url: Seq<char>) -> bool {
    exists|i: int| 0 <= i < s.len() && #[trigger] s[i].url@ == url
}

/// Some entry has id `id`.
pub open spec fn has_id(s: Seq<ProxyPoolEntry>, id: u32) -> bool {
    exists|i: int| 0 <= i < s.len() && #[trigger] s[i].id == id
}

/// `i` is the position of the first entry with id `id`.
pub open spec fn is_first_with_id(s: Seq<ProxyPoolEntry>, id: u32, i: int) -> bool {
    &&& 0 <= i < s.len()
    &&& s[i].id == id
    &&& forall|j: int| 0 <= j < i ==> #[trigger] s[j].id != id
}

/// The position of the first entry with id `id` (meaningful when `has_id`).
pub open spec fn first_with_id(s: Seq<ProxyPoolEntry>, id: u32) -> int {
    choose|i: int| is_first_with_id(s, id, i)
}

/// The predicate "entry does not have id `id`".
pub open spec fn other_id(id: u32) -> spec_fn(ProxyPoolEntry) -> bool {
    |e: ProxyPoolEntry| e.id != id
}

/// An entry after a partial update: each given field replaces the old one.
pub open spec fn updated_entry(
    e: ProxyPoolEntry,
    name: Option<String>,
    url: Option<String>,
    username: Option<Option<String>>,
    password: Option<Option<String>>,
) -> ProxyPoolEntry {
    ProxyPoolEntry {
        name: match name {
            Some(n) => n,
            None => e.name,
        },
        url: match url {
            Some(u) => u,
            None => e.url,
        },
        username: match username {
            Some(u) => u,
            None => e.username,
        },
        password: match password {
            Some(p) => p,
            None => e.password,
        },
        ..e
    }
}

/// Finds the first entry with id `id`.
fn find_id(entries: &Vec<ProxyPoolEntry>, id: u32) -> (r: Option<usize>)
    ensures
        match r {
            Some(k) => is_first_with_id(entries@, id, k as int) && k == first_with_id(entries@, id),
            None => !has_id(entries@, id),
        },
{
    let n = entries.len();
    for k in 0..n
        invariant
            n == entries@.len(),
            forall|j: int| 0 <= j < k ==> #[trigger] entries@[j].id != id,
    {
        if entries[k].id == id {
            proof {
                let w = first_with_id(entries@, id);
                assert(is_first_with_id(entries@, id, k as int));
                assert(is_first_with_id(entries@, id, w));
            }
            return Some(k);
        }
    }
    None
}

/// The predicate "entry is enabled and healthy", i.e. may serve traffic.
pub open spec fn usable() -> spec_fn(ProxyPoolEntry) -> bool {
    |e: ProxyPoolEntry| e.enabled && e.healthy
}

/// The usable entries, in pool order.
pub open spec fn usable_entries(s: Seq<ProxyPoolEntry>) -> Seq<ProxyPoolEntry> {
    s.filter(usable())
}

/// The ids of the usable entries, each once, in order of first appearance.
pub open spec fn usable_ids(s: Seq<ProxyPoolEntry>) -> Seq<u32>
    decreases s.len(),
{
    if s.len() == 0 {
        Seq::empty()
    } else {
        let r = usable_ids(s.drop_last());
        let e = s.last();
        if e.enabled && e.healthy && !r.contains(e.id) {
            r.push(e.id)
        } else {
            r
        }
    }
}

/// `i` is the position of the first usable entry with id `id`.
pub open spec fn is_first_usable_with_id(s: Seq<ProxyPoolEntry>, id: u32, i: int) -> bool {
    &&& 0 <= i < s.len()
    &&& s[i].id == id && s[i].enabled && s[i].healthy
    &&& forall|j: int|
        0 <= j < i ==> !(#[trigger] s[j].id == id && s[j].enabled && s[j].healthy)
}

/// Some usable entry has id `id`.
pub open spec fn has_usable_id(s: Seq<ProxyPoolEntry>, id: u32) -> bool {
    exists|i: int| 0 <= i < s.len() && #[trigger] s[i].id == id && s[i].enabled && s[i].healthy
}

/// The proxy that credential `c` is bound to, when that proxy is usable.
pub open spec fn sticky_proxy(s: Seq<ProxyPoolEntry>, bindings: Map<u64, u32>, c: u64) -> Option<
    ProxyConfig,
> {
    if bindings.contains_key(c) && has_usable_id(s, bindings[c]) {
        Some(config_of(s[choose|i: int| is_first_usable_with_id(s, bindings[c], i)]))
    } else {
        None
    }
}

/// The cursor value after `k` on a counter that wraps around.
pub open spec fn cursor_after(k: usize) -> usize {
    if k == usize::MAX {
        0
    } else {
        (k + 1) as usize
    }
}

/// The predicate "entry is enabled", i.e. is probed by background checks.
pub open spec fn enabled() -> spec_fn(ProxyPoolEntry) -> bool {
    |e: ProxyPoolEntry| e.enabled
}

/// The probe target of an entry: its id and connection settings.
pub open spec fn target_of() -> spec_fn(ProxyPoolEntry) -> (u32, ProxyConfig) {
    |e: ProxyPoolEntry| (e.id, config_of(e))
}

/// The probe targets of a background round: the enabled entries, in order.
pub open spec fn check_targets(s: Seq<ProxyPoolEntry>) -> Seq<(u32, ProxyConfig)> {
    s.filter(enabled()).map_values(target_of())
}

/// Applies a background round to `entries`; `None`, with `entries` in some
/// intermediate state, when a failure count would overflow.
fn run_round(
    entries: &mut Vec<ProxyPoolEntry>,
    results: &[(u32, bool, Option<u64>)],
    now: &String,
) -> (r: Option<bool>)
    ensures
        r is Some <==> round_fits_at(old(entries)@, results@, *now),
        match r {
            Some(changed) => {
                &&& final(entries)@ == apply_round(old(entries)@, results@, *now)
                &&& changed == round_changes_availability(old(entries)@, results@, *now)
            },
            None => true,
        },
{
    let ghost orig = entries@;
    let n = results.len();
    let mut changed = false;
    proof {
        assert(results@.subrange(0, n as int) =~= results@);
    }
    for i in 0..n
        invariant
            n == results@.len(),
            orig == old(entries)@,
            apply_round(entries@, results@.subrange(i as int, n as int), *now) == apply_round(
                orig,
                results@,
                *now,
            ),
            round_fits_at(entries@, results@.subrange(i as int, n as int), *now) == round_fits_at(
                orig,
                results@,
                *now,
            ),
            (changed || round_changes_availability(
                entries@,
                results@.subrange(i as int, n as int),
                *now,
            )) == round_changes_availability(orig, results@, *now),
    {
        let ghost cur = entries@;
        let ghost sub = results@.subrange(i as int, n as int);
        let r = results[i];
        proof {
            assert(sub[0] == r);
            assert(sub.drop_first() =~= results@.subrange(i + 1, n as int));
        }
        let (id, healthy, latency_ms) = r;
        match find_id(entries, id) {
            None => {},
            Some(k) => {
                let mut e = entries[k].clone();
                let ghost before = e;
                if healthy {
                    if !e.healthy {
                        changed = true;
                    }
                    e.healthy = true;
                    e.consecutive_failures = 0;
                } else {
                    if e.consecutive_failures == u32::MAX {
                        proof {
                            assert(!crate::health::step_fits(cur, r));
                            assert(!round_fits_at(cur, sub, *now));
                        }
                        return None;
                    }
                    e.consecutive_failures = e.consecutive_failures + 1;
                    if e.consecutive_failures >= 3 && e.healthy {
                        e.healthy = false;
                        changed = true;
                    }
                }
                e.latency_ms = latency_ms;
                e.last_check_at = Some(now.clone());
                proof {
                    assert(e == round_entry(before, healthy, latency_ms, *now));
                }
                entries.set(k, e);
            },
        }
        proof {
            assert(entries@ == round_step(cur, r, *now));
        }
    }
    proof {
        assert(results@.subrange(n as int, n as int) =~= Seq::<(u32, bool, Option<u64>)>::empty());
    }
    Some(changed)
}

/// The proxy pool. Bindings send a credential id to a proxy id.
pub struct ProxyPoolManager {
    entries: Vec<ProxyPoolEntry>,
    bindings: HashMap<u64, u32>,
    eligible_credentials: Vec<u64>,
    next_id: u32,
    cursor: usize,
}

impl ProxyPoolManager {
    /// The entries, in pool order.
    pub closed spec fn entries(&self) -> Seq<ProxyPoolEntry> {
        self.entries@
    }

    /// The sticky bindings, credential id to proxy id.
    pub closed spec fn bindings(&self) -> Map<u64, u32> {
        self.bindings@
    }

    /// The cached list of eligible credentials used after health checks.
    pub closed spec fn eligible(&self) -> Seq<u64> {
        self.eligible_credentials@
    }

    /// The id that the next added proxy receives.
    pub closed spec fn next_id(&self) -> u32 {
        self.next_id
    }

    /// The round-robin cursor.
    pub closed spec fn cursor(&self) -> usize {
        self.cursor
    }

    /// Builds a pool from persisted entries and bindings. The next id is one
    /// above the largest id present (1 for an empty pool).
    pub fn from_snapshot(entries: Vec<ProxyPoolEntry>, bindings: HashMap<u64, u32>) -> (r: Self)
        requires
            forall|i: int| 0 <= i < entries@.len() ==> #[trigger] entries@[i].id < u32::MAX,
        ensures
            r.entries() == entries@,
            r.bindings() == bindings@,
            r.eligible() == Seq::<u64>::empty(),
            r.cursor() == 0,
            r.next_id() == max_entry_id(entries@) + 1,
    {
        let mut max_id: u32 = 0;
        let n = entries.len();
        for i in 0..n
            invariant
                n == entries@.len(),
                max_id == max_entry_id(entries@.take(i as int)),
                forall|j: int| 0 <= j < i ==> entries@[j].id <= max_id,
                max_id == 0 || exists|j: int| 0 <= j < i && entries@[j].id == max_id,
        {
            proof {
                assert(entries@.take(i + 1).drop_last() =~= entries@.take(i as int));
            }
            if entries[i].id > max_id {
                max_id = entries[i].id;
            }
        }
        proof {
            assert(entries@.take(n as int) =~= entries@);
        }
        ProxyPoolManager {
            entries,
            bindings,
            eligible_credentials: Vec::new(),
            next_id: max_id + 1,
            cursor: 0,
        }
    }

    /// A snapshot of all entries.
    pub fn list(&self) -> (r: Vec<ProxyPoolEntry>)
        ensures
            r@ == self.entries(),
    {
        let mut out: Vec<ProxyPoolEntry> = Vec::new();
        let n = self.entries.len();
        for i in 0..n
            invariant
                n == self.entries@.len(),
                out@ == self.entries@.take(i as int),
        {
            out.push(self.entries[i].clone());
            proof {
                assert(out@ =~= self.entries@.take(i + 1));
            }
        }
        proof {
            assert(self.entries@.take(n as int) =~= self.entries@);
        }
        out
    }

    /// The number of proxies in the pool.
    pub fn count(&self) -> (r: usize)
        ensures
            r == self.entries().len(),
    {
        self.entries.len()
    }

    /// A snapshot of the bindings, credential id to proxy id.
    pub fn get_bindings(&self) -> (r: HashMap<u64, u32>)
        ensures
            r@ == self.bindings(),
    {
        self.bindings.clone()
    }

    /// Replaces the cached list of eligible credentials.
    pub fn update_eligible_credentials(&mut self, ids: Vec<u64>)
        ensures
            final(self).eligible() == ids@,
            final(self).entries() == old(self).entries(),
            final(self).bindings() == old(self).bindings(),
            final(self).next_id() == old(self).next_id(),
            final(self).cursor() == old(self).cursor(),
    {
        self.eligible_credentials = ids;
    }

    /// Adds a proxy, enabled and healthy, under the next id. The id counter
    /// advances (wrapping) even when the URL is refused as a duplicate.
    pub fn add(
        &mut self,
        name: String,
        url: String,
        username: Option<String>,
        password: Option<String>,
    ) -> (r: Result<ProxyPoolEntry, ProxyPoolError>)
        ensures
            final(self).next_id() == id_after(old(self).next_id()),
            final(self).bindings() == old(self).bindings(),
            final(self).eligible() == old(self).eligible(),
            final(self).cursor() == old(self).cursor(),
            has_url(old(self).entries(), url@) <==> r is Err,
            match r {
                Ok(e) => {
                    &&& e == new_entry(old(self).next_id(), name, url, username, password)
                    &&& final(self).entries() == old(self).entries().push(e)
                },
                Err(ProxyPoolError::DuplicateUrl { url: u }) => {
                    &&& u == url
                    &&& final(self).entries() == old(self).entries()
                },
            },
    {
        let id = self.next_id;
        self.next_id = if self.next_id == u32::MAX {
            0
        } else {
            self.next_id + 1
        };
        let entry = ProxyPoolEntry {
            id,
            name,
            url,
            username,
            password,
            enabled: true,
            healthy: true,
            last_check_at: None,
            latency_ms: None,
            consecutive_failures: 0,
        };
        let n = self.entries.len();
        for i in 0..n
            invariant
                n == self.entries@.len(),
                self.entries@ == old(self).entries@,
                self.bindings@ == old(self).bindings@,
                self.eligible_credentials@ == old(self).eligible_credentials@,
                self.cursor == old(self).cursor,
                self.next_id == id_after(old(self).next_id),
                entry == new_entry(old(self).next_id, name, url, username, password),
                forall|j: int| 0 <= j < i ==> self.entries@[j].url@ != entry.url@,
        {
            if self.entries[i].url == entry.url {
                return Err(ProxyPoolError::DuplicateUrl { url: entry.url });
            }
        }
        self.entries.push(entry.clone());
        Ok(entry)
    }

    /// Partially updates the first entry with id `id`; `None` when no entry
    /// has that id. A `Some` field replaces the old value, `None` keeps it.
    pub fn update(
        &mut self,
        id: u32,
        name: Option<String>,
        url: Option<String>,
        username: Option<Option<String>>,
        password: Option<Option<String>>,
    ) -> (r: Option<ProxyPoolEntry>)
        ensures
            final(self).bindings() == old(self).bindings(),
            final(self).eligible() == old(self).eligible(),
            final(self).next_id() == old(self).next_id(),
            final(self).cursor() == old(self).cursor(),
            r is None <==> !has_id(old(self).entries(), id),
            match r {
                None => final(self).entries() == old(self).entries(),
                Some(e) => {
                    let i = first_with_id(old(self).entries(), id);
                    &&& e == updated_entry(old(self).entries()[i], name, url, username, password)
                    &&& final(self).entries() == old(self).entries().update(i, e)
                },
            },
    {
        match find_id(&self.entries, id) {
            None => None,
            Some(k) => {
                let mut e = self.entries[k].clone();
                if let Some(n) = name {
                    e.name = n;
                }
                if let Some(u) = url {
                    e.url = u;
                }
                if let Some(u) = username {
                    e.username = u;
                }
                if let Some(p) = password {
                    e.password = p;
                }
                self.entries.set(k, e.clone());
                Some(e)
            },
        }
    }

    /// Removes every entry with id `id`; `true` when one was removed.
    pub fn delete(&mut self, id: u32) -> (removed: bool)
        ensures
            removed == has_id(old(self).entries(), id),
            final(self).entries() == old(self).entries().filter(other_id(id)),
            final(self).bindings() == old(self).bindings(),
            final(self).eligible() == old(self).eligible(),
            final(self).next_id() == old(self).next_id(),
            final(self).cursor() == old(self).cursor(),
    {
        let len_before = self.entries.len();
        let mut kept: Vec<ProxyPoolEntry> = Vec::new();
        for i in 0..len_before
            invariant
                len_before == self.entries@.len(),
                kept@ == self.entries@.take(i as int).filter(other_id(id)),
                kept@.len() <= i,
                kept@.len() == i <==> forall|j: int| 0 <= j < i ==> #[trigger] self.entries@[j].id
                    != id,
        {
            proof {
                reveal_with_fuel(Seq::filter, 1);
                assert(self.entries@.take(i + 1).drop_last() =~= self.entries@.take(i as int));
            }
            if self.entries[i].id != id {
                kept.push(self.entries[i].clone());
            }
        }
        proof {
            assert(self.entries@.take(len_before as int) =~= self.entries@);
        }
        let removed = kept.len() < len_before;
        self.entries = kept;
        removed
    }

    /// Round-robin choice among the usable entries, the fallback when a
    /// credential has no sticky proxy. The cursor advances (wrapping) only
    /// when some entry is usable.
    pub fn next_proxy(&mut self) -> (r: Option<ProxyConfig>)
        ensures
            final(self).entries() == old(self).entries(),
            final(self).bindings() == old(self).bindings(),
            final(self).eligible() == old(self).eligible(),
            final(self).next_id() == old(self).next_id(),
            ({
                let av = usable_entries(old(self).entries());
                if av.len() == 0 {
                    &&& r is None
                    &&& final(self).cursor() == old(self).cursor()
                } else {
                    &&& r == Some(config_of(av[(old(self).cursor() as int) % (av.len() as int)]))
                    &&& final(self).cursor() == cursor_after(old(self).cursor())
                }
            }),
    {
        let mut available: Vec<ProxyPoolEntry> = Vec::new();
        let n = self.entries.len();
        for i in 0..n
            invariant
                n == self.entries@.len(),
                available@ == self.entries@.take(i as int).filter(usable()),
        {
            proof {
                reveal_with_fuel(Seq::filter, 1);
                assert(self.entries@.take(i + 1).drop_last() =~= self.entries@.take(i as int));
            }
            if self.entries[i].enabled && self.entries[i].healthy {
                available.push(self.entries[i].clone());
            }
        }
        proof {
            assert(self.entries@.take(n as int) =~= self.entries@);
        }
        if available.len() == 0 {
            return None;
        }
        let idx = self.cursor % available.len();
        self.cursor = if self.cursor == usize::MAX {
            0
        } else {
            self.cursor + 1
        };
        Some(available[idx].proxy_config())
    }

    /// The sticky proxy of a credential: the proxy it is bound to, provided
    /// that proxy is enabled and healthy; otherwise `None`, and the caller
    /// falls back to round-robin.
    pub fn next_proxy_for(&self, credential_id: u64) -> (r: Option<ProxyConfig>)
        ensures
            r == sticky_proxy(self.entries(), self.bindings(), credential_id),
    {
        let proxy_id = match self.bindings.get(&credential_id) {
            Some(p) => *p,
            None => return None,
        };
        let n = self.entries.len();
        for i in 0..n
            invariant
                n == self.entries@.len(),
                self.bindings@.contains_key(credential_id),
                self.bindings@[credential_id] == proxy_id,
                forall|j: int|
                    0 <= j < i ==> !(#[trigger] self.entries@[j].id == proxy_id
                        && self.entries@[j].enabled && self.entries@[j].healthy),
        {
            let e = &self.entries[i];
            if e.id == proxy_id && e.enabled && e.healthy {
                proof {
                    let s = self.entries@;
                    let w = choose|k: int| is_first_usable_with_id(s, proxy_id, k);
                    assert(is_first_usable_with_id(s, proxy_id, i as int));
                    if w != i {
                        assert(is_first_usable_with_id(s, proxy_id, w));
                    }
                }
                return Some(e.proxy_config());
            }
        }
        None
    }

    /// The ids of the usable entries, each once, in pool order.
    fn collect_usable_ids(&self) -> (r: Vec<u32>)
        ensures
            r@ == usable_ids(self.entries()),
            r@.no_duplicates(),
    {
        let mut ids: Vec<u32> = Vec::new();
        let n = self.entries.len();
        for i in 0..n
            invariant
                n == self.entries@.len(),
                ids@ == usable_ids(self.entries@.take(i as int)),
                ids@.no_duplicates(),
        {
            proof {
                assert(self.entries@.take(i + 1).drop_last() =~= self.entries@.take(i as int));
            }
            let e = &self.entries[i];
            if e.enabled && e.healthy {
                let mut seen = false;
                let m = ids.len();
                for k in 0..m
                    invariant
                        m == ids@.len(),
                        seen <==> exists|j: int| 0 <= j < k && ids@[j] == e.id,
                {
                    if ids[k] == e.id {
                        seen = true;
                    }
                }
                if !seen {
                    ids.push(e.id);
                }
            }
        }
        proof {
            assert(self.entries@.take(n as int) =~= self.entries@);
        }
        ids
    }

    /// Rebalances the bindings against the usable proxies: drops bindings
    /// whose credential is no longer eligible or whose proxy is unusable
    /// (all of them when no proxy is usable), then binds every unbound
    /// eligible credential, in list order, to the least-loaded usable proxy
    /// (smallest id on ties).
    pub fn rebalance(&mut self, eligible_credential_ids: &[u64])
        ensures
            final(self).bindings() == rebalanced(
                old(self).bindings(),
                usable_ids(old(self).entries()),
                eligible_credential_ids@,
            ),
            final(self).entries() == old(self).entries(),
            final(self).eligible() == old(self).eligible(),
            final(self).next_id() == old(self).next_id(),
            final(self).cursor() == old(self).cursor(),
    {
        let available = self.collect_usable_ids();
        let fresh = rebalance_bindings(&self.bindings, &available, eligible_credential_ids);
        self.bindings = fresh;
    }

    /// The proxies that a background round probes: every enabled entry, in
    /// pool order, with its id and connection settings.
    pub fn health_check_targets(&self) -> (r: Vec<(u32, ProxyConfig)>)
        ensures
            r@ == check_targets(self.entries()),
    {
        let mut out: Vec<(u32, ProxyConfig)> = Vec::new();
        let n = self.entries.len();
        proof {
            reveal_with_fuel(Seq::filter, 1);
            assert(out@ =~= check_targets(self.entries@.take(0)));
        }
        for i in 0..n
            invariant
                n == self.entries@.len(),
                out@ == check_targets(self.entries@.take(i as int)),
        {
            let e = &self.entries[i];
            let ghost f0 = self.entries@.take(i as int).filter(enabled());
            let ghost f1 = self.entries@.take(i + 1).filter(enabled());
            proof {
                reveal_with_fuel(Seq::filter, 1);
                assert(self.entries@.take(i + 1).drop_last() =~= self.entries@.take(i as int));
                assert(self.entries@.take(i + 1).last() == *e);
            }
            if e.enabled {
                out.push((e.id, e.proxy_config()));
                proof {
                    assert(f1 == f0.push(*e));
                    assert(f1.map_values(target_of()) =~= f0.map_values(target_of()).push(
                        (e.id, config_of(*e)),
                    ));
                }
            } else {
                proof {
                    assert(f1 == f0);
                }
            }
        }
        proof {
            assert(self.entries@.take(n as int) =~= self.entries@);
        }
        out
    }

    /// The connection settings of the first entry with id `id`, which a
    /// single check probes; `None` when no entry has that id.
    pub fn probe_target(&self, id: u32) -> (r: Option<ProxyConfig>)
        ensures
            r == (if has_id(self.entries(), id) {
                Some(config_of(self.entries()[first_with_id(self.entries(), id)]))
            } else {
                None
            }),
    {
        match find_id(&self.entries, id) {
            None => None,
            Some(k) => Some(self.entries[k].proxy_config()),
        }
    }

    /// Records the outcome of a single check of the first entry with id
    /// `id`, made at `now`: health as found, the latency, the time, and the
    /// failure count reset or raised by one. `None` when no entry has the id.
    pub fn record_check_at(
        &mut self,
        id: u32,
        healthy: bool,
        latency_ms: Option<u64>,
        now: String,
    ) -> (r: Option<ProxyPoolEntry>)
        requires
            healthy || !has_id(old(self).entries(), id) || old(self).entries()[first_with_id(
                old(self).entries(),
                id,
            )].consecutive_failures < u32::MAX,
        ensures
            final(self).bindings() == old(self).bindings(),
            final(self).eligible() == old(self).eligible(),
            final(self).next_id() == old(self).next_id(),
            final(self).cursor() == old(self).cursor(),
            r is None <==> !has_id(old(self).entries(), id),
            match r {
                None => final(self).entries() == old(self).entries(),
                Some(e) => {
                    let i = first_with_id(old(self).entries(), id);
                    &&& e == checked_entry(old(self).entries()[i], healthy, latency_ms, now)
                    &&& final(self).entries() == old(self).entries().update(i, e)
                },
            },
    {
        match find_id(&self.entries, id) {
            None => None,
            Some(k) => {
                let mut e = self.entries[k].clone();
                e.healthy = healthy;
                e.latency_ms = latency_ms;
                e.last_check_at = Some(now);
                if healthy {
                    e.consecutive_failures = 0;
                } else {
                    e.consecutive_failures = e.consecutive_failures + 1;
                }
                self.entries.set(k, e.clone());
                Some(e)
            },
        }
    }

    /// Records the outcome of a single check made now (see
    /// `record_check_at`); the check time is read from the clock.
    pub fn record_check(&mut self, id: u32, healthy: bool, latency_ms: Option<u64>) -> (r: Option<
        ProxyPoolEntry,
    >)
        requires
            healthy || !has_id(old(self).entries(), id) || old(self).entries()[first_with_id(
                old(self).entries(),
                id,
            )].consecutive_failures < u32::MAX,
        ensures
            final(self).bindings() == old(self).bindings(),
            final(self).eligible() == old(self).eligible(),
            final(self).next_id() == old(self).next_id(),
            final(self).cursor() == old(self).cursor(),
            r is None <==> !has_id(old(self).entries(), id),
            match r {
                None => final(self).entries() == old(self).entries(),
                Some(e) => {
                    let i = first_with_id(old(self).entries(), id);
                    &&& exists|now: String|
                        is_rfc3339_of_some_instant(now) && e == checked_entry(
                            old(self).entries()[i],
                            healthy,
                            latency_ms,
                            now,
                        )
                    &&& final(self).entries() == old(self).entries().update(i, e)
                },
            },
    {
        let now = utc_now_rfc3339();
        self.record_check_at(id, healthy, latency_ms, now)
    }

    /// Whether a background round with these results can be applied
    /// without a failure count overflowing.
    pub fn health_round_fits(&self, results: &[(u32, bool, Option<u64>)]) -> (r: bool)
        ensures
            r == round_fits(self.entries(), results@),
    {
        let mut scratch = self.list();
        let probe = String::new();
        let outcome = run_round(&mut scratch, results, &probe);
        proof {
            if outcome is Some {
                lemma_round_fits_any_time(self.entries@, results@, probe);
            }
        }
        outcome.is_some()
    }

    /// Applies the results of a background round checked at `now`, in
    /// order, each to the first entry with its id: a success restores the
    /// proxy and clears its failure count; a failure raises the count and
    /// marks the proxy unhealthy when the count reaches three. When some
    /// proxy changed availability and eligible credentials are cached, the
    /// bindings are rebalanced against them. Returns whether availability
    /// changed.
    pub fn apply_health_results_at(
        &mut self,
        results: &[(u32, bool, Option<u64>)],
        now: String,
    ) -> (changed: bool)
        requires
            round_fits(old(self).entries(), results@),
        ensures
            final(self).entries() == apply_round(old(self).entries(), results@, now),
            changed == round_changes_availability(old(self).entries(), results@, now),
            final(self).bindings() == (if changed && old(self).eligible().len() > 0 {
                rebalanced(
                    old(self).bindings(),
                    usable_ids(final(self).entries()),
                    old(self).eligible(),
                )
            } else {
                old(self).bindings()
            }),
            final(self).eligible() == old(self).eligible(),
            final(self).next_id() == old(self).next_id(),
            final(self).cursor() == old(self).cursor(),
    {
        proof {
            assert(round_fits_at(self.entries@, results@, now));
        }
        let outcome = run_round(&mut self.entries, results, &now);
        let changed = match outcome {
            Some(c) => c,
            None => false,
        };
        if changed && self.eligible_credentials.len() > 0 {
            let eligible = self.eligible_credentials.clone();
            self.rebalance(eligible.as_slice());
        }
        changed
    }

    /// Applies the results of a background round checked now (see
    /// `apply_health_results_at`); the check time is read from the clock.
    pub fn apply_health_results(&mut self, results: &[(u32, bool, Option<u64>)]) -> (changed: bool)
        requires
            round_fits(old(self).entries(), results@),
        ensures
            exists|now: String|
                {
                    &&& is_rfc3339_of_some_instant(now)
                    &&& final(self).entries() == apply_round(old(self).entries(), results@, now)
                    &&& changed == round_changes_availability(old(self).entries(), results@, now)
                },
            final(self).bindings() == (if changed && old(self).eligible().len() > 0 {
                rebalanced(
                    old(self).bindings(),
                    usable_ids(final(self).entries()),
                    old(self).eligible(),
                )
            } else {
                old(self).bindings()
            }),
            final(self).eligible() == old(self).eligible(),
            final(self).next_id() == old(self).next_id(),
            final(self).cursor() == old(self).cursor(),
    {
        let now = utc_now_rfc3339();
        self.apply_health_results_at(results, now)
    }

    /// Enables or disables the first entry with id `id`; `false` when no
    /// entry has that id.
    pub fn set_enabled(&mut self, id: u32, enabled: bool) -> (found: bool)
        ensures
            found == has_id(old(self).entries(), id),
            final(self).bindings() == old(self).bindings(),
            final(self).eligible() == old(self).eligible(),
            final(self).next_id() == old(self).next_id(),
            final(self).cursor() == old(self).cursor(),
            found ==> final(self).entries() == old(self).entries().update(
                first_with_id(old(self).entries(), id),
                ProxyPoolEntry { enabled, ..old(self).entries()[first_with_id(old(self).entries(), id)] },
            ),
            !found ==> final(self).entries() == old(self).entries(),
    {
        match find_id(&self.entries, id) {
            None => false,
            Some(k) => {
                let mut e = self.entries[k].clone();
                e.enabled = enabled;
                self.entries.set(k, e);
                true
            },
        }
    }
}

/// A proxy id is among the usable ids exactly when some usable entry has it.
pub proof fn lemma_usable_ids_contains(s: Seq<ProxyPoolEntry>, p: u32)
    ensures
        usable_ids(s).contains(p) <==> has_usable_id(s, p),
    decreases s.len(),
{
    if s.len() > 0 {
        let rest = s.drop_last();
        lemma_usable_ids_contains(rest, p);
        let r = usable_ids(rest);
        let e = s.last();
        let here = e.enabled && e.healthy && e.id == p;
        assert(has_usable_id(s, p) <==> has_usable_id(rest, p) || here) by {
            if has_usable_id(rest, p) {
                let i = choose|i: int|
                    0 <= i < rest.len() && #[trigger] rest[i].id == p && rest[i].enabled
                        && rest[i].healthy;
                assert(s[i] == rest[i]);
            }
            if here {
                assert(s[s.len() - 1] == e);
            }
            if has_usable_id(s, p) && !here {
                let i = choose|i: int|
                    0 <= i < s.len() && #[trigger] s[i].id == p && s[i].enabled && s[i].healthy;
                if i < s.len() - 1 {
                    assert(rest[i] == s[i]);
                } else {
                    assert(s[i] == e);
                }
            }
        }
        if e.enabled && e.healthy && !r.contains(e.id) {
            let u = r.push(e.id);
            assert(usable_ids(s) == u);
            assert(u.contains(p) <==> r.contains(p) || p == e.id) by {
                if u.contains(p) {
                    let k = choose|k: int| 0 <= k < u.len() && u[k] == p;
                    if k < r.len() {
                        assert(r[k] == p);
                    }
                }
                if r.contains(p) {
                    let k = choose|k: int| 0 <= k < r.len() && r[k] == p;
                    assert(u[k] == p);
                }
                if p == e.id {
                    assert(u[r.len() as int] == p);
                }
            }
        } else {
            assert(usable_ids(s) == r);
        }
    }
}

/// The largest id is at least every id.
pub proof fn lemma_max_entry_id(s: Seq<ProxyPoolEntry>, i: int)
    requires
        0 <= i < s.len(),
    ensures
        s[i].id <= max_entry_id(s),
    decreases s.len(),
{
    if i < s.len() - 1 {
        lemma_max_entry_id(s.drop_last(), i);
        assert(s.drop_last()[i] == s[i]);
    }
}

/// Law: a pool built from persisted entries hands out, as its next id, an
/// id above every id already present (as long as none is the largest u32).
pub proof fn law_snapshot_next_id_fresh(pool: ProxyPoolManager, entries: Seq<ProxyPoolEntry>, i: int)
    requires
        pool.entries() == entries,
        pool.next_id() == max_entry_id(entries) + 1,
        0 <= i < entries.len(),
    ensures
        entries[i].id < pool.next_id(),
{
    lemma_max_entry_id(entries, i);
}

/// Law: adding a proxy never creates a second entry with the same URL; if
/// the URLs were pairwise distinct before an add, they still are after it.
pub proof fn law_add_keeps_urls_distinct(
    before: Seq<ProxyPoolEntry>,
    added: ProxyPoolEntry,
)
    requires
        forall|i: int, j: int|
            0 <= i < j < before.len() ==> #[trigger] before[i].url@ != #[trigger] before[j].url@,
        !has_url(before, added.url@),
    ensures
        forall|i: int, j: int|
            0 <= i < j < before.push(added).len() ==> #[trigger] before.push(added)[i].url@
                != #[trigger] before.push(added)[j].url@,
{
    let after = before.push(added);
    assert forall|i: int, j: int| 0 <= i < j < after.len() implies #[trigger] after[i].url@
        != #[trigger] after[j].url@ by {
        if j == before.len() {
            assert(after[i] == before[i]);
            assert(before[i].url@ != added.url@);
        } else {
            assert(after[i] == before[i]);
            assert(after[j] == before[j]);
        }
    }
}

/// Law: after a delete no entry with the deleted id remains.
pub proof fn law_delete_removes_id(before: Seq<ProxyPoolEntry>, id: u32)
    ensures
        !has_id(before.filter(other_id(id)), id),
{
    broadcast use vstd::seq_lib::group_filter_ensures;

    let after = before.filter(other_id(id));
    if has_id(after, id) {
        let i = choose|i: int| 0 <= i < after.len() && #[trigger] after[i].id == id;
        assert(other_id(id)(after[i]));
    }
}

/// Law (stickiness is total after a rebalance): when some proxy is usable,
/// every credential of the eligible list gets a sticky proxy from the
/// rebalanced bindings.
pub proof fn law_rebalance_gives_sticky_proxy(
    entries: Seq<ProxyPoolEntry>,
    old_bindings: Map<u64, u32>,
    eligible: Seq<u64>,
    c: u64,
)
    requires
        old_bindings.dom().finite(),
        usable_ids(entries).len() > 0,
        eligible.contains(c),
    ensures
        sticky_proxy(entries, rebalanced(old_bindings, usable_ids(entries), eligible), c) is Some,
{
    let avail = usable_ids(entries);
    let b = rebalanced(old_bindings, avail, eligible);
    law_rebalance_binds_exactly_eligible(old_bindings, avail, eligible);
    assert(b.contains_key(c));
    law_rebalance_uses_available_proxies(old_bindings, avail, eligible, c);
    lemma_usable_ids_contains(entries, b[c]);
}

/// Law: a sticky proxy is always enabled and healthy: it is the first usable
/// entry with the bound id.
pub proof fn law_sticky_proxy_is_usable(entries: Seq<ProxyPoolEntry>, bindings: Map<u64, u32>, c: u64)
    requires
        sticky_proxy(entries, bindings, c) is Some,
    ensures
        bindings.contains_key(c),
        exists|i: int|
            is_first_usable_with_id(entries, bindings[c], i) && sticky_proxy(entries, bindings, c)
                == Some(config_of(entries[i])),
{
    let p = bindings[c];
    let w = choose|w: int| 0 <= w < entries.len() && #[trigger] entries[w].id == p
        && entries[w].enabled && entries[w].healthy;
    let i = first_usable_witness(entries, p, w);
    let k = choose|k: int| is_first_usable_with_id(entries, p, k);
    assert(is_first_usable_with_id(entries, p, k));
}

proof fn first_usable_witness(s: Seq<ProxyPoolEntry>, p: u32, w: int) -> (i: int)
    requires
        0 <= w < s.len(),
        s[w].id == p && s[w].enabled && s[w].healthy,
    ensures
        is_first_usable_with_id(s, p, i),
    decreases w,
{
    if exists|j: int| 0 <= j < w && #[trigger] s[j].id == p && s[j].enabled && s[j].healthy {
        let j = choose|j: int| 0 <= j < w && #[trigger] s[j].id == p && s[j].enabled && s[j].healthy;
        first_usable_witness(s, p, j)
    } else {
        w
    }
}

/// Law (round robin): on an unchanged pool, each selection takes the usable
/// entry after the one the previous selection took, wrapping from the last
/// usable entry to the first (while the cursor does not itself wrap).
pub proof fn law_round_robin_next_in_turn(entries: Seq<ProxyPoolEntry>, cursor: usize)
    requires
        usable_entries(entries).len() > 0,
        cursor < usize::MAX,
    ensures
        (cursor_after(cursor) as int) % (usable_entries(entries).len() as int) == ((cursor as int)
            % (usable_entries(entries).len() as int) + 1) % (usable_entries(entries).len() as int),
{
    let n = usable_entries(entries).len() as int;
    vstd::arithmetic::div_mod::lemma_add_mod_noop_right(1, cursor as int, n);
}


/// Law (round-robin candidates): an entry takes part in the round robin
/// exactly when it is in the pool, enabled and healthy, whatever its failure
/// count, latency or last check.
pub proof fn law_round_robin_candidates_are_enabled_and_healthy(
    s: Seq<ProxyPoolEntry>,
    e: ProxyPoolEntry,
)
    ensures
        usable_entries(s).contains(e) <==> s.contains(e) && e.enabled && e.healthy,
{
    crate::filter_facts::lemma_filter_contains_iff(s, usable(), e);
}

/// Law (round-robin order): when every entry is enabled and healthy, all
/// of them take part in the round robin, in pool order; `next_proxy` then
/// picks entry `cursor % len` of the pool itself.
pub proof fn law_round_robin_over_whole_pool_when_all_usable(s: Seq<ProxyPoolEntry>)
    requires
        forall|i: int| 0 <= i < s.len() ==> #[trigger] s[i].enabled && s[i].healthy,
    ensures
        usable_entries(s) == s,
{
    crate::filter_facts::lemma_filter_keeps_all(s, usable());
}

/// Law (duplicate URLs): `add` refuses a URL exactly when some entry has an
/// equal URL. An entry whose URL equals it makes `add` refuse; when every
/// entry's URL differs from it, `add` accepts.
pub proof fn law_add_refuses_exactly_equal_urls(s: Seq<ProxyPoolEntry>, url: Seq<char>)
    ensures
        (forall|i: int| 0 <= i < s.len() ==> #[trigger] s[i].url@ != url) ==> !has_url(s, url),
        forall|i: int| 0 <= i < s.len() && #[trigger] s[i].url@ == url ==> has_url(s, url),
{
}

/// Law (partial update): every field given as `Some(v)` takes the value `v`,
/// every field given as `None` keeps its value, and id, state and health
/// data are never touched.
pub proof fn law_update_sets_exactly_the_given_fields(
    e: ProxyPoolEntry,
    name: Option<String>,
    url: Option<String>,
    username: Option<Option<String>>,
    password: Option<Option<String>>,
)
    ensures
        ({
            let u = updated_entry(e, name, url, username, password);
            &&& name matches Some(v) ==> u.name == v
            &&& name is None ==> u.name == e.name
            &&& url matches Some(v) ==> u.url == v
            &&& url is None ==> u.url == e.url
            &&& username matches Some(v) ==> u.username == v
            &&& username is None ==> u.username == e.username
            &&& password matches Some(v) ==> u.password == v
            &&& password is None ==> u.password == e.password
            &&& u.id == e.id
            &&& u.enabled == e.enabled
            &&& u.healthy == e.healthy
            &&& u.last_check_at == e.last_check_at
            &&& u.latency_ms == e.latency_ms
            &&& u.consecutive_failures == e.consecutive_failures
        }),
{
}

/// Law (delete): `delete(id)` keeps exactly the entries whose id differs
/// from `id`: such an entry stays, an entry with that id goes.
pub proof fn law_delete_keeps_exactly_other_ids(s: Seq<ProxyPoolEntry>, id: u32, e: ProxyPoolEntry)
    ensures
        s.filter(other_id(id)).contains(e) <==> s.contains(e) && e.id != id,
{
    crate::filter_facts::lemma_filter_contains_iff(s, other_id(id), e);
}

/// Law (delete keeps order): deleting an id that no entry has leaves the
/// pool exactly as it was, in the same order.
pub proof fn law_delete_absent_id_keeps_pool(s: Seq<ProxyPoolEntry>, id: u32)
    requires
        forall|i: int| 0 <= i < s.len() ==> #[trigger] s[i].id != id,
    ensures
        s.filter(other_id(id)) == s,
{
    crate::filter_facts::lemma_filter_keeps_all(s, other_id(id));
}

/// Law (delete keeps order): the entries that a delete keeps come in pool
/// order: deleting from a pool extended by one entry gives the deletion
/// from the shorter pool, followed by that entry when its id differs.
pub proof fn law_delete_keeps_pool_order(s: Seq<ProxyPoolEntry>, x: ProxyPoolEntry, id: u32)
    ensures
        s.push(x).filter(other_id(id)) == (if x.id != id {
            s.filter(other_id(id)).push(x)
        } else {
            s.filter(other_id(id))
        }),
{
    reveal_with_fuel(Seq::filter, 1);
    assert(s.push(x).drop_last() =~= s);
}

/// Law (new entries): a proxy that `add` creates is enabled and healthy,
/// has never been checked, has no failures, and carries exactly the given
/// id, name, URL and credentials.
pub proof fn law_new_entry_fields(
    id: u32,
    name: String,
    url: String,
    username: Option<String>,
    password: Option<String>,
)
    ensures
        ({
            let e = new_entry(id, name, url, username, password);
            &&& e.id == id && e.name == name && e.url == url
            &&& e.username == username && e.password == password
            &&& e.enabled && e.healthy
            &&& e.last_check_at is None && e.latency_ms is None
            &&& e.consecutive_failures == 0
        }),
{
}

/// Law (id counter): the next id is one more than the last, wrapping from
/// the largest u32 to 0.
pub proof fn law_id_counter_steps_by_one(id: u32)
    ensures
        id < u32::MAX ==> id_after(id) == id + 1,
        id == u32::MAX ==> id_after(id) == 0,
{
}

/// Law (connection settings): a proxy is reached at its URL, with its user
/// name and password exactly when it has both, and without credentials
/// otherwise.
pub proof fn law_config_uses_credentials_in_pairs(e: ProxyPoolEntry)
    ensures
        config_of(e).url == e.url,
        e.username is Some && e.password is Some ==> config_of(e).username == e.username
            && config_of(e).password == e.password,
        !(e.username is Some && e.password is Some) ==> config_of(e).username is None
            && config_of(e).password is None,
{
}


/// Law (health targets): a background round probes exactly the enabled
/// entries, healthy or not, each under its own id and connection settings.
pub proof fn law_health_targets_are_enabled_entries(s: Seq<ProxyPoolEntry>, e: ProxyPoolEntry)
    ensures
        s.filter(enabled()).contains(e) <==> s.contains(e) && e.enabled,
        target_of()(e) == (e.id, config_of(e)),
{
    crate::filter_facts::lemma_filter_contains_iff(s, enabled(), e);
}

/// Law: the largest id of a non-empty pool is the id of one of its entries;
/// an empty pool has largest id 0.
pub proof fn law_max_entry_id_is_an_entry_id(s: Seq<ProxyPoolEntry>)
    ensures
        s.len() == 0 ==> max_entry_id(s) == 0,
        s.len() > 0 ==> exists|i: int| 0 <= i < s.len() && #[trigger] s[i].id == max_entry_id(s),
    decreases s.len(),
{
    if s.len() > 0 {
        let rest = s.drop_last();
        law_max_entry_id_is_an_entry_id(rest);
        if s.last().id > max_entry_id(rest) || rest.len() == 0 {
            assert(s[s.len() - 1].id == max_entry_id(s));
        } else {
            let i = choose|i: int| 0 <= i < rest.len() && #[trigger] rest[i].id == max_entry_id(rest);
            assert(s[i] == rest[i]);
        }
    }
}

} // verus!
