//! What a health check does to the entries of the pool.
//!
//! A check of a single proxy records its outcome directly. A background round
//! is gentler: one failure only counts; a proxy is marked unhealthy after
//! three consecutive failures, and one success restores it.

use vstd::prelude::*;

use crate::proxy_pool::{first_with_id, has_id, is_first_with_id, ProxyPoolEntry};

verus! {

/// How a connectivity probe through a proxy went.
#[derive(Debug)]
pub enum ProbeAttempt {
    /// No HTTP client could be built for the proxy.
    ClientUnavailable,
    /// A request was sent; whether it got a reply, and how long it took.
    Sent { succeeded: bool, elapsed_ms: u128 },
}

/// The health and latency a probe reports: no client means unhealthy with
/// no latency; a sent request gives its outcome and the elapsed
/// milliseconds (cut to 64 bits).
pub fn probe_outcome(attempt: ProbeAttempt) -> (r: (bool, Option<u64>))
    ensures
        r == (match attempt {
            ProbeAttempt::ClientUnavailable => (false, None),
            ProbeAttempt::Sent { succeeded, elapsed_ms } => (succeeded, Some(elapsed_ms as u64)),
        }),
{
    match attempt {
        ProbeAttempt::ClientUnavailable => (false, None),
        ProbeAttempt::Sent { succeeded, elapsed_ms } => (succeeded, Some(#[verifier::truncate] (elapsed_ms as u64))),
    }
}

/// The failure count after one more failure.
pub open spec fn failures_after(e: ProxyPoolEntry) -> u32 {
    (e.consecutive_failures + 1) as u32
}

/// An entry after a single, explicit check with the given outcome.
pub open spec fn checked_entry(
    e: ProxyPoolEntry,
    healthy: bool,
    latency_ms: Option<u64>,
    now: String,
) -> ProxyPoolEntry {
    ProxyPoolEntry {
        healthy,
        latency_ms,
        last_check_at: Some(now),
        consecutive_failures: if healthy {
            0
        } else {
            failures_after(e)
        },
        ..e
    }
}

/// An entry after a background check with the given outcome.
pub open spec fn round_entry(
    e: ProxyPoolEntry,
    healthy: bool,
    latency_ms: Option<u64>,
    now: String,
) -> ProxyPoolEntry {
    if healthy {
        ProxyPoolEntry {
            healthy: true,
            latency_ms,
            last_check_at: Some(now),
            consecutive_failures: 0,
            ..e
        }
    } else {
        ProxyPoolEntry {
            healthy: if failures_after(e) >= 3 && e.healthy {
                false
            } else {
                e.healthy
            },
            latency_ms,
            last_check_at: Some(now),
            consecutive_failures: failures_after(e),
            ..e
        }
    }
}

/// Whether a background check flips the availability of the entry.
pub open spec fn round_flips(e: ProxyPoolEntry, healthy: bool) -> bool {
    if healthy {
        !e.healthy
    } else {
        failures_after(e) >= 3 && e.healthy
    }
}

/// One result of a background round applied to the first entry with its id
/// (no effect when no entry has it).
pub open spec fn round_step(s: Seq<ProxyPoolEntry>, r: (u32, bool, Option<u64>), now: String) -> Seq<
    ProxyPoolEntry,
> {
    if has_id(s, r.0) {
        let i = first_with_id(s, r.0);
        s.update(i, round_entry(s[i], r.1, r.2, now))
    } else {
        s
    }
}

/// Whether one result flips the availability of the entry it applies to.
pub open spec fn step_flips(s: Seq<ProxyPoolEntry>, r: (u32, bool, Option<u64>)) -> bool {
    has_id(s, r.0) && round_flips(s[first_with_id(s, r.0)], r.1)
}

/// Whether one result can be applied without the failure count overflowing.
pub open spec fn step_fits(s: Seq<ProxyPoolEntry>, r: (u32, bool, Option<u64>)) -> bool {
    r.1 || !has_id(s, r.0) || s[first_with_id(s, r.0)].consecutive_failures < u32::MAX
}

/// The entries after applying the results of a background round in order.
pub open spec fn apply_round(
    s: Seq<ProxyPoolEntry>,
    results: Seq<(u32, bool, Option<u64>)>,
    now: String,
) -> Seq<ProxyPoolEntry>
    decreases results.len(),
{
    if results.len() == 0 {
        s
    } else {
        apply_round(round_step(s, results[0], now), results.drop_first(), now)
    }
}

/// Whether some result of the round flips the availability of a proxy.
pub open spec fn round_changes_availability(
    s: Seq<ProxyPoolEntry>,
    results: Seq<(u32, bool, Option<u64>)>,
    now: String,
) -> bool
    decreases results.len(),
{
    if results.len() == 0 {
        false
    } else {
        step_flips(s, results[0]) || round_changes_availability(
            round_step(s, results[0], now),
            results.drop_first(),
            now,
        )
    }
}

/// Whether every result of the round can be applied without a failure
/// count overflowing, with the check time `now`.
pub open spec fn round_fits_at(
    s: Seq<ProxyPoolEntry>,
    results: Seq<(u32, bool, Option<u64>)>,
    now: String,
) -> bool
    decreases results.len(),
{
    if results.len() == 0 {
        true
    } else {
        step_fits(s, results[0]) && round_fits_at(
            round_step(s, results[0], now),
            results.drop_first(),
            now,
        )
    }
}

/// Whether the round can be applied without a failure count overflowing
/// (whatever the check time).
pub open spec fn round_fits(s: Seq<ProxyPoolEntry>, results: Seq<(u32, bool, Option<u64>)>) -> bool {
    forall|now: String| #[trigger] round_fits_at(s, results, now)
}

/// The entries agree on ids, failure counts and health.
pub open spec fn same_counters(a: Seq<ProxyPoolEntry>, b: Seq<ProxyPoolEntry>) -> bool {
    &&& a.len() == b.len()
    &&& forall|i: int|
        0 <= i < a.len() ==> #[trigger] a[i].id == b[i].id && a[i].consecutive_failures
            == b[i].consecutive_failures && a[i].healthy == b[i].healthy
}

/// When some entry has id `id`, a first one exists.
pub proof fn lemma_first_with_id_exists(s: Seq<ProxyPoolEntry>, id: u32)
    requires
        has_id(s, id),
    ensures
        is_first_with_id(s, id, first_with_id(s, id)),
{
    let i = first_witness(s, id);
}

proof fn first_witness(s: Seq<ProxyPoolEntry>, id: u32) -> (i: int)
    requires
        has_id(s, id),
    ensures
        is_first_with_id(s, id, i),
    decreases s.len(),
{
    let rest = s.drop_last();
    if has_id(rest, id) {
        let k = first_witness(rest, id);
        assert forall|j: int| 0 <= j < k implies #[trigger] s[j].id != id by {
            assert(rest[j] == s[j]);
        }
        k
    } else {
        let w = choose|w: int| 0 <= w < s.len() && #[trigger] s[w].id == id;
        if w < s.len() - 1 {
            assert(rest[w].id == id);
        }
        assert forall|j: int| 0 <= j < s.len() - 1 implies #[trigger] s[j].id != id by {
            if s[j].id == id {
                assert(rest[j].id == id);
            }
        }
        s.len() - 1
    }
}

/// The first entry with an id is the same in sequences that agree on ids.
pub proof fn lemma_first_with_id_same(a: Seq<ProxyPoolEntry>, b: Seq<ProxyPoolEntry>, id: u32)
    requires
        same_counters(a, b),
    ensures
        has_id(a, id) == has_id(b, id),
        has_id(a, id) ==> first_with_id(a, id) == first_with_id(b, id),
{
    if has_id(a, id) {
        let w = choose|w: int| 0 <= w < a.len() && #[trigger] a[w].id == id;
        assert(b[w].id == id);
        lemma_first_with_id_exists(a, id);
        lemma_first_with_id_exists(b, id);
        let i = first_with_id(a, id);
        let j = first_with_id(b, id);
        assert(a[j].id == id);
        assert(b[i].id == id);
    }
    if has_id(b, id) {
        let w = choose|w: int| 0 <= w < b.len() && #[trigger] b[w].id == id;
        assert(a[w].id == id);
    }
}

/// Whether a round fits does not depend on the check time or on anything
/// but ids, failure counts and health.
pub proof fn lemma_round_fits_counters(
    a: Seq<ProxyPoolEntry>,
    b: Seq<ProxyPoolEntry>,
    results: Seq<(u32, bool, Option<u64>)>,
    n1: String,
    n2: String,
)
    requires
        same_counters(a, b),
    ensures
        round_fits_at(a, results, n1) == round_fits_at(b, results, n2),
    decreases results.len(),
{
    if results.len() > 0 {
        let r = results[0];
        lemma_first_with_id_same(a, b, r.0);
        let a1 = round_step(a, r, n1);
        let b1 = round_step(b, r, n2);
        if has_id(a, r.0) {
            lemma_first_with_id_exists(a, r.0);
            let i = first_with_id(a, r.0);
            assert forall|j: int| 0 <= j < a1.len() implies #[trigger] a1[j].id == b1[j].id
                && a1[j].consecutive_failures == b1[j].consecutive_failures && a1[j].healthy
                == b1[j].healthy by {
                assert(a[j].id == b[j].id);
                if j != i {
                    assert(a1[j] == a[j]);
                    assert(b1[j] == b[j]);
                } else {
                    assert(first_with_id(b, r.0) == i);
                    assert(a1[j] == round_entry(a[i], r.1, r.2, n1));
                    assert(b1[j] == round_entry(b[i], r.1, r.2, n2));
                }
            }
        }
        assert(same_counters(a1, b1));
        lemma_round_fits_counters(a1, b1, results.drop_first(), n1, n2);
    }
}

/// A round that fits at one check time fits at every check time.
pub proof fn lemma_round_fits_any_time(
    s: Seq<ProxyPoolEntry>,
    results: Seq<(u32, bool, Option<u64>)>,
    now: String,
)
    requires
        round_fits_at(s, results, now),
    ensures
        round_fits(s, results),
{
    assert forall|n: String| #[trigger] round_fits_at(s, results, n) by {
        lemma_round_fits_counters(s, s, results, now, n);
    }
}


/// Law: one successful background check makes a proxy healthy again and
/// clears its failure count.
pub proof fn law_round_success_restores(e: ProxyPoolEntry, latency_ms: Option<u64>, now: String)
    ensures
        round_entry(e, true, latency_ms, now).healthy,
        round_entry(e, true, latency_ms, now).consecutive_failures == 0,
{
}

/// Law: after a failed background check a proxy is healthy exactly when it
/// was healthy and has failed fewer than three times in a row.
pub proof fn law_round_failure_threshold(e: ProxyPoolEntry, latency_ms: Option<u64>, now: String)
    requires
        e.consecutive_failures < u32::MAX,
    ensures
        round_entry(e, false, latency_ms, now).healthy <==> e.healthy && e.consecutive_failures + 1
            < 3,
        round_entry(e, false, latency_ms, now).consecutive_failures == e.consecutive_failures + 1,
{
}

/// Law: a single explicit check records its outcome as the proxy's health.
pub proof fn law_single_check_records_outcome(
    e: ProxyPoolEntry,
    healthy: bool,
    latency_ms: Option<u64>,
    now: String,
)
    requires
        healthy || e.consecutive_failures < u32::MAX,
    ensures
        checked_entry(e, healthy, latency_ms, now).healthy == healthy,
        checked_entry(e, healthy, latency_ms, now).consecutive_failures == (if healthy {
            0
        } else {
            e.consecutive_failures + 1
        }),
{
}


/// No two results of the round name the same proxy id.
pub open spec fn result_ids_distinct(results: Seq<(u32, bool, Option<u64>)>) -> bool {
    forall|a: int, b: int|
        0 <= a < b < results.len() ==> #[trigger] results[a].0 != #[trigger] results[b].0
}

/// A round keeps the number of entries, and an entry whose id no result
/// names is left as it was.
proof fn lemma_round_untouched(
    s: Seq<ProxyPoolEntry>,
    results: Seq<(u32, bool, Option<u64>)>,
    now: String,
    i: int,
)
    requires
        0 <= i < s.len(),
        forall|k: int| 0 <= k < results.len() ==> #[trigger] results[k].0 != s[i].id,
    ensures
        apply_round(s, results, now).len() == s.len(),
        apply_round(s, results, now)[i] == s[i],
    decreases results.len(),
{
    if results.len() > 0 {
        let r = results[0];
        let s1 = round_step(s, r, now);
        if has_id(s, r.0) {
            lemma_first_with_id_exists(s, r.0);
            assert(s[first_with_id(s, r.0)].id == r.0);
            assert(r.0 != s[i].id);
        }
        assert(s1[i] == s[i]);
        let rest = results.drop_first();
        assert forall|k: int| 0 <= k < rest.len() implies #[trigger] rest[k].0 != s1[i].id by {
            assert(rest[k] == results[k + 1]);
        }
        lemma_round_untouched(s1, rest, now, i);
    }
}

/// Law: when no two results of a background round name the same proxy, the
/// round reports an availability change exactly when some entry's health
/// flag differs after the round from before it.
pub proof fn law_round_changes_iff_health_flag_differs(
    s: Seq<ProxyPoolEntry>,
    results: Seq<(u32, bool, Option<u64>)>,
    now: String,
)
    requires
        result_ids_distinct(results),
    ensures
        round_changes_availability(s, results, now) <==> exists|i: int|
            0 <= i < s.len() && #[trigger] apply_round(s, results, now)[i].healthy != s[i].healthy,
    decreases results.len(),
{
    if results.len() == 0 {
        assert(apply_round(s, results, now) == s);
    } else {
        let r = results[0];
        let rest = results.drop_first();
        let s1 = round_step(s, r, now);
        let fin = apply_round(s, results, now);
        assert(fin == apply_round(s1, rest, now));
        assert(result_ids_distinct(rest)) by {
            assert forall|a: int, b: int| 0 <= a < b < rest.len() implies #[trigger] rest[a].0
                != #[trigger] rest[b].0 by {
                assert(rest[a] == results[a + 1]);
                assert(rest[b] == results[b + 1]);
            }
        }
        law_round_changes_iff_health_flag_differs(s1, rest, now);
        if has_id(s, r.0) {
            lemma_first_with_id_exists(s, r.0);
            let f = first_with_id(s, r.0);
            assert(s1.len() == s.len());
            assert forall|k: int| 0 <= k < rest.len() implies #[trigger] rest[k].0 != s1[f].id by {
                assert(rest[k] == results[k + 1]);
                assert(results[0].0 != results[k + 1].0);
            }
            lemma_round_untouched(s1, rest, now, f);
            assert(step_flips(s, r) == (s1[f].healthy != s[f].healthy));
            if exists|i: int| 0 <= i < s.len() && #[trigger] fin[i].healthy != s[i].healthy {
                let i = choose|i: int| 0 <= i < s.len() && #[trigger] fin[i].healthy != s[i].healthy;
                if i != f {
                    assert(s1[i] == s[i]);
                    assert(fin[i].healthy != s1[i].healthy);
                }
            }
            if exists|i: int| 0 <= i < s1.len() && #[trigger] fin[i].healthy != s1[i].healthy {
                let i = choose|i: int| 0 <= i < s1.len() && #[trigger] fin[i].healthy != s1[i].healthy;
                assert(i != f);
                assert(s1[i] == s[i]);
                assert(fin[i].healthy != s[i].healthy);
            }
            if s1[f].healthy != s[f].healthy {
                assert(fin[f].healthy != s[f].healthy);
            }
        } else {
            assert(s1 == s);
        }
    }
}


/// Law (recorded data): every check, single or background, records the
/// latency and the time it was given and leaves id, name, URL, credentials
/// and the enabled flag alone.
pub proof fn law_checks_record_latency_and_time(
    e: ProxyPoolEntry,
    healthy: bool,
    latency_ms: Option<u64>,
    now: String,
)
    ensures
        ({
            let c = checked_entry(e, healthy, latency_ms, now);
            let r = round_entry(e, healthy, latency_ms, now);
            &&& c.latency_ms == latency_ms && c.last_check_at == Some(now)
            &&& r.latency_ms == latency_ms && r.last_check_at == Some(now)
            &&& c.id == e.id && c.name == e.name && c.url == e.url && c.enabled == e.enabled
            &&& c.username == e.username && c.password == e.password
            &&& r.id == e.id && r.name == e.name && r.url == e.url && r.enabled == e.enabled
            &&& r.username == e.username && r.password == e.password
        }),
{
}

/// Law (availability flips): a background result flips availability
/// exactly when it changes the proxy's health flag.
pub proof fn law_round_flips_iff_health_changes(
    e: ProxyPoolEntry,
    healthy: bool,
    latency_ms: Option<u64>,
    now: String,
)
    ensures
        round_flips(e, healthy) <==> round_entry(e, healthy, latency_ms, now).healthy != e.healthy,
{
}

} // verus!
