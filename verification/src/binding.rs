//! Sticky credential-to-proxy bindings and their greedy least-load rebalancing.
//!
//! A binding map sends a credential id to the id of the proxy that serves it.
//! Rebalancing keeps every binding that is still usable and gives each
//! eligible credential without one the proxy that currently carries the
//! fewest credentials, the smallest proxy id breaking ties.

use std::collections::HashMap;
use vstd::prelude::*;

verus! {

broadcast use vstd::std_specs::hash::group_hash_axioms;

/// The predicate "credential is bound to `p` in `m`".
pub open spec fn bound_to(m: Map<u64, u32>, p: u32) -> spec_fn(u64) -> bool {
    |c: u64| m[c] == p
}

/// The number of credentials that `m` binds to proxy `p`.
pub open spec fn proxy_load(m: Map<u64, u32>, p: u32) -> nat {
    m.dom().filter(bound_to(m, p)).len()
}

/// The bindings of `old` that survive a rebalance: the credential is still
/// eligible and its proxy is still available.
pub open spec fn retained_bindings(
    old: Map<u64, u32>,
    eligible: Seq<u64>,
    available: Seq<u32>,
) -> Map<u64, u32> {
    Map::new(
        |c: u64| old.contains_key(c) && eligible.contains(c) && available.contains(old[c]),
        |c: u64| old[c],
    )
}

/// `p` is an available proxy whose (load, id) pair is the smallest among
/// the available proxies, in lexicographic order.
pub open spec fn is_least_loaded(m: Map<u64, u32>, available: Seq<u32>, p: u32) -> bool {
    &&& available.contains(p)
    &&& forall|q: u32|
        #![trigger available.contains(q)]
        available.contains(q) ==> proxy_load(m, p) < proxy_load(m, q) || (proxy_load(m, p)
            == proxy_load(m, q) && p <= q)
}

/// The least-loaded available proxy (see `is_least_loaded`).
pub open spec fn least_loaded(m: Map<u64, u32>, available: Seq<u32>) -> u32 {
    choose|p: u32| is_least_loaded(m, available, p)
}

/// Walks `creds` in order and binds each credential that has no binding yet
/// to the least-loaded available proxy at that moment.
pub open spec fn assign_unbound(m: Map<u64, u32>, available: Seq<u32>, creds: Seq<u64>) -> Map<
    u64,
    u32,
>
    decreases creds.len(),
{
    if creds.len() == 0 {
        m
    } else {
        let prev = assign_unbound(m, available, creds.drop_last());
        let c = creds.last();
        if prev.contains_key(c) {
            prev
        } else {
            prev.insert(c, least_loaded(prev, available))
        }
    }
}

/// The bindings after a rebalance against the available proxies and the
/// eligible credentials: none at all when no proxy is available, otherwise
/// the retained bindings completed greedily in the order of `eligible`.
pub open spec fn rebalanced(old: Map<u64, u32>, available: Seq<u32>, eligible: Seq<u64>) -> Map<
    u64,
    u32,
> {
    if available.len() == 0 {
        Map::empty()
    } else {
        assign_unbound(retained_bindings(old, eligible, available), available, eligible)
    }
}

/// Binding one more, previously unbound, credential to `p` raises the load of
/// `p` by one and leaves every other load alone.
pub proof fn lemma_load_insert(m: Map<u64, u32>, c: u64, p: u32, q: u32)
    requires
        m.dom().finite(),
        !m.contains_key(c),
    ensures
        proxy_load(m.insert(c, p), q) == proxy_load(m, q) + (if q == p {
            1nat
        } else {
            0nat
        }),
{
    let m2 = m.insert(c, p);
    let f1 = bound_to(m, q);
    let f2 = bound_to(m2, q);
    m.dom().lemma_len_filter(f1);
    if q == p {
        assert(m2.dom().filter(f2) =~= m.dom().filter(f1).insert(c));
    } else {
        assert(m2.dom().filter(f2) =~= m.dom().filter(f1));
    }
}

/// A proxy carries no more credentials than the map binds in all.
pub proof fn lemma_load_bounded(m: Map<u64, u32>, p: u32)
    requires
        m.dom().finite(),
    ensures
        proxy_load(m, p) <= m.dom().len(),
{
    m.dom().lemma_len_filter(bound_to(m, p));
}

/// An empty map loads no proxy.
pub proof fn lemma_load_empty(p: u32)
    ensures
        proxy_load(Map::<u64, u32>::empty(), p) == 0,
{
    let m = Map::<u64, u32>::empty();
    assert(m.dom().filter(bound_to(m, p)) =~= Set::empty());
}

/// Some available proxy is least loaded whenever one is available at all.
pub proof fn lemma_least_loaded_exists(m: Map<u64, u32>, available: Seq<u32>)
    requires
        available.len() > 0,
    ensures
        is_least_loaded(m, available, least_loaded(m, available)),
{
    let w = least_witness(m, available);
}

proof fn least_witness(m: Map<u64, u32>, available: Seq<u32>) -> (p: u32)
    requires
        available.len() > 0,
    ensures
        is_least_loaded(m, available, p),
    decreases available.len(),
{
    if available.len() == 1 {
        let p = available[0];
        assert forall|q: u32| #[trigger] available.contains(q) implies proxy_load(m, p) < proxy_load(
            m,
            q,
        ) || (proxy_load(m, p) == proxy_load(m, q) && p <= q) by {
            let k = choose|k: int| 0 <= k < available.len() && available[k] == q;
            assert(k == 0);
        }
        assert(available.contains(p)) by {
            assert(available[0] == p);
        }
        p
    } else {
        let rest = available.drop_last();
        let b = least_witness(m, rest);
        let l = available.last();
        let p = if proxy_load(m, l) < proxy_load(m, b) || (proxy_load(m, l) == proxy_load(m, b)
            && l < b) {
            l
        } else {
            b
        };
        assert forall|q: u32| #[trigger] available.contains(q) implies proxy_load(m, p) < proxy_load(
            m,
            q,
        ) || (proxy_load(m, p) == proxy_load(m, q) && p <= q) by {
            let k = choose|k: int| 0 <= k < available.len() && available[k] == q;
            if k < available.len() - 1 {
                assert(rest[k] == q);
                assert(rest.contains(q));
            }
        }
        assert(available.contains(p)) by {
            if p == l {
                assert(available[available.len() - 1] == p);
            } else {
                let k = choose|k: int| 0 <= k < rest.len() && rest[k] == b;
                assert(available[k] == b);
            }
        }
        p
    }
}

/// At most one proxy is least loaded: the (load, id) order is total on ids.
pub proof fn lemma_least_loaded_unique(m: Map<u64, u32>, available: Seq<u32>, p: u32)
    requires
        is_least_loaded(m, available, p),
    ensures
        least_loaded(m, available) == p,
{
    let w = least_loaded(m, available);
    assert(is_least_loaded(m, available, w));
    assert(available.contains(p));
    assert(available.contains(w));
}

/// Newly assigned credentials sit on proxies that are at most one above any
/// other available proxy.
pub open spec fn new_bindings_balanced(
    base: Map<u64, u32>,
    r: Map<u64, u32>,
    available: Seq<u32>,
) -> bool {
    forall|c: u64, q: u32|
        #![trigger r.contains_key(c), available.contains(q)]
        r.contains_key(c) && !base.contains_key(c) && available.contains(q) ==> proxy_load(r, r[c])
            <= proxy_load(r, q) + 1
}

/// What the greedy completion does: it keeps `m`, adds exactly the
/// credentials of `creds` that `m` lacks, binds them to available proxies,
/// and leaves each newly used proxy at most one above any other.
pub proof fn lemma_assign_unbound(m: Map<u64, u32>, available: Seq<u32>, creds: Seq<u64>)
    requires
        available.len() > 0,
        m.dom().finite(),
    ensures
        assign_unbound(m, available, creds).dom().finite(),
        forall|c: u64|
            #[trigger] assign_unbound(m, available, creds).contains_key(c) <==> m.contains_key(c)
                || creds.contains(c),
        forall|c: u64|
            m.contains_key(c) ==> #[trigger] assign_unbound(m, available, creds)[c] == m[c],
        forall|c: u64|
            #[trigger] assign_unbound(m, available, creds).contains_key(c) && !m.contains_key(c)
                ==> available.contains(assign_unbound(m, available, creds)[c]),
        new_bindings_balanced(m, assign_unbound(m, available, creds), available),
    decreases creds.len(),
{
    if creds.len() == 0 {
    } else {
        let rest = creds.drop_last();
        let c0 = creds.last();
        lemma_assign_unbound(m, available, rest);
        let prev = assign_unbound(m, available, rest);
        assert forall|x: u64| creds.contains(x) <==> rest.contains(x) || x == c0 by {
            if creds.contains(x) {
                let k = choose|k: int| 0 <= k < creds.len() && creds[k] == x;
                if k < creds.len() - 1 {
                    assert(rest[k] == x);
                }
            }
            if rest.contains(x) {
                let k = choose|k: int| 0 <= k < rest.len() && rest[k] == x;
                assert(creds[k] == x);
            }
            if x == c0 {
                assert(creds[creds.len() - 1] == x);
            }
        }
        if !prev.contains_key(c0) {
            let p = least_loaded(prev, available);
            lemma_least_loaded_exists(prev, available);
            let r = prev.insert(c0, p);
            assert forall|c: u64, q: u32|
                #![trigger r.contains_key(c), available.contains(q)]
                r.contains_key(c) && !m.contains_key(c) && available.contains(q) implies proxy_load(
                r,
                r[c],
            ) <= proxy_load(r, q) + 1 by {
                lemma_load_insert(prev, c0, p, q);
                lemma_load_insert(prev, c0, p, r[c]);
                if c != c0 {
                    assert(prev.contains_key(c));
                    assert(prev[c] == r[c]);
                }
            }
        }
    }
}

proof fn lemma_retained_finite(old: Map<u64, u32>, eligible: Seq<u64>, available: Seq<u32>)
    requires
        old.dom().finite(),
    ensures
        retained_bindings(old, eligible, available).dom().finite(),
{
    let r = retained_bindings(old, eligible, available);
    assert(r.dom().subset_of(old.dom()));
    vstd::set_lib::lemma_len_subset(r.dom(), old.dom());
}

proof fn lemma_rebalanced(old: Map<u64, u32>, available: Seq<u32>, eligible: Seq<u64>)
    requires
        old.dom().finite(),
        available.len() > 0,
    ensures
        rebalanced(old, available, eligible).dom().finite(),
        forall|c: u64| #[trigger]
            rebalanced(old, available, eligible).contains_key(c) <==> eligible.contains(c),
        forall|c: u64|
            #[trigger] retained_bindings(old, eligible, available).contains_key(c) ==> rebalanced(
                old,
                available,
                eligible,
            )[c] == old[c],
        forall|c: u64|
            #[trigger] rebalanced(old, available, eligible).contains_key(c) ==> available.contains(
                rebalanced(old, available, eligible)[c],
            ),
        new_bindings_balanced(
            retained_bindings(old, eligible, available),
            rebalanced(old, available, eligible),
            available,
        ),
{
    let base = retained_bindings(old, eligible, available);
    lemma_retained_finite(old, eligible, available);
    lemma_assign_unbound(base, available, eligible);
}

/// Law: once some proxy is available, a rebalance binds exactly the eligible
/// credentials; every credential outside the eligible list loses its binding.
pub proof fn law_rebalance_binds_exactly_eligible(
    old: Map<u64, u32>,
    available: Seq<u32>,
    eligible: Seq<u64>,
)
    requires
        old.dom().finite(),
        available.len() > 0,
    ensures
        forall|c: u64| #[trigger]
            rebalanced(old, available, eligible).contains_key(c) <==> eligible.contains(c),
{
    lemma_rebalanced(old, available, eligible);
}

/// Law (stickiness): a binding whose credential is still eligible and whose
/// proxy is still available survives a rebalance unchanged.
pub proof fn law_rebalance_keeps_usable_bindings(
    old: Map<u64, u32>,
    available: Seq<u32>,
    eligible: Seq<u64>,
    c: u64,
)
    requires
        old.dom().finite(),
        old.contains_key(c),
        eligible.contains(c),
        available.contains(old[c]),
    ensures
        rebalanced(old, available, eligible).contains_key(c),
        rebalanced(old, available, eligible)[c] == old[c],
{
    assert(available.len() > 0);
    lemma_rebalanced(old, available, eligible);
    assert(retained_bindings(old, eligible, available).contains_key(c));
}

/// Law: after a rebalance every binding points at an available proxy.
pub proof fn law_rebalance_uses_available_proxies(
    old: Map<u64, u32>,
    available: Seq<u32>,
    eligible: Seq<u64>,
    c: u64,
)
    requires
        old.dom().finite(),
        rebalanced(old, available, eligible).contains_key(c),
    ensures
        available.contains(rebalanced(old, available, eligible)[c]),
{
    lemma_rebalanced(old, available, eligible);
}

/// Law: with no proxy available, a rebalance removes every binding.
pub proof fn law_rebalance_without_proxies_clears(old: Map<u64, u32>, eligible: Seq<u64>)
    ensures
        rebalanced(old, Seq::<u32>::empty(), eligible) == Map::<u64, u32>::empty(),
{
}

/// Law (least load): a credential that a rebalance newly binds ends on a
/// proxy that carries at most one credential more than any available proxy.
pub proof fn law_rebalance_balances_new_bindings(
    old: Map<u64, u32>,
    available: Seq<u32>,
    eligible: Seq<u64>,
    c: u64,
    q: u32,
)
    requires
        old.dom().finite(),
        rebalanced(old, available, eligible).contains_key(c),
        !retained_bindings(old, eligible, available).contains_key(c),
        available.contains(q),
    ensures
        proxy_load(rebalanced(old, available, eligible), rebalanced(old, available, eligible)[c])
            <= proxy_load(rebalanced(old, available, eligible), q) + 1,
{
    lemma_rebalanced(old, available, eligible);
    let r = rebalanced(old, available, eligible);
    assert(r.contains_key(c) && available.contains(q));
}

/// Law: rebalancing twice against the same proxies and credentials gives the
/// bindings of the first rebalance.
pub proof fn law_rebalance_idempotent(old: Map<u64, u32>, available: Seq<u32>, eligible: Seq<u64>)
    requires
        old.dom().finite(),
    ensures
        rebalanced(rebalanced(old, available, eligible), available, eligible) == rebalanced(
            old,
            available,
            eligible,
        ),
{
    if available.len() > 0 {
        lemma_rebalanced(old, available, eligible);
        let r1 = rebalanced(old, available, eligible);
        let base = retained_bindings(r1, eligible, available);
        assert(base =~= r1);
        lemma_assign_unbound(r1, available, eligible);
        assert(assign_unbound(r1, available, eligible) =~= r1);
    } else {
        assert(rebalanced(old, available, eligible) =~= Map::<u64, u32>::empty());
    }
}

proof fn lemma_dom_within(m: Map<u64, u32>, eligible: Seq<u64>)
    requires
        forall|c: u64| m.contains_key(c) ==> eligible.contains(c),
    ensures
        m.dom().finite(),
        m.dom().len() <= eligible.len(),
{
    vstd::seq_lib::seq_to_set_is_finite(eligible);
    assert(m.dom().subset_of(eligible.to_set()));
    vstd::set_lib::lemma_len_subset(m.dom(), eligible.to_set());
    eligible.lemma_cardinality_of_set();
}

/// The load map holds exactly the available proxies, each with its load in `m`.
pub open spec fn loads_match(loads: Map<u32, usize>, available: Seq<u32>, m: Map<u64, u32>) -> bool {
    &&& forall|p: u32| #[trigger] loads.contains_key(p) <==> available.contains(p)
    &&& forall|p: u32| #[trigger] available.contains(p) ==> loads[p] == proxy_load(m, p)
}

/// The available proxy that is least loaded (smallest id on ties). The
/// available ids are walked only to visit the keys of the load map.
fn pick_least(loads: &HashMap<u32, usize>, available: &Vec<u32>, Ghost(m): Ghost<Map<u64, u32>>) -> (p:
    u32)
    requires
        available.len() > 0,
        loads_match(loads@, available@, m),
    ensures
        is_least_loaded(m, available@, p),
{
    let n = available.len();
    let mut best = available[0];
    let mut best_load: usize = match loads.get(&best) {
        Some(v) => *v,
        None => 0,
    };
    proof {
        assert(available@.contains(available@[0]));
    }
    for i in 1..n
        invariant
            n == available.len(),
            loads_match(loads@, available@, m),
            available@.contains(best),
            best_load == proxy_load(m, best),
            forall|j: int|
                0 <= j < i ==> best_load < proxy_load(m, #[trigger] available@[j]) || (best_load
                    == proxy_load(m, available@[j]) && best <= available@[j]),
    {
        let q = available[i];
        proof {
            assert(available@.contains(q));
        }
        let q_load = match loads.get(&q) {
            Some(v) => *v,
            None => 0,
        };
        if q_load < best_load || (q_load == best_load && q < best) {
            best = q;
            best_load = q_load;
        }
    }
    assert forall|q: u32| #![trigger available@.contains(q)] available@.contains(q) implies proxy_load(
        m,
        best,
    ) < proxy_load(m, q) || (proxy_load(m, best) == proxy_load(m, q) && best <= q) by {
        let j = choose|j: int| 0 <= j < available@.len() && available@[j] == q;
    }
    best
}

/// Rebalances `old` against the available proxy ids and the eligible
/// credentials: keeps the usable bindings, then hands every unbound eligible
/// credential, in list order, to the least-loaded available proxy. The load
/// map, keyed by the available proxies, doubles as the set of available
/// proxies; the eligible list is walked in order, so no set of it is needed.
pub(crate) fn rebalance_bindings(
    old: &HashMap<u64, u32>,
    available: &Vec<u32>,
    eligible: &[u64],
) -> (r: HashMap<u64, u32>)
    ensures
        r@ == rebalanced(old@, available@, eligible@),
{
    let n = available.len();
    if n == 0 {
        return HashMap::new();
    }
    let mut loads: HashMap<u32, usize> = HashMap::new();
    for k in 0..n
        invariant
            n == available@.len(),
            forall|p: u32| #[trigger] loads@.contains_key(p) <==> available@.take(k as int).contains(p),
            forall|p: u32| #[trigger] loads@.contains_key(p) ==> loads@[p] == 0,
    {
        let p = available[k];
        loads.insert(p, 0);
        proof {
            let t0 = available@.take(k as int);
            let t1 = available@.take(k + 1);
            assert forall|x: u32| t1.contains(x) <==> t0.contains(x) || x == p by {
                if t1.contains(x) {
                    let j = choose|j: int| 0 <= j < t1.len() && t1[j] == x;
                    if j < k {
                        assert(t0[j] == x);
                    }
                }
                if t0.contains(x) {
                    let j = choose|j: int| 0 <= j < t0.len() && t0[j] == x;
                    assert(t1[j] == x);
                }
                if x == p {
                    assert(t1[k as int] == x);
                }
            }
        }
    }
    let mut bound: HashMap<u64, u32> = HashMap::new();
    proof {
        assert(available@.take(n as int) =~= available@);
        assert forall|p: u32| #[trigger] available@.contains(p) implies loads@[p] == proxy_load(
            bound@,
            p,
        ) by {
            assert(available@.take(n as int).contains(p));
            assert(loads@.contains_key(p));
            lemma_load_empty(p);
        }
        assert forall|p: u32| #[trigger] loads@.contains_key(p) <==> available@.contains(p) by {
            assert(available@.take(n as int).contains(p) == available@.contains(p));
        }
        assert(bound@ =~= retained_bindings(old@, eligible@.take(0), available@));
    }
    let len = eligible.len();
    for i in 0..len
        invariant
            len == eligible@.len(),
            loads_match(loads@, available@, bound@),
            bound@ == retained_bindings(old@, eligible@.take(i as int), available@),
            forall|c: u64| bound@.contains_key(c) ==> eligible@.contains(c),
    {
        let c = eligible[i];
        proof {
            lemma_dom_within(bound@, eligible@);
        }
        let ghost before = bound@;
        if !bound.contains_key(&c) {
            match old.get(&c) {
                Some(p_ref) => {
                    let p = *p_ref;
                    if loads.contains_key(&p) {
                        let v = match loads.get(&p) {
                            Some(v) => *v,
                            None => 0,
                        };
                        bound.insert(c, p);
                        proof {
                            assert(eligible@.contains(c)) by {
                                assert(eligible@[i as int] == c);
                            }
                            lemma_dom_within(bound@, eligible@);
                            lemma_load_bounded(bound@, p);
                            lemma_load_insert(before, c, p, p);
                        }
                        let ghost loads_before = loads@;
                        loads.insert(p, v + 1);
                        proof {
                            assert forall|q: u32| #[trigger] available@.contains(q) implies loads@[q]
                                == proxy_load(bound@, q) by {
                                lemma_load_insert(before, c, p, q);
                                if q != p {
                                    assert(loads@[q] == loads_before[q]);
                                }
                            }
                        }
                    }
                },
                None => {},
            }
        }
        proof {
            let t0 = eligible@.take(i as int);
            let t1 = eligible@.take(i + 1);
            assert forall|x: u64| t1.contains(x) <==> t0.contains(x) || x == c by {
                if t1.contains(x) {
                    let k = choose|k: int| 0 <= k < t1.len() && t1[k] == x;
                    if k < i {
                        assert(t0[k] == x);
                    }
                }
                if t0.contains(x) {
                    let k = choose|k: int| 0 <= k < t0.len() && t0[k] == x;
                    assert(t1[k] == x);
                }
                if x == c {
                    assert(t1[i as int] == x);
                }
            }
            assert(bound@ =~= retained_bindings(old@, t1, available@));
        }
    }
    proof {
        assert(eligible@.take(len as int) =~= eligible@);
    }
    let ghost base = bound@;
    proof {
        assert(assign_unbound(base, available@, eligible@.take(0)) == base);
    }
    for i in 0..len
        invariant
            len == eligible@.len(),
            n == available.len(),
            n > 0,
            loads_match(loads@, available@, bound@),
            bound@ == assign_unbound(base, available@, eligible@.take(i as int)),
            forall|c: u64| bound@.contains_key(c) ==> eligible@.contains(c),
    {
        let c = eligible[i];
        proof {
            lemma_dom_within(bound@, eligible@);
            assert(eligible@.take(i + 1).drop_last() =~= eligible@.take(i as int));
        }
        let ghost before = bound@;
        if !bound.contains_key(&c) {
            let p = pick_least(&loads, available, Ghost(bound@));
            proof {
                lemma_least_loaded_unique(before, available@, p);
            }
            let v = match loads.get(&p) {
                Some(v) => *v,
                None => 0,
            };
            bound.insert(c, p);
            proof {
                assert(eligible@.contains(c)) by {
                    assert(eligible@[i as int] == c);
                }
                lemma_dom_within(bound@, eligible@);
                lemma_load_bounded(bound@, p);
                lemma_load_insert(before, c, p, p);
            }
            let ghost loads_before = loads@;
            loads.insert(p, v + 1);
            proof {
                assert forall|q: u32| #[trigger] available@.contains(q) implies loads@[q]
                    == proxy_load(bound@, q) by {
                    lemma_load_insert(before, c, p, q);
                    if q != p {
                        assert(loads@[q] == loads_before[q]);
                    }
                }
            }
        }
    }
    proof {
        assert(eligible@.take(len as int) =~= eligible@);
    }
    bound
}

} // verus!
