//! How many requests each credential is serving at the moment.

use std::collections::HashMap;
use vstd::prelude::*;

verus! {

broadcast use vstd::std_specs::hash::group_hash_axioms;

/// Credential id to permits in use, from the permits still free under a
/// common per-credential limit (a later pair overrides an earlier one with
/// the same id).
pub open spec fn in_use_map(limit: usize, free: Seq<(u64, usize)>) -> Map<u64, usize>
    decreases free.len(),
{
    if free.len() == 0 {
        Map::empty()
    } else {
        in_use_map(limit, free.drop_last()).insert(
            free.last().0,
            (limit - free.last().1) as usize,
        )
    }
}

/// The number of requests in flight per credential: the limit minus the
/// permits still free. Empty when the limit is unknown (`None`) or 0,
/// which means no limit.
pub fn credential_concurrency_snapshot(limit: Option<usize>, free: &[(u64, usize)]) -> (r: HashMap<
    u64,
    usize,
>)
    requires
        forall|i: int| 0 <= i < free@.len() ==> #[trigger] free@[i].1 <= limit.unwrap_or(0)
            || limit.unwrap_or(0) == 0,
    ensures
        r@ == (match limit {
            Some(l) if l > 0 => in_use_map(l, free@),
            _ => Map::empty(),
        }),
{
    let mut out: HashMap<u64, usize> = HashMap::new();
    let l = match limit {
        Some(l) => l,
        None => return out,
    };
    if l == 0 {
        return out;
    }
    let n = free.len();
    for i in 0..n
        invariant
            n == free@.len(),
            l > 0,
            forall|j: int| 0 <= j < free@.len() ==> #[trigger] free@[j].1 <= l,
            out@ == in_use_map(l, free@.take(i as int)),
    {
        proof {
            assert(free@.take(i + 1).drop_last() =~= free@.take(i as int));
        }
        let (id, avail) = free[i];
        out.insert(id, l - avail);
    }
    proof {
        assert(free@.take(n as int) =~= free@);
    }
    out
}


/// Law: the snapshot covers exactly the credentials listed, and a
/// credential listed once is reported with the limit minus its free
/// permits.
pub proof fn law_in_use_map_entries(limit: usize, free: Seq<(u64, usize)>, i: int)
    requires
        0 <= i < free.len(),
        forall|j: int| 0 <= j < free.len() && j != i ==> #[trigger] free[j].0 != free[i].0,
    ensures
        in_use_map(limit, free).contains_key(free[i].0),
        in_use_map(limit, free)[free[i].0] == (limit - free[i].1) as usize,
    decreases free.len(),
{
    if i < free.len() - 1 {
        let rest = free.drop_last();
        assert forall|j: int| 0 <= j < rest.len() && j != i implies #[trigger] rest[j].0
            != rest[i].0 by {
            assert(rest[j] == free[j]);
        }
        law_in_use_map_entries(limit, rest, i);
        assert(free.last().0 != free[i].0);
    }
}

/// Law: a credential that is not listed does not appear in the snapshot.
pub proof fn law_in_use_map_only_listed(limit: usize, free: Seq<(u64, usize)>, id: u64)
    requires
        forall|j: int| 0 <= j < free.len() ==> #[trigger] free[j].0 != id,
    ensures
        !in_use_map(limit, free).contains_key(id),
    decreases free.len(),
{
    if free.len() > 0 {
        let rest = free.drop_last();
        assert forall|j: int| 0 <= j < rest.len() implies #[trigger] rest[j].0 != id by {
            assert(rest[j] == free[j]);
        }
        law_in_use_map_only_listed(limit, rest, id);
        assert(free[free.len() - 1].0 != id);
    }
}

} // verus!
