use vstd::prelude::*;

use crate::address::Address;
use crate::map::AddressMap;
use crate::types::{SwapLog, TouchedPool};

verus! {

/// The logs of the chunks whose query succeeded, chunk after chunk.
pub open spec fn successful_logs(chunks: Seq<Option<Vec<SwapLog>>>) -> Seq<SwapLog>
    decreases chunks.len(),
{
    if chunks.len() == 0 {
        Seq::empty()
    } else {
        let before = successful_logs(chunks.drop_last());
        match chunks.last() {
            Some(logs) => before + logs@,
            None => before,
        }
    }
}

/// Merges the results of the per-chunk log queries: a failed chunk (`None`)
/// is dropped, the logs of the others are kept in the order given.
pub fn swap_sightings(chunks: &Vec<Option<Vec<SwapLog>>>) -> (r: Vec<SwapLog>)
    ensures
        r@ == successful_logs(chunks@),
{
    let mut out: Vec<SwapLog> = Vec::new();
    let mut i: usize = 0;
    while i < chunks.len()
        invariant
            i <= chunks@.len(),
            out@ == successful_logs(chunks@.take(i as int)),
        decreases chunks@.len() - i,
    {
        assert(chunks@.take(i + 1).drop_last() =~= chunks@.take(i as int));
        match &chunks[i] {
            Some(logs) => {
                let ghost before = out@;
                let mut j: usize = 0;
                while j < logs.len()
                    invariant
                        j <= logs@.len(),
                        out@ == before + logs@.take(j as int),
                    decreases logs@.len() - j,
                {
                    out.push(logs[j]);
                    assert(logs@.take(j + 1) =~= logs@.take(j as int).push(logs@[j as int]));
                    j = j + 1;
                }
                assert(logs@.take(j as int) =~= logs@);
            },
            None => {},
        }
        i = i + 1;
    }
    assert(chunks@.take(i as int) =~= chunks@);
    out
}

/// Records each successful sighting in turn into `m`: a pool's entry is the
/// last sighting of it.
pub open spec fn record_sightings(
    m: Map<Address, TouchedPool>,
    s: Seq<Option<TouchedPool>>,
) -> Map<Address, TouchedPool>
    decreases s.len(),
{
    if s.len() == 0 {
        m
    } else {
        let before = record_sightings(m, s.drop_last());
        match s.last() {
            Some(tp) => before.insert(tp.pool.address, tp),
            None => before,
        }
    }
}

/// The touched-pool map that the discovery results give, keyed by pool address.
pub open spec fn discovered(s: Seq<Option<TouchedPool>>) -> Map<Address, TouchedPool> {
    record_sightings(Map::empty(), s)
}

/// Builds the touched-pool map from the discovery results, in the order in
/// which they completed: failed discoveries (`None`) are dropped, and a later
/// result for a pool replaces an earlier one.
pub fn touched_pools_from_discoveries(results: &Vec<Option<TouchedPool>>) -> (r: AddressMap<
    TouchedPool,
>)
    ensures
        r.wf(),
        r@ == discovered(results@),
        forall|i: int| 0 <= i < r.entries@.len() ==> #[trigger] r.entries@[i].0 == r.entries@[i].1.pool.address,
{
    let mut touched_pools: AddressMap<TouchedPool> = AddressMap::new();
    let mut i: usize = 0;
    while i < results.len()
        invariant
            i <= results@.len(),
            touched_pools.wf(),
            touched_pools@ == discovered(results@.take(i as int)),
            forall|j: int|
                0 <= j < touched_pools.entries@.len() ==> #[trigger] touched_pools.entries@[j].0
                    == touched_pools.entries@[j].1.pool.address,
        decreases results@.len() - i,
    {
        assert(results@.take(i + 1).drop_last() =~= results@.take(i as int));
        match results[i] {
            Some(tp) => {
                touched_pools.insert(tp.pool.address, tp);
            },
            None => {},
        }
        i = i + 1;
    }
    assert(results@.take(i as int) =~= results@);
    touched_pools
}

/// Result `x` is a successful sighting of pool `k`.
pub open spec fn sights(x: Option<TouchedPool>, k: Address) -> bool {
    x matches Some(tp) && tp.pool.address == k
}

proof fn lemma_record_sightings_concat(
    m: Map<Address, TouchedPool>,
    s1: Seq<Option<TouchedPool>>,
    s2: Seq<Option<TouchedPool>>,
)
    ensures
        record_sightings(m, s1 + s2) == record_sightings(record_sightings(m, s1), s2),
    decreases s2.len(),
{
    if s2.len() == 0 {
        assert(s1 + s2 =~= s1);
    } else {
        assert((s1 + s2).drop_last() =~= s1 + s2.drop_last());
        lemma_record_sightings_concat(m, s1, s2.drop_last());
    }
}

proof fn lemma_record_sightings_unsighted(
    m: Map<Address, TouchedPool>,
    s: Seq<Option<TouchedPool>>,
    k: Address,
)
    requires
        forall|i: int| 0 <= i < s.len() ==> !sights(#[trigger] s[i], k),
    ensures
        record_sightings(m, s).contains_key(k) == m.contains_key(k),
        m.contains_key(k) ==> record_sightings(m, s)[k] == m[k],
    decreases s.len(),
{
    if s.len() > 0 {
        assert(!sights(s[s.len() - 1], k));
        assert forall|i: int| 0 <= i < s.drop_last().len() implies !sights(
            #[trigger] s.drop_last()[i],
            k,
        ) by {
            assert(s.drop_last()[i] == s[i]);
        }
        lemma_record_sightings_unsighted(m, s.drop_last(), k);
    }
}

proof fn lemma_record_sightings_agree(
    m1: Map<Address, TouchedPool>,
    m2: Map<Address, TouchedPool>,
    s: Seq<Option<TouchedPool>>,
)
    requires
        forall|k: Address|
            (forall|i: int| 0 <= i < s.len() ==> !sights(#[trigger] s[i], k)) ==> (
            #[trigger] m1.contains_key(k) == m2.contains_key(k) && (m1.contains_key(k)
                ==> m1[k] == m2[k])),
    ensures
        record_sightings(m1, s) == record_sightings(m2, s),
    decreases s.len(),
{
    if s.len() == 0 {
        assert forall|k: Address| #[trigger] m1.contains_key(k) == m2.contains_key(k) && (
        m1.contains_key(k) ==> m1[k] == m2[k]) by {
            assert(forall|i: int| 0 <= i < s.len() ==> !sights(#[trigger] s[i], k));
        }
        assert(m1 =~= m2);
    } else {
        let head = s.take(1);
        let rest = s.skip(1);
        assert(s =~= head + rest);
        assert(head.drop_last() =~= Seq::<Option<TouchedPool>>::empty());
        lemma_record_sightings_concat(m1, head, rest);
        lemma_record_sightings_concat(m2, head, rest);
        let n1 = record_sightings(m1, head);
        let n2 = record_sightings(m2, head);
        assert(head.last() == s[0]);
        assert(record_sightings(m1, head.drop_last()) == m1);
        assert(record_sightings(m2, head.drop_last()) == m2);
        assert forall|k: Address|
            (forall|i: int| 0 <= i < rest.len() ==> !sights(#[trigger] rest[i], k)) implies (
            #[trigger] n1.contains_key(k) == n2.contains_key(k) && (n1.contains_key(k) ==> n1[k]
                == n2[k])) by {
            if !sights(s[0], k) {
                assert forall|i: int| 0 <= i < s.len() implies !sights(#[trigger] s[i], k) by {
                    if i > 0 {
                        assert(s[i] == rest[i - 1]);
                    }
                }
                assert(m1.contains_key(k) == m2.contains_key(k) && (m1.contains_key(k) ==> m1[k]
                    == m2[k]));
            }
        }
        lemma_record_sightings_agree(n1, n2, rest);
    }
}

/// Discovery is idempotent: recording the same results a second time, on top
/// of the map that the first pass gave, leaves that map as it was.
pub proof fn lemma_discovery_idempotent(s: Seq<Option<TouchedPool>>)
    ensures
        record_sightings(discovered(s), s) == discovered(s),
        discovered(s + s) == discovered(s),
{
    lemma_record_sightings_concat(Map::empty(), s, s);
    assert forall|k: Address|
        (forall|i: int| 0 <= i < s.len() ==> !sights(#[trigger] s[i], k)) implies (
        #[trigger] discovered(s).contains_key(k) == Map::<Address, TouchedPool>::empty().contains_key(
            k,
        ) && (discovered(s).contains_key(k) ==> discovered(s)[k] == Map::<
            Address,
            TouchedPool,
        >::empty()[k])) by {
        lemma_record_sightings_unsighted(Map::empty(), s, k);
    }
    lemma_record_sightings_agree(discovered(s), Map::empty(), s);
}

} // verus!
