use vstd::prelude::*;

use crate::address::Address;
use crate::map::AddressMap;
use crate::types::{Pool, PoolReserves, PoolToken, PoolTokenBalances, TouchedPool};

verus! {

/// The (pool, token) pairs whose metadata is to be resolved: for each pool in
/// map order, its token A and then its token B.
pub fn token_requests(touched_pools: &AddressMap<TouchedPool>) -> (r: Vec<(Address, Address)>)
    requires
        touched_pools.entries@.len() * 2 <= usize::MAX,
    ensures
        r@.len() == 2 * touched_pools.entries@.len(),
        forall|i: int|
            0 <= i < touched_pools.entries@.len() ==> {
                let p = #[trigger] touched_pools.entries@[i].1.pool;
                &&& r@[2 * i] == (p.address, p.token_a)
                &&& r@[2 * i + 1] == (p.address, p.token_b)
            },
{
    let mut out: Vec<(Address, Address)> = Vec::new();
    let mut i: usize = 0;
    while i < touched_pools.entries.len()
        invariant
            i <= touched_pools.entries@.len(),
            out@.len() == 2 * i,
            forall|j: int|
                0 <= j < i ==> {
                    let p = #[trigger] touched_pools.entries@[j].1.pool;
                    &&& out@[2 * j] == (p.address, p.token_a)
                    &&& out@[2 * j + 1] == (p.address, p.token_b)
                },
        decreases touched_pools.entries@.len() - i,
    {
        let pool = touched_pools.entries[i].1.pool;
        out.push((pool.address, pool.token_a));
        out.push((pool.address, pool.token_b));
        i = i + 1;
    }
    out
}

/// The resolved tokens after the metadata results `s`, keyed by token
/// address: a later resolution of a token replaces an earlier one.
pub open spec fn tokens_after_metadata(s: Seq<Option<PoolToken>>) -> Map<Address, PoolToken>
    decreases s.len(),
{
    if s.len() == 0 {
        Map::empty()
    } else {
        let before = tokens_after_metadata(s.drop_last());
        match s.last() {
            Some(pt) => before.insert(pt.token.address, pt),
            None => before,
        }
    }
}

/// Builds the resolved-token map from the token-metadata results, in
/// completion order, keyed by token address: a failed resolution (`None`)
/// adds nothing, and a later resolution of a token replaces an earlier one.
/// The pools keep the token addresses read at discovery, each in its own slot.
pub fn collect_pool_tokens(results: &Vec<Option<PoolToken>>) -> (r: AddressMap<PoolToken>)
    ensures
        r.wf(),
        r@ == tokens_after_metadata(results@),
{
    let mut pools_tokens: AddressMap<PoolToken> = AddressMap::new();
    let mut i: usize = 0;
    while i < results.len()
        invariant
            i <= results@.len(),
            pools_tokens.wf(),
            pools_tokens@ == tokens_after_metadata(results@.take(i as int)),
        decreases results@.len() - i,
    {
        assert(results@.take(i + 1).drop_last() =~= results@.take(i as int));
        match &results[i] {
            Some(pool_token) => {
                pools_tokens.insert(pool_token.token.address, pool_token.copy());
            },
            None => {},
        }
        i = i + 1;
    }
    assert(results@.take(i as int) =~= results@);
    pools_tokens
}

/// The touched pools after the reserve results `s`, taken in turn: a pool in
/// the map takes the reserves read for it.
pub open spec fn pools_after_reserves(
    m: Map<Address, TouchedPool>,
    s: Seq<Option<PoolReserves>>,
) -> Map<Address, TouchedPool>
    decreases s.len(),
{
    if s.len() == 0 {
        m
    } else {
        let before = pools_after_reserves(m, s.drop_last());
        match s.last() {
            Some(pr) => if before.contains_key(pr.pool_address) {
                let tp = before[pr.pool_address];
                before.insert(
                    pr.pool_address,
                    TouchedPool {
                        pool: Pool {
                            reserve_0: pr.token_a_reserve,
                            reserve_1: pr.token_b_reserve,
                            ..tp.pool
                        },
                        ..tp
                    },
                )
            } else {
                before
            },
            None => before,
        }
    }
}

/// Folds the reserve results, in completion order, into the touched pools. A
/// failed read (`None`) leaves the pool's reserves as they were.
pub fn apply_pool_reserves(
    touched_pools: &mut AddressMap<TouchedPool>,
    results: &Vec<Option<PoolReserves>>,
)
    requires
        old(touched_pools).wf(),
    ensures
        final(touched_pools).wf(),
        final(touched_pools)@ == pools_after_reserves(old(touched_pools)@, results@),
{
    let ghost m0 = touched_pools@;
    let mut i: usize = 0;
    while i < results.len()
        invariant
            i <= results@.len(),
            touched_pools.wf(),
            touched_pools@ == pools_after_reserves(m0, results@.take(i as int)),
        decreases results@.len() - i,
    {
        assert(results@.take(i + 1).drop_last() =~= results@.take(i as int));
        match results[i] {
            Some(pool_reserves) => {
                let current = touched_pools.get(&pool_reserves.pool_address);
                match current {
                    Some(tp) => {
                        let mut updated = *tp;
                        updated.pool.reserve_0 = pool_reserves.token_a_reserve;
                        updated.pool.reserve_1 = pool_reserves.token_b_reserve;
                        touched_pools.insert(pool_reserves.pool_address, updated);
                    },
                    None => {},
                }
            },
            None => {},
        }
        i = i + 1;
    }
    assert(results@.take(i as int) =~= results@);
}

/// The balance map that the balance results `s` give, keyed by pool address:
/// a later result for a pool replaces an earlier one.
pub open spec fn balances_of(s: Seq<Option<PoolTokenBalances>>) -> Map<
    Address,
    PoolTokenBalances,
>
    decreases s.len(),
{
    if s.len() == 0 {
        Map::empty()
    } else {
        let before = balances_of(s.drop_last());
        match s.last() {
            Some(b) => before.insert(b.pool_address, b),
            None => before,
        }
    }
}

/// Builds the balance map from the per-pool balance results: a pool whose
/// balance read failed (`None`) gets no entry.
pub fn collect_pool_balances(results: &Vec<Option<PoolTokenBalances>>) -> (r: AddressMap<
    PoolTokenBalances,
>)
    ensures
        r.wf(),
        r@ == balances_of(results@),
{
    let mut pool_token_balances: AddressMap<PoolTokenBalances> = AddressMap::new();
    let mut i: usize = 0;
    while i < results.len()
        invariant
            i <= results@.len(),
            pool_token_balances.wf(),
            pool_token_balances@ == balances_of(results@.take(i as int)),
        decreases results@.len() - i,
    {
        assert(results@.take(i + 1).drop_last() =~= results@.take(i as int));
        match results[i] {
            Some(b) => {
                pool_token_balances.insert(b.pool_address, b);
            },
            None => {},
        }
        i = i + 1;
    }
    assert(results@.take(i as int) =~= results@);
    pool_token_balances
}

} // verus!
