use vstd::prelude::*;

use crate::address::{Address, address_display, address_text, lemma_address_display_injective};
use crate::enrich::tokens_after_metadata;
use crate::map::{AddressMap, keys_unique, lemma_map_of_contains};
use crate::types::{PoolToken, PoolTokenBalances, TouchedPool, TouchedPoolJson};

verus! {

/// The symbol recorded for token `a`: its resolved symbol, or the empty string
/// when its metadata was not resolved.
pub open spec fn symbol_of(tokens: Map<Address, PoolToken>, a: Address) -> Seq<char> {
    if tokens.contains_key(a) {
        tokens[a].token.symbol@
    } else {
        Seq::empty()
    }
}

/// Whether the reserves a pool reports differ from the balances its tokens
/// credit to it: an exact comparison of the two pairs.
pub open spec fn strange(reserves: (u128, u128), balances: (u128, u128)) -> bool {
    reserves != balances
}

/// `rec` is the report line for the pool under `key`, with its balances and
/// the resolved tokens.
pub open spec fn is_record_of(
    rec: TouchedPoolJson,
    key: Address,
    tp: TouchedPool,
    bal: PoolTokenBalances,
    tokens: Map<Address, PoolToken>,
) -> bool {
    &&& rec.pair_address@ == address_display(key.bytes@)
    &&& rec.token0_address@ == address_display(tp.pool.token_a.bytes@)
    &&& rec.token1_address@ == address_display(tp.pool.token_b.bytes@)
    &&& rec.token0_symbol@ == symbol_of(tokens, tp.pool.token_a)
    &&& rec.token1_symbol@ == symbol_of(tokens, tp.pool.token_b)
    &&& rec.token0_reserve_get_reserves == tp.pool.reserve_0
    &&& rec.token1_reserve_get_reserves == tp.pool.reserve_1
    &&& rec.token0_reserve_balance_of == bal.token_a_balance
    &&& rec.token1_reserve_balance_of == bal.token_b_balance
    &&& rec.block_num == tp.action_block
    &&& rec.strange_reserves == strange(
        (tp.pool.reserve_0, tp.pool.reserve_1),
        (bal.token_a_balance, bal.token_b_balance),
    )
}

/// The entries of `e` whose pool has a balance entry, in the same order.
pub open spec fn balanced_entries(
    e: Seq<(Address, TouchedPool)>,
    balances: Map<Address, PoolTokenBalances>,
) -> Seq<(Address, TouchedPool)>
    decreases e.len(),
{
    if e.len() == 0 {
        Seq::empty()
    } else {
        let before = balanced_entries(e.drop_last(), balances);
        if balances.contains_key(e.last().0) {
            before.push(e.last())
        } else {
            before
        }
    }
}

/// The symbol of token `a`, or the empty string when it was not resolved.
fn symbol_for(tokens: &AddressMap<PoolToken>, a: &Address) -> (r: String)
    requires
        tokens.wf(),
    ensures
        r@ == symbol_of(tokens@, *a),
{
    match tokens.get(a) {
        Some(pt) => pt.token.symbol.clone(),
        None => String::new(),
    }
}

/// Compares one touched pool with its balances: no line when the pool has no
/// balance entry, else its report line, flagged when the reserves it reports
/// differ from the balances.
pub fn compare_pool(
    pool_address: &Address,
    touched_pool: &TouchedPool,
    balances: &AddressMap<PoolTokenBalances>,
    pools_tokens: &AddressMap<PoolToken>,
) -> (r: Option<TouchedPoolJson>)
    requires
        balances.wf(),
        pools_tokens.wf(),
    ensures
        r is Some <==> balances@.contains_key(*pool_address),
        r matches Some(rec) ==> is_record_of(
            rec,
            *pool_address,
            *touched_pool,
            balances@[*pool_address],
            pools_tokens@,
        ),
{
    let pool = &touched_pool.pool;
    match balances.get(pool_address) {
        Some(pool_token_balances) => {
            let strange_reserves = !(pool.reserve_0 == pool_token_balances.token_a_balance
                && pool.reserve_1 == pool_token_balances.token_b_balance);
            Some(
                TouchedPoolJson {
                    pair_address: address_text(pool_address),
                    token0_address: address_text(&pool.token_a),
                    token1_address: address_text(&pool.token_b),
                    token0_symbol: symbol_for(pools_tokens, &pool.token_a),
                    token1_symbol: symbol_for(pools_tokens, &pool.token_b),
                    token0_reserve_get_reserves: pool.reserve_0,
                    token1_reserve_get_reserves: pool.reserve_1,
                    token0_reserve_balance_of: pool_token_balances.token_a_balance,
                    token1_reserve_balance_of: pool_token_balances.token_b_balance,
                    block_num: touched_pool.action_block,
                    strange_reserves,
                },
            )
        },
        None => None,
    }
}

/// The reconciliation report: one line per touched pool that has a balance
/// entry, in the map's order; pools without balances are left out.
pub fn process_pools_comparison(
    touched_pools: &AddressMap<TouchedPool>,
    touched_pools_token_balances: AddressMap<PoolTokenBalances>,
    pools_tokens: AddressMap<PoolToken>,
) -> (r: Vec<TouchedPoolJson>)
    requires
        touched_pools_token_balances.wf(),
        pools_tokens.wf(),
    ensures
        r@.len() == balanced_entries(
            touched_pools.entries@,
            touched_pools_token_balances@,
        ).len(),
        forall|i: int|
            0 <= i < r@.len() ==> {
                let e = #[trigger] balanced_entries(
                    touched_pools.entries@,
                    touched_pools_token_balances@,
                )[i];
                is_record_of(
                    r@[i],
                    e.0,
                    e.1,
                    touched_pools_token_balances@[e.0],
                    pools_tokens@,
                )
            },
{
    let ghost e = touched_pools.entries@;
    let ghost b = touched_pools_token_balances@;
    let mut out: Vec<TouchedPoolJson> = Vec::new();
    let mut i: usize = 0;
    while i < touched_pools.entries.len()
        invariant
            e == touched_pools.entries@,
            b == touched_pools_token_balances@,
            touched_pools_token_balances.wf(),
            pools_tokens.wf(),
            i <= e.len(),
            out@.len() == balanced_entries(e.take(i as int), b).len(),
            forall|j: int|
                0 <= j < out@.len() ==> {
                    let x = #[trigger] balanced_entries(e.take(i as int), b)[j];
                    &&& b.contains_key(x.0)
                    &&& is_record_of(out@[j], x.0, x.1, b[x.0], pools_tokens@)
                },
        decreases e.len() - i,
    {
        assert(e.take(i + 1).drop_last() =~= e.take(i as int));
        let entry = &touched_pools.entries[i];
        let line = compare_pool(
            &entry.0,
            &entry.1,
            &touched_pools_token_balances,
            &pools_tokens,
        );
        match line {
            Some(rec) => {
                out.push(rec);
            },
            None => {},
        }
        i = i + 1;
    }
    assert(e.take(i as int) =~= e);
    out
}

proof fn lemma_balanced_entries_from(
    e: Seq<(Address, TouchedPool)>,
    b: Map<Address, PoolTokenBalances>,
)
    ensures
        forall|i: int|
            0 <= i < balanced_entries(e, b).len() ==> {
                &&& b.contains_key(#[trigger] balanced_entries(e, b)[i].0)
                &&& exists|j: int| 0 <= j < e.len() && e[j] == balanced_entries(e, b)[i]
            },
        keys_unique(e) ==> keys_unique(balanced_entries(e, b)),
    decreases e.len(),
{
    if e.len() > 0 {
        let d = e.drop_last();
        lemma_balanced_entries_from(d, b);
        let before = balanced_entries(d, b);
        let r = balanced_entries(e, b);
        assert forall|i: int| 0 <= i < r.len() implies {
            &&& b.contains_key(#[trigger] r[i].0)
            &&& exists|j: int| 0 <= j < e.len() && e[j] == r[i]
        } by {
            if i < before.len() {
                assert(r[i] == before[i]);
                assert(b.contains_key(before[i].0));
                let j = choose|j: int| 0 <= j < d.len() && d[j] == before[i];
                assert(e[j] == r[i]);
            } else {
                assert(e[e.len() - 1] == r[i]);
            }
        }
        if keys_unique(e) {
            assert(keys_unique(d)) by {
                assert forall|i: int, j: int| 0 <= i < j < d.len() implies #[trigger] d[i].0
                    != #[trigger] d[j].0 by {
                    assert(d[i] == e[i] && d[j] == e[j]);
                }
            }
            assert forall|i: int, j: int| 0 <= i < j < r.len() implies #[trigger] r[i].0
                != #[trigger] r[j].0 by {
                assert(r[i] == before[i]);
                if j < before.len() {
                    assert(r[j] == before[j]);
                } else {
                    assert(b.contains_key(before[i].0));
                    let k = choose|k: int| 0 <= k < d.len() && d[k] == before[i];
                    assert(e[k] == d[k]);
                    assert(e[k].0 != e[e.len() - 1].0);
                }
            }
        }
    }
}

/// A pool without a balance entry never reaches the report: each line stands
/// for a touched pool that has a balance entry, no pool has two lines, no two
/// lines carry the same pool address, and the
/// report has no more lines than the balance map has entries.
pub proof fn lemma_report_only_balanced_pools(
    touched_pools: AddressMap<TouchedPool>,
    balances: AddressMap<PoolTokenBalances>,
)
    requires
        touched_pools.wf(),
        balances.wf(),
    ensures
        forall|i: int|
            0 <= i < balanced_entries(touched_pools.entries@, balances@).len() ==> {
                let k = #[trigger] balanced_entries(touched_pools.entries@, balances@)[i].0;
                &&& touched_pools@.contains_key(k)
                &&& balances@.contains_key(k)
            },
        keys_unique(balanced_entries(touched_pools.entries@, balances@)),
        forall|i: int, j: int|
            0 <= i < j < balanced_entries(touched_pools.entries@, balances@).len() ==> address_display(
                #[trigger] balanced_entries(touched_pools.entries@, balances@)[i].0.bytes@,
            ) != address_display(
                #[trigger] balanced_entries(touched_pools.entries@, balances@)[j].0.bytes@,
            ),
        balanced_entries(touched_pools.entries@, balances@).len() <= balances.entries@.len(),
{
    broadcast use vstd::seq_lib::seq_to_set_is_finite;

    let e = touched_pools.entries@;
    let r = balanced_entries(e, balances@);
    lemma_balanced_entries_from(e, balances@);
    assert forall|i: int| 0 <= i < r.len() implies touched_pools@.contains_key(
        #[trigger] r[i].0,
    ) by {
        let j = choose|j: int| 0 <= j < e.len() && e[j] == r[i];
        lemma_map_of_contains(e, r[i].0);
    }
    let kr = r.map_values(|x: (Address, TouchedPool)| x.0);
    let kb = balances.entries@.map_values(|x: (Address, PoolTokenBalances)| x.0);
    assert(kr.no_duplicates()) by {
        assert forall|i: int, j: int|
            0 <= i < kr.len() && 0 <= j < kr.len() && i != j implies kr[i] != kr[j] by {
            if i < j {
                assert(r[i].0 != r[j].0);
            } else {
                assert(r[j].0 != r[i].0);
            }
        }
    }
    kr.unique_seq_to_set();
    kb.lemma_cardinality_of_set();
    assert forall|a: Address| kr.to_set().contains(a) implies kb.to_set().contains(a) by {
        let i = choose|i: int| 0 <= i < kr.len() && kr[i] == a;
        assert(balances@.contains_key(r[i].0));
        lemma_map_of_contains(balances.entries@, a);
        let j = choose|j: int| 0 <= j < balances.entries@.len() && #[trigger] balances.entries@[j].0 == a;
        assert(kb[j] == a);
    }
    vstd::set_lib::lemma_len_subset(kr.to_set(), kb.to_set());
    assert forall|i: int, j: int| 0 <= i < j < r.len() implies address_display(
        #[trigger] r[i].0.bytes@,
    ) != address_display(#[trigger] r[j].0.bytes@) by {
        lemma_address_display_injective(r[i].0, r[j].0);
    }
}

/// A token whose metadata was never resolved is reported with the empty
/// symbol: if no metadata result names token `a`, it has no entry among the
/// resolved tokens and its symbol is empty.
pub proof fn lemma_unresolved_token_has_empty_symbol(s: Seq<Option<PoolToken>>, a: Address)
    requires
        forall|i: int| 0 <= i < s.len() ==> !(#[trigger] s[i] matches Some(pt) && pt.token.address == a),
    ensures
        !tokens_after_metadata(s).contains_key(a),
        symbol_of(tokens_after_metadata(s), a) == Seq::<char>::empty(),
    decreases s.len(),
{
    if s.len() > 0 {
        assert(!(s[s.len() - 1] matches Some(pt) && pt.token.address == a));
        assert forall|i: int| 0 <= i < s.drop_last().len() implies !(#[trigger] s.drop_last()[i] matches Some(
            pt,
        ) && pt.token.address == a) by {
            assert(s.drop_last()[i] == s[i]);
        }
        lemma_unresolved_token_has_empty_symbol(s.drop_last(), a);
    }
}

/// When every touched pool has a balance entry, the report has one line per
/// touched pool, in the map's order, and no two lines name the same pool.
pub proof fn lemma_every_balanced_pool_reported(
    touched_pools: AddressMap<TouchedPool>,
    balances: Map<Address, PoolTokenBalances>,
)
    requires
        touched_pools.wf(),
        forall|i: int|
            0 <= i < touched_pools.entries@.len() ==> balances.contains_key(
                #[trigger] touched_pools.entries@[i].0,
            ),
    ensures
        balanced_entries(touched_pools.entries@, balances) == touched_pools.entries@,
        forall|i: int, j: int|
            0 <= i < j < touched_pools.entries@.len() ==> address_display(
                #[trigger] touched_pools.entries@[i].0.bytes@,
            ) != address_display(#[trigger] touched_pools.entries@[j].0.bytes@),
{
    lemma_balanced_all(touched_pools.entries@, balances);
    assert forall|i: int, j: int| 0 <= i < j < touched_pools.entries@.len() implies address_display(
        #[trigger] touched_pools.entries@[i].0.bytes@,
    ) != address_display(#[trigger] touched_pools.entries@[j].0.bytes@) by {
        lemma_address_display_injective(touched_pools.entries@[i].0, touched_pools.entries@[j].0);
    }
}

proof fn lemma_balanced_all(e: Seq<(Address, TouchedPool)>, balances: Map<Address, PoolTokenBalances>)
    requires
        forall|i: int| 0 <= i < e.len() ==> balances.contains_key(#[trigger] e[i].0),
    ensures
        balanced_entries(e, balances) == e,
    decreases e.len(),
{
    if e.len() > 0 {
        assert(balances.contains_key(e[e.len() - 1].0));
        assert forall|i: int| 0 <= i < e.drop_last().len() implies balances.contains_key(
            #[trigger] e.drop_last()[i].0,
        ) by {
            assert(e.drop_last()[i] == e[i]);
        }
        lemma_balanced_all(e.drop_last(), balances);
        assert(e.drop_last().push(e.last()) =~= e);
    }
}

} // verus!
