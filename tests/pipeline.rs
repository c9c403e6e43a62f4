use rust_uniswap_data_extractor::address::Address;
use rust_uniswap_data_extractor::chunks::block_number_chunks;
use rust_uniswap_data_extractor::discovery::{swap_sightings, touched_pools_from_discoveries};
use rust_uniswap_data_extractor::enrich::{
    apply_pool_reserves, collect_pool_balances, collect_pool_tokens, token_requests,
};
use rust_uniswap_data_extractor::map::AddressMap;
use rust_uniswap_data_extractor::reconcile::{compare_pool, process_pools_comparison};
use rust_uniswap_data_extractor::types::{
    Pool, PoolReserves, PoolToken, PoolTokenBalances, SwapLog, Token, TouchedPool,
};

fn addr(last: u8) -> Address {
    let mut bytes = [0u8; 20];
    bytes[0] = 0xab;
    bytes[1] = 0xcd;
    bytes[19] = last;
    Address { bytes }
}

fn touched(address: Address, token_a: Address, token_b: Address, block: u64) -> TouchedPool {
    TouchedPool {
        pool: Pool { address, token_a, token_b, reserve_0: 0, reserve_1: 0 },
        action_block: block,
    }
}

fn pool_token(pool: Address, token: Address, symbol: &str) -> PoolToken {
    PoolToken {
        pool_address: pool,
        token: Token {
            address: token,
            name: format!("{} token", symbol),
            symbol: symbol.to_string(),
            decimals: 18,
        },
    }
}

fn balances(pool: Address, a: u128, b: u128) -> PoolTokenBalances {
    PoolTokenBalances { pool_address: pool, token_a_balance: a, token_b_balance: b }
}

#[test]
fn chunks_of_twelve_thousand_blocks() {
    assert_eq!(
        block_number_chunks(0, 12000),
        vec![(0, 4999), (5000, 9999), (10000, 12000)]
    );
}

#[test]
fn chunks_of_empty_range() {
    assert!(block_number_chunks(10, 9).is_empty());
}

#[test]
fn chunks_of_single_block() {
    assert_eq!(block_number_chunks(7, 7), vec![(7, 7)]);
}

#[test]
fn chunks_of_exact_multiple() {
    assert_eq!(block_number_chunks(100, 10099), vec![(100, 5099), (5100, 10099)]);
}

#[test]
fn chunks_at_top_of_range() {
    assert_eq!(
        block_number_chunks(u64::MAX - 5001, u64::MAX),
        vec![(u64::MAX - 5001, u64::MAX - 2), (u64::MAX - 1, u64::MAX)]
    );
}

#[test]
fn chunks_cover_range_contiguously() {
    let r = block_number_chunks(52_900_000, 53_000_000);
    assert_eq!(r.len(), 21);
    assert_eq!(r[0].0, 52_900_000);
    assert_eq!(r[r.len() - 1].1, 53_000_000);
    for w in r.windows(2) {
        assert_eq!(w[1].0, w[0].1 + 1);
    }
    for c in &r {
        assert!(c.0 <= c.1 && c.1 - c.0 + 1 <= 5000);
    }
}

#[test]
fn sightings_drop_failed_chunks() {
    let chunks = vec![
        Some(vec![SwapLog { pool_address: addr(1), block_number: 10 }]),
        None,
        Some(vec![
            SwapLog { pool_address: addr(2), block_number: 20 },
            SwapLog { pool_address: addr(1), block_number: 30 },
        ]),
    ];
    let logs = swap_sightings(&chunks);
    let got: Vec<(u8, u64)> = logs.iter().map(|l| (l.pool_address.bytes[19], l.block_number)).collect();
    assert_eq!(got, vec![(1, 10), (2, 20), (1, 30)]);
}

#[test]
fn discovery_keeps_last_completed_sighting() {
    let results = vec![
        Some(touched(addr(1), addr(11), addr(12), 30)),
        None,
        Some(touched(addr(2), addr(21), addr(22), 20)),
        Some(touched(addr(1), addr(11), addr(12), 10)),
    ];
    let m = touched_pools_from_discoveries(&results);
    assert_eq!(m.len(), 2);
    assert_eq!(m.get(&addr(1)).unwrap().action_block, 10);
    assert_eq!(m.get(&addr(2)).unwrap().action_block, 20);
    assert!(m.get(&addr(3)).is_none());
}

#[test]
fn discovery_twice_gives_same_map() {
    let results = vec![
        Some(touched(addr(1), addr(11), addr(12), 30)),
        Some(touched(addr(2), addr(21), addr(22), 20)),
        Some(touched(addr(1), addr(11), addr(12), 40)),
    ];
    let mut doubled = results.clone();
    doubled.extend(results.iter().cloned());
    let once = touched_pools_from_discoveries(&results);
    let twice = touched_pools_from_discoveries(&doubled);
    assert_eq!(once.len(), twice.len());
    for (k, v) in &once.entries {
        let w = twice.get(k).unwrap();
        assert_eq!(v.action_block, w.action_block);
        assert!(v.pool.token_a == w.pool.token_a && v.pool.token_b == w.pool.token_b);
    }
}

#[test]
fn token_requests_name_both_tokens_of_each_pool() {
    let results = vec![
        Some(touched(addr(1), addr(11), addr(12), 1)),
        Some(touched(addr(2), addr(21), addr(22), 2)),
    ];
    let m = touched_pools_from_discoveries(&results);
    let r = token_requests(&m);
    let got: Vec<(u8, u8)> = r.iter().map(|(p, t)| (p.bytes[19], t.bytes[19])).collect();
    assert_eq!(got, vec![(1, 11), (1, 12), (2, 21), (2, 22)]);
}

#[test]
fn metadata_keeps_each_token_in_its_slot() {
    let results = vec![
        Some(pool_token(addr(1), addr(11), "AAA")),
        Some(pool_token(addr(1), addr(12), "BBB")),
    ];
    let tokens = collect_pool_tokens(&results);
    assert_eq!(tokens.len(), 2);
    assert_eq!(tokens.get(&addr(11)).unwrap().token.symbol, "AAA");
    assert_eq!(tokens.get(&addr(12)).unwrap().token.symbol, "BBB");
    let b = collect_pool_balances(&vec![Some(balances(addr(1), 1, 1))]);
    let rec = compare_pool(&addr(1), &reserved(1, 1), &b, &tokens).unwrap();
    assert_eq!(rec.token0_address, "0xabcd00000000000000000000000000000000000b");
    assert_eq!(rec.token1_address, "0xabcd00000000000000000000000000000000000c");
    assert_eq!(rec.token0_symbol, "AAA");
    assert_eq!(rec.token1_symbol, "BBB");
}

#[test]
fn failed_metadata_adds_no_token() {
    let tokens = collect_pool_tokens(&vec![None, None]);
    assert_eq!(tokens.len(), 0);
}

#[test]
fn token_resolved_twice_keeps_last() {
    let results = vec![
        Some(pool_token(addr(1), addr(11), "OLD")),
        Some(pool_token(addr(2), addr(11), "NEW")),
    ];
    let tokens = collect_pool_tokens(&results);
    assert_eq!(tokens.len(), 1);
    let t = tokens.get(&addr(11)).unwrap();
    assert_eq!(t.token.symbol, "NEW");
    assert!(t.pool_address == addr(2));
}

#[test]
fn reserves_fill_pools_and_failures_leave_zero() {
    let mut pools = touched_pools_from_discoveries(&vec![
        Some(touched(addr(1), addr(11), addr(12), 1)),
        Some(touched(addr(2), addr(21), addr(22), 1)),
    ]);
    let results = vec![
        Some(PoolReserves { pool_address: addr(1), token_a_reserve: 100, token_b_reserve: 200 }),
        None,
        Some(PoolReserves { pool_address: addr(9), token_a_reserve: 5, token_b_reserve: 6 }),
    ];
    apply_pool_reserves(&mut pools, &results);
    let first = pools.get(&addr(1)).unwrap().pool;
    assert_eq!((first.reserve_0, first.reserve_1), (100, 200));
    let second = pools.get(&addr(2)).unwrap().pool;
    assert_eq!((second.reserve_0, second.reserve_1), (0, 0));
    assert_eq!(pools.len(), 2);
}

#[test]
fn balances_drop_failed_pools() {
    let m = collect_pool_balances(&vec![Some(balances(addr(1), 1, 2)), None, Some(balances(addr(2), 3, 4))]);
    assert_eq!(m.len(), 2);
    assert_eq!(m.get(&addr(2)).unwrap().token_a_balance, 3);
}

fn reserved(reserve_0: u128, reserve_1: u128) -> TouchedPool {
    let mut tp = touched(addr(1), addr(11), addr(12), 77);
    tp.pool.reserve_0 = reserve_0;
    tp.pool.reserve_1 = reserve_1;
    tp
}

#[test]
fn equal_reserves_are_not_strange() {
    let b = collect_pool_balances(&vec![Some(balances(addr(1), 100, 200))]);
    let rec = compare_pool(&addr(1), &reserved(100, 200), &b, &AddressMap::new()).unwrap();
    assert!(!rec.strange_reserves);
}

#[test]
fn differing_reserves_are_strange() {
    let b = collect_pool_balances(&vec![Some(balances(addr(1), 100, 205))]);
    let rec = compare_pool(&addr(1), &reserved(100, 200), &b, &AddressMap::new()).unwrap();
    assert!(rec.strange_reserves);
    assert_eq!(rec.token0_reserve_get_reserves, 100);
    assert_eq!(rec.token1_reserve_get_reserves, 200);
    assert_eq!(rec.token0_reserve_balance_of, 100);
    assert_eq!(rec.token1_reserve_balance_of, 205);
    assert_eq!(rec.block_num, 77);
}

#[test]
fn swapped_pair_is_strange() {
    let b = collect_pool_balances(&vec![Some(balances(addr(1), 200, 100))]);
    let rec = compare_pool(&addr(1), &reserved(100, 200), &b, &AddressMap::new()).unwrap();
    assert!(rec.strange_reserves);
}

#[test]
fn pool_without_balances_has_no_line() {
    let b = collect_pool_balances(&vec![Some(balances(addr(2), 1, 1))]);
    assert!(compare_pool(&addr(1), &reserved(1, 1), &b, &AddressMap::new()).is_none());
}

#[test]
fn addresses_are_written_in_full() {
    let mut bytes = [0u8; 20];
    for (i, b) in bytes.iter_mut().enumerate() {
        *b = (i as u8) + 1;
    }
    let pool = Address { bytes };
    let mut tp = reserved(1, 1);
    tp.pool.address = pool;
    let b = collect_pool_balances(&vec![Some(balances(pool, 1, 1))]);
    let rec = compare_pool(&pool, &tp, &b, &AddressMap::new()).unwrap();
    assert_eq!(rec.pair_address, "0x0102030405060708090a0b0c0d0e0f1011121314");
    assert_eq!(rec.token0_address, "0xabcd00000000000000000000000000000000000b");
    assert_eq!(rec.token1_address, "0xabcd00000000000000000000000000000000000c");
}

#[test]
fn unresolved_token_has_empty_symbol() {
    let b = collect_pool_balances(&vec![Some(balances(addr(1), 1, 1))]);
    let mut tokens = AddressMap::new();
    tokens.insert(addr(11), pool_token(addr(1), addr(11), "AAA"));
    let rec = compare_pool(&addr(1), &reserved(1, 1), &b, &tokens).unwrap();
    assert_eq!(rec.token0_symbol, "AAA");
    assert_eq!(rec.token1_symbol, "");
}

#[test]
fn report_leaves_out_pools_without_balances() {
    let pools = touched_pools_from_discoveries(&vec![
        Some(touched(addr(1), addr(11), addr(12), 1)),
        Some(touched(addr(2), addr(21), addr(22), 2)),
        Some(touched(addr(3), addr(31), addr(32), 3)),
    ]);
    let b = collect_pool_balances(&vec![Some(balances(addr(3), 1, 1)), Some(balances(addr(9), 1, 1))]);
    let report = process_pools_comparison(&pools, b, AddressMap::new());
    assert_eq!(report.len(), 1);
    assert_eq!(report[0].block_num, 3);
    assert_eq!(report[0].pair_address, "0xabcd000000000000000000000000000000000003");
}

#[test]
fn end_to_end_two_pools_in_one_chunk() {
    let ranges = block_number_chunks(100, 200);
    assert_eq!(ranges, vec![(100, 200)]);
    // One chunk answered with two swap logs, one per pool.
    let chunk_logs = vec![Some(vec![
        SwapLog { pool_address: addr(1), block_number: 150 },
        SwapLog { pool_address: addr(2), block_number: 160 },
    ])];
    let logs = swap_sightings(&chunk_logs);
    assert_eq!(logs.len(), 2);
    let token_of = |pool: &Address, side: u8| addr(pool.bytes[19] * 2 + side);
    let discoveries: Vec<Option<TouchedPool>> = logs
        .iter()
        .map(|l| Some(touched(l.pool_address, token_of(&l.pool_address, 1), token_of(&l.pool_address, 2), l.block_number)))
        .collect();
    let mut pools = touched_pools_from_discoveries(&discoveries);
    let requests = token_requests(&pools);
    assert_eq!(requests.len(), 4);
    let symbols = ["", "", "", "WETH", "USDC", "WBTC", "DAI"];
    let metadata: Vec<Option<PoolToken>> = requests
        .iter()
        .map(|(p, t)| Some(pool_token(*p, *t, symbols[t.bytes[19] as usize])))
        .collect();
    let tokens = collect_pool_tokens(&metadata);
    apply_pool_reserves(
        &mut pools,
        &vec![
            Some(PoolReserves { pool_address: addr(1), token_a_reserve: 100, token_b_reserve: 200 }),
            Some(PoolReserves { pool_address: addr(2), token_a_reserve: 300, token_b_reserve: 400 }),
        ],
    );
    let b = collect_pool_balances(&vec![
        Some(balances(addr(1), 100, 200)),
        Some(balances(addr(2), 300, 401)),
    ]);
    let report = process_pools_comparison(&pools, b, tokens);
    assert_eq!(report.len(), 2);
    let r1 = &report[0];
    assert_eq!(r1.pair_address, "0xabcd000000000000000000000000000000000001");
    assert_eq!(r1.token0_address, "0xabcd000000000000000000000000000000000003");
    assert_eq!(r1.token1_address, "0xabcd000000000000000000000000000000000004");
    assert_eq!(r1.token0_symbol, "WETH");
    assert_eq!(r1.token1_symbol, "USDC");
    assert_eq!((r1.token0_reserve_get_reserves, r1.token1_reserve_get_reserves), (100, 200));
    assert_eq!((r1.token0_reserve_balance_of, r1.token1_reserve_balance_of), (100, 200));
    assert_eq!(r1.block_num, 150);
    assert!(!r1.strange_reserves);
    let r2 = &report[1];
    assert_eq!(r2.pair_address, "0xabcd000000000000000000000000000000000002");
    assert_eq!(r2.token0_symbol, "WBTC");
    assert_eq!(r2.token1_symbol, "DAI");
    assert_eq!((r2.token0_reserve_get_reserves, r2.token1_reserve_get_reserves), (300, 400));
    assert_eq!((r2.token0_reserve_balance_of, r2.token1_reserve_balance_of), (300, 401));
    assert_eq!(r2.block_num, 160);
    assert!(r2.strange_reserves);
}
