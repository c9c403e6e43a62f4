use vstd::prelude::*;

use crate::address::Address;

verus! {

/// A constant-reserve-pair pool: its address, its two tokens and the reserves
/// that the pool itself reports.
#[derive(Clone, Copy, Debug)]
pub struct Pool {
    pub address: Address,
    pub token_a: Address,
    pub token_b: Address,
    pub reserve_0: u128,
    pub reserve_1: u128,
}

/// A pool seen in a swap log, with the block of that log.
#[derive(Clone, Copy, Debug)]
pub struct TouchedPool {
    pub pool: Pool,
    pub action_block: u64,
}

/// A swap log reduced to what discovery reads: the emitting pool and its block.
#[derive(Clone, Copy, Debug)]
pub struct SwapLog {
    pub pool_address: Address,
    pub block_number: u64,
}

/// Resolved token metadata.
#[derive(Debug)]
pub struct Token {
    pub address: Address,
    pub name: String,
    pub symbol: String,
    pub decimals: u8,
}

/// A token, with the pool for which it was resolved.
#[derive(Debug)]
pub struct PoolToken {
    pub pool_address: Address,
    pub token: Token,
}

/// The reserves that a pool reports.
#[derive(Clone, Copy, Debug)]
pub struct PoolReserves {
    pub pool_address: Address,
    pub token_a_reserve: u128,
    pub token_b_reserve: u128,
}

/// The balances that a pool's two tokens credit to the pool.
#[derive(Clone, Copy, Debug)]
pub struct PoolTokenBalances {
    pub pool_address: Address,
    pub token_a_balance: u128,
    pub token_b_balance: u128,
}

/// One line of the reconciliation report.
#[derive(Debug)]
pub struct TouchedPoolJson {
    pub pair_address: String,
    pub token0_address: String,
    pub token1_address: String,
    pub token0_symbol: String,
    pub token1_symbol: String,
    pub token0_reserve_get_reserves: u128,
    pub token1_reserve_get_reserves: u128,
    pub token0_reserve_balance_of: u128,
    pub token1_reserve_balance_of: u128,
    pub block_num: u64,
    pub strange_reserves: bool,
}

impl Token {
    /// A field-for-field copy.
    pub fn copy(&self) -> (r: Token)
        ensures
            r == *self,
    {
        Token {
            address: self.address,
            name: self.name.clone(),
            symbol: self.symbol.clone(),
            decimals: self.decimals,
        }
    }
}

impl PoolToken {
    /// A field-for-field copy.
    pub fn copy(&self) -> (r: PoolToken)
        ensures
            r == *self,
    {
        PoolToken { pool_address: self.pool_address, token: self.token.copy() }
    }
}

} // verus!
