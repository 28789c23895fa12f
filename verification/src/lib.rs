//! Arbitrage path finding over Uniswap-style liquidity pools.
pub mod types;
pub mod constants;
pub mod univ2pool;
pub mod univ3pool;
pub mod maps;
pub mod pool;
pub mod poolgraph;
pub mod calculator;
pub mod edgegraph;
