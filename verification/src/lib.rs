//! Quoting engine for zapping a single asset into a constant-product AMM
//! liquidity position: route discovery across a pool graph, invariant
//! pricing, input-split optimization, and quote validation.

pub mod types;
pub mod contract;
pub mod u256;
pub mod amm_logic;
pub mod pool_provider;
pub mod pool_graph;
pub mod route_finder;
pub mod zap_calculator;

pub use contract::OylZap;
pub use types::{ZapError, DEFAULT_FEE_AMOUNT_PER_1000, MAX_HOPS, BASIS_POINTS, MINIMUM_LIQUIDITY};
