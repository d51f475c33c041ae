//! Core value types of the quoting engine: token identifiers, pool
//! snapshots, routes, quotes, request parameters, and the error taxonomy.

use vstd::prelude::*;
use crate::u256::{mul_u128, U256};

verus! {

/// 100% expressed in basis points.
pub const BASIS_POINTS: u128 = 10000;

/// Maximum number of hops allowed in a route.
pub const MAX_HOPS: usize = 3;

/// Default fee amount per 1000 units (0.5%).
pub const DEFAULT_FEE_AMOUNT_PER_1000: u128 = 5;

/// Minimum liquidity for new pools.
pub const MINIMUM_LIQUIDITY: u128 = 1000;

/// Identifier of a token: an opaque, totally ordered two-component key.
#[derive(Debug, Clone, Copy, PartialEq, Eq, Hash, PartialOrd, Ord, Structural)]
pub struct AlkaneId {
    pub block: u128,
    pub tx: u128,
}

impl AlkaneId {
    /// Total order on identifiers: lexicographic on (block, tx).
    pub open spec fn spec_le(self, other: AlkaneId) -> bool {
        self.block < other.block || (self.block == other.block && self.tx <= other.tx)
    }

    /// Executable comparison matching `spec_le`.
    pub fn le(&self, other: &AlkaneId) -> (r: bool)
        ensures
            r == self.spec_le(*other),
    {
        self.block < other.block || (self.block == other.block && self.tx <= other.tx)
    }
}

/// Whether `v` holds `x`.
pub fn contains_token(v: &Vec<AlkaneId>, x: AlkaneId) -> (r: bool)
    ensures
        r == v@.contains(x),
{
    let mut i: usize = 0;
    while i < v.len()
        invariant
            0 <= i <= v@.len(),
            forall|j: int| 0 <= j < i ==> v@[j] != x,
        decreases v@.len() - i,
    {
        if v[i] == x {
            return true;
        }
        i += 1;
    }
    false
}

/// An element-for-element copy of a token path.
pub fn copy_path(v: &Vec<AlkaneId>) -> (r: Vec<AlkaneId>)
    ensures
        r@ == v@,
{
    let mut r: Vec<AlkaneId> = Vec::new();
    let mut i: usize = 0;
    while i < v.len()
        invariant
            0 <= i <= v@.len(),
            r@ =~= v@.subrange(0, i as int),
        decreases v@.len() - i,
    {
        r.push(v[i]);
        proof {
            assert(r@ =~= v@.subrange(0, i + 1));
        }
        i += 1;
    }
    proof {
        assert(r@ =~= v@);
    }
    r
}

/// Everything that can go wrong while quoting or pricing a zap.
#[derive(Debug, Clone, Copy, PartialEq, Eq, Structural)]
pub enum ZapError {
    /// A zero amount, identical tokens where distinct ones are required, or
    /// a basis-point parameter out of range.
    InvalidInput,
    /// No pool exists for a required pair.
    NotFound,
    /// A route was requested from a token to itself.
    SameToken,
    /// A route was requested for a zero input amount.
    ZeroAmount,
    /// The graph search exhausted its hop bound without reaching the target.
    RouteNotFound,
    /// A pool leg has a zero reserve.
    InsufficientLiquidity,
    /// An arithmetic result cannot be represented in 128 bits.
    Overflow,
    /// The computed price impact exceeds the configured ceiling.
    ExcessiveImpact,
    /// Realized LP tokens fell below the quoted minimum.
    SlippageExceeded,
}

/// One candidate conversion path with its pricing summary.
///
/// A path of length 1 denotes a direct contribution: the token already is
/// the target, and the amount passes through unchanged.
#[derive(Debug, Clone, PartialEq)]
pub struct RouteInfo {
    pub path: Vec<AlkaneId>,
    pub expected_output: u128,
    pub price_impact: u128,
    pub gas_estimate: u128,
}

impl RouteInfo {
    /// A route along `path` expecting `expected_output`, with no impact or
    /// gas recorded yet.
    pub fn new(path: Vec<AlkaneId>, expected_output: u128) -> (r: RouteInfo)
        ensures
            r.path@ == path@,
            r.expected_output == expected_output,
            r.price_impact == 0,
            r.gas_estimate == 0,
    {
        RouteInfo { path, expected_output, price_impact: 0, gas_estimate: 0 }
    }

    /// The same route with the price impact recorded.
    pub fn with_price_impact(self, price_impact: u128) -> (r: RouteInfo)
        ensures
            r.path@ == self.path@,
            r.expected_output == self.expected_output,
            r.price_impact == price_impact,
            r.gas_estimate == self.gas_estimate,
    {
        RouteInfo { price_impact, ..self }
    }

    /// The same route with the gas estimate recorded.
    pub fn with_gas_estimate(self, gas_estimate: u128) -> (r: RouteInfo)
        ensures
            r.path@ == self.path@,
            r.expected_output == self.expected_output,
            r.price_impact == self.price_impact,
            r.gas_estimate == gas_estimate,
    {
        RouteInfo { gas_estimate, ..self }
    }

    /// Whether the route is a single direct swap.
    pub fn is_direct_route(&self) -> (r: bool)
        ensures
            r == (self.path@.len() == 2),
    {
        self.path.len() == 2
    }

    /// The number of swaps along the route.
    pub fn hop_count(&self) -> (r: usize)
        ensures
            r == if self.path@.len() < 2 {
                0int
            } else {
                self.path@.len() - 1
            },
    {
        if self.path.len() < 2 {
            0
        } else {
            self.path.len() - 1
        }
    }
}

/// A fully assembled zap quote.
#[derive(Debug, Clone)]
pub struct ZapQuote {
    pub input_token: AlkaneId,
    pub input_amount: u128,
    pub target_token_a: AlkaneId,
    pub target_token_b: AlkaneId,
    pub route_a: RouteInfo,
    pub route_b: RouteInfo,
    pub split_amount_a: u128,
    pub split_amount_b: u128,
    pub expected_lp_tokens: u128,
    pub price_impact: u128,
    pub minimum_lp_tokens: u128,
}

impl ZapQuote {
    /// Whether the quote satisfies all structural invariants: conservation
    /// of the input across the split, and routes that start at the input
    /// token and end at the respective targets.
    pub open spec fn spec_valid(&self) -> bool {
        &&& self.input_amount > 0
        &&& self.split_amount_a + self.split_amount_b == self.input_amount
        &&& self.route_a.path@.len() > 0
        &&& self.route_b.path@.len() > 0
        &&& self.route_a.path@[0] == self.input_token
        &&& self.route_b.path@[0] == self.input_token
        &&& self.route_a.path@.last() == self.target_token_a
        &&& self.route_b.path@.last() == self.target_token_b
    }

    /// An empty quote for the given request corners; the routes, split,
    /// and estimates are filled in by the builder methods.
    pub fn new(
        input_token: AlkaneId,
        input_amount: u128,
        target_token_a: AlkaneId,
        target_token_b: AlkaneId,
    ) -> (r: ZapQuote)
        ensures
            r.input_token == input_token,
            r.input_amount == input_amount,
            r.target_token_a == target_token_a,
            r.target_token_b == target_token_b,
            r.route_a.path@.len() == 0,
            r.route_b.path@.len() == 0,
            r.route_a.expected_output == 0,
            r.route_b.expected_output == 0,
            r.split_amount_a == 0,
            r.split_amount_b == 0,
            r.expected_lp_tokens == 0,
            r.price_impact == 0,
            r.minimum_lp_tokens == 0,
    {
        ZapQuote {
            input_token,
            input_amount,
            target_token_a,
            target_token_b,
            route_a: RouteInfo::new(Vec::new(), 0),
            route_b: RouteInfo::new(Vec::new(), 0),
            split_amount_a: 0,
            split_amount_b: 0,
            expected_lp_tokens: 0,
            price_impact: 0,
            minimum_lp_tokens: 0,
        }
    }

    /// The same quote with both routes recorded.
    pub fn with_routes(self, route_a: RouteInfo, route_b: RouteInfo) -> (r: ZapQuote)
        ensures
            r == (ZapQuote { route_a, route_b, ..self }),
    {
        ZapQuote { route_a, route_b, ..self }
    }

    /// The same quote with the input split recorded.
    pub fn with_split(self, split_amount_a: u128, split_amount_b: u128) -> (r: ZapQuote)
        ensures
            r == (ZapQuote { split_amount_a, split_amount_b, ..self }),
    {
        ZapQuote { split_amount_a, split_amount_b, ..self }
    }

    /// The same quote with the LP estimates recorded.
    pub fn with_lp_estimate(self, expected_lp_tokens: u128, minimum_lp_tokens: u128) -> (r:
        ZapQuote)
        ensures
            r == (ZapQuote { expected_lp_tokens, minimum_lp_tokens, ..self }),
    {
        ZapQuote { expected_lp_tokens, minimum_lp_tokens, ..self }
    }

    /// The same quote with the overall price impact recorded.
    pub fn with_price_impact(self, price_impact: u128) -> (r: ZapQuote)
        ensures
            r == (ZapQuote { price_impact, ..self }),
    {
        ZapQuote { price_impact, ..self }
    }

    /// Check the structural invariants, exactly when they hold.
    pub fn validate(&self) -> (r: Result<(), ZapError>)
        ensures
            r.is_ok() <==> self.spec_valid(),
            r.is_err() ==> r == Err::<(), ZapError>(ZapError::InvalidInput),
    {
        if self.input_amount == 0 {
            return Err(ZapError::InvalidInput);
        }
        if self.split_amount_a > self.input_amount
            || self.input_amount - self.split_amount_a != self.split_amount_b {
            return Err(ZapError::InvalidInput);
        }
        if self.route_a.path.len() == 0 || self.route_b.path.len() == 0 {
            return Err(ZapError::InvalidInput);
        }
        if self.route_a.path[0] != self.input_token || self.route_b.path[0] != self.input_token {
            return Err(ZapError::InvalidInput);
        }
        let end_a = self.route_a.path[self.route_a.path.len() - 1];
        let end_b = self.route_b.path[self.route_b.path.len() - 1];
        if end_a != self.target_token_a || end_b != self.target_token_b {
            return Err(ZapError::InvalidInput);
        }
        Ok(())
    }

    /// Post-execution check exposed for the execution layer: whether the
    /// realized LP amount meets the quoted minimum.
    pub fn check_received_lp(&self, received: u128) -> (r: Result<(), ZapError>)
        ensures
            r.is_ok() <==> received >= self.minimum_lp_tokens,
            r.is_err() ==> r == Err::<(), ZapError>(ZapError::SlippageExceeded),
    {
        if received < self.minimum_lp_tokens {
            Err(ZapError::SlippageExceeded)
        } else {
            Ok(())
        }
    }
}

/// A read-only snapshot of one pool's state.
#[derive(Debug, Clone, Copy)]
pub struct PoolReserves {
    pub token_a: AlkaneId,
    pub token_b: AlkaneId,
    pub reserve_a: u128,
    pub reserve_b: u128,
    pub total_supply: u128,
    pub fee_rate: u128,
}

impl PoolReserves {
    /// A snapshot with the given fields.
    pub fn new(
        token_a: AlkaneId,
        token_b: AlkaneId,
        reserve_a: u128,
        reserve_b: u128,
        total_supply: u128,
        fee_rate: u128,
    ) -> (r: PoolReserves)
        ensures
            r == (PoolReserves { token_a, token_b, reserve_a, reserve_b, total_supply, fee_rate }),
    {
        PoolReserves { token_a, token_b, reserve_a, reserve_b, total_supply, fee_rate }
    }

    /// The reserve on the side of `token`, if the token is in the pool.
    pub fn get_reserve_for_token(&self, token: &AlkaneId) -> (r: Option<u128>)
        ensures
            r == if *token == self.token_a {
                Some(self.reserve_a)
            } else if *token == self.token_b {
                Some(self.reserve_b)
            } else {
                None::<u128>
            },
    {
        if *token == self.token_a {
            Some(self.reserve_a)
        } else if *token == self.token_b {
            Some(self.reserve_b)
        } else {
            None
        }
    }

    /// The pool's price ratio `reserve_a / reserve_b`, scaled by `10^18`.
    pub fn get_price_ratio(&self) -> (r: Result<U256, ZapError>)
        ensures
            match r {
                Ok(ratio) => self.reserve_b > 0 && ratio.val() == self.reserve_a
                    * 1000000000000000000 / self.reserve_b as int,
                Err(ZapError::InsufficientLiquidity) => self.reserve_b == 0,
                Err(_) => false,
            },
    {
        if self.reserve_b == 0 {
            return Err(ZapError::InsufficientLiquidity);
        }
        let (ratio, _) = mul_u128(self.reserve_a, 1000000000000000000).div_u128(self.reserve_b);
        Ok(ratio)
    }
}

/// A validated zap request envelope.
#[derive(Debug, Clone)]
pub struct ZapParams {
    pub input_token: AlkaneId,
    pub input_amount: u128,
    pub target_token_a: AlkaneId,
    pub target_token_b: AlkaneId,
    pub min_lp_tokens: u128,
    pub deadline: u128,
    pub max_slippage_bps: u128,
}

impl ZapParams {
    /// A request with the default 5% slippage tolerance.
    pub fn new(
        input_token: AlkaneId,
        input_amount: u128,
        target_token_a: AlkaneId,
        target_token_b: AlkaneId,
        min_lp_tokens: u128,
        deadline: u128,
    ) -> (r: ZapParams)
        ensures
            r == (ZapParams {
                input_token,
                input_amount,
                target_token_a,
                target_token_b,
                min_lp_tokens,
                deadline,
                max_slippage_bps: 500u128,
            }),
    {
        ZapParams {
            input_token,
            input_amount,
            target_token_a,
            target_token_b,
            min_lp_tokens,
            deadline,
            max_slippage_bps: 500,
        }
    }

    /// The same request with the slippage tolerance replaced.
    pub fn with_max_slippage(self, max_slippage_bps: u128) -> (r: ZapParams)
        ensures
            r == (ZapParams { max_slippage_bps, ..self }),
    {
        ZapParams { max_slippage_bps, ..self }
    }

    /// Whether the request is acceptable.
    pub open spec fn spec_valid(&self, current_time: u128) -> bool {
        &&& self.input_amount > 0
        &&& self.deadline > current_time
        &&& self.max_slippage_bps <= 10000
        &&& self.input_token != self.target_token_a
        &&& self.input_token != self.target_token_b
        &&& self.target_token_a != self.target_token_b
    }

    /// Validate the request against the caller-supplied current time,
    /// accepting exactly when every field is in range.
    pub fn validate(&self, current_time: u128) -> (r: Result<(), ZapError>)
        ensures
            r.is_ok() <==> self.spec_valid(current_time),
            r.is_err() ==> r == Err::<(), ZapError>(ZapError::InvalidInput),
    {
        if self.input_amount == 0 {
            return Err(ZapError::InvalidInput);
        }
        if self.deadline <= current_time {
            return Err(ZapError::InvalidInput);
        }
        if self.max_slippage_bps > 10000 {
            return Err(ZapError::InvalidInput);
        }
        if self.input_token == self.target_token_a || self.input_token == self.target_token_b {
            return Err(ZapError::InvalidInput);
        }
        if self.target_token_a == self.target_token_b {
            return Err(ZapError::InvalidInput);
        }
        Ok(())
    }
}

} // verus!
