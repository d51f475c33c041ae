//! Orchestration of a zap quote: optimal input split by bounded binary
//! search, LP estimation, overall price impact, and quote validation.

use vstd::prelude::*;
use crate::amm_logic::{
    calculate_lp_tokens_minted, calculate_price_impact, calculate_swap_out, min_int,
    spec_lp_minted, spec_lp_share, spec_price_impact, spec_swap_out,
};
use crate::pool_graph::{reserve_against, reserve_toward};
use crate::pool_provider::{canonical_pair, PoolProvider};
use crate::route_finder::{
    direct_pool_usable, is_pricing_error, lemma_remaining_fraction_errors,
    lemma_route_output_errors, spec_direct_output, spec_remaining_fraction, spec_route_impact,
    spec_route_output, RouteFinder,
};
use crate::types::{
    copy_path, AlkaneId, PoolReserves, RouteInfo, ZapError, ZapQuote, BASIS_POINTS,
};
use crate::u256::{mul_u128, pow2_256, U256};

verus! {

/// The fixed-point scale used for pool and output ratios.
pub const RATIO_SCALE: u128 = 1000000000000000000;

/// Quotes above this overall price impact are rejected.
pub const MAX_PRICE_IMPACT_BPS: u128 = 5000;

/// The exact overall price impact of a split zap: each route's
/// compounded impact weighted by its share of the total input.
pub open spec fn spec_overall_impact(
    pools: Map<(AlkaneId, AlkaneId), PoolReserves>,
    path_a: Seq<AlkaneId>,
    path_b: Seq<AlkaneId>,
    split_a: u128,
    split_b: u128,
) -> Result<int, ZapError> {
    if split_a + split_b == 0 {
        Ok(0)
    } else {
        match spec_route_impact(pools, path_a, split_a) {
            Err(e) => Err(e),
            Ok(impact_a) => match spec_route_impact(pools, path_b, split_b) {
                Err(e) => Err(e),
                Ok(impact_b) => Ok(
                    impact_a * split_a / (split_a + split_b) + impact_b * split_b / (split_a
                        + split_b),
                ),
            },
        }
    }
}

/// The bounded bisection fails only with a pricing error of a probed
/// split.
pub proof fn lemma_split_search_errors(
    pools: Map<(AlkaneId, AlkaneId), PoolReserves>,
    path_a: Seq<AlkaneId>,
    path_b: Seq<AlkaneId>,
    input: u128,
    target_ratio: int,
    left: int,
    right: int,
    best: (u128, u128),
    best_score: int,
    fuel: nat,
)
    ensures
        match spec_split_search(
            pools,
            path_a,
            path_b,
            input,
            target_ratio,
            left,
            right,
            best,
            best_score,
            fuel,
        ) {
            Ok(_) => true,
            Err(e) => is_pricing_error(e),
        },
    decreases fuel,
{
    if fuel != 0 && left <= right {
        let mid = left + (right - left) / 2;
        let split_a = mid;
        let split_b = input - mid;
        if split_a == 0 || split_b == 0 {
            if left < right {
                if split_a == 0 {
                    lemma_split_search_errors(
                        pools,
                        path_a,
                        path_b,
                        input,
                        target_ratio,
                        mid + 1,
                        right,
                        best,
                        best_score,
                        (fuel - 1) as nat,
                    );
                } else {
                    lemma_split_search_errors(
                        pools,
                        path_a,
                        path_b,
                        input,
                        target_ratio,
                        left,
                        mid - 1,
                        best,
                        best_score,
                        (fuel - 1) as nat,
                    );
                }
            }
        } else {
            lemma_route_output_errors(pools, path_a, split_a as u128);
            match spec_route_output(pools, path_a, split_a as u128) {
                Err(_) => {},
                Ok(expected_a) => {
                    lemma_route_output_errors(pools, path_b, split_b as u128);
                    match spec_route_output(pools, path_b, split_b as u128) {
                        Err(_) => {},
                        Ok(expected_b) => {
                            let score = spec_balance_score(expected_a, expected_b, target_ratio);
                            let new_best = if score < best_score {
                                (split_a as u128, split_b as u128)
                            } else {
                                best
                            };
                            let new_best_score = if score < best_score {
                                score
                            } else {
                                best_score
                            };
                            let ratio_too_high = if expected_b == 0 {
                                true
                            } else {
                                expected_a * RATIO_SCALE / expected_b as int > target_ratio
                            };
                            let new_left = if ratio_too_high {
                                left
                            } else {
                                mid + 1
                            };
                            let new_right = if ratio_too_high {
                                if mid == 0 {
                                    0int
                                } else {
                                    mid - 1
                                }
                            } else {
                                right
                            };
                            if new_left < new_right {
                                lemma_split_search_errors(
                                    pools,
                                    path_a,
                                    path_b,
                                    input,
                                    target_ratio,
                                    new_left,
                                    new_right,
                                    new_best,
                                    new_best_score,
                                    (fuel - 1) as nat,
                                );
                            }
                        },
                    }
                },
            }
        }
    }
}

/// The quote pipeline fails only with a pricing error or an `Overflow`
/// of the LP share; in particular never with a route-discovery error.
pub proof fn lemma_generate_quote_errors(
    pools: Map<(AlkaneId, AlkaneId), PoolReserves>,
    input_token: AlkaneId,
    input_amount: u128,
    target_token_a: AlkaneId,
    target_token_b: AlkaneId,
    route_a: RouteInfo,
    route_b: RouteInfo,
    target_pool: PoolReserves,
    slippage_tolerance_bps: u128,
)
    ensures
        match spec_generate_quote(
            pools,
            input_token,
            input_amount,
            target_token_a,
            target_token_b,
            route_a,
            route_b,
            target_pool,
            slippage_tolerance_bps,
        ) {
            Ok(_) => true,
            Err(e) => is_pricing_error(e) || e == ZapError::Overflow,
        },
{
    if input_amount != 0 && target_pool.reserve_b != 0 {
        let ratio = target_pool.reserve_a * RATIO_SCALE / target_pool.reserve_b as int;
        lemma_split_search_errors(
            pools,
            route_a.path@,
            route_b.path@,
            input_amount,
            ratio,
            0,
            input_amount as int,
            ((input_amount / 2) as u128, (input_amount - input_amount / 2) as u128),
            pow2_256() - 1,
            50,
        );
    }
    match spec_optimal_split(pools, route_a.path@, route_b.path@, input_amount, target_pool) {
        Err(_) => {},
        Ok((split_a, split_b)) => {
            lemma_route_output_errors(pools, route_a.path@, split_a);
            lemma_route_output_errors(pools, route_b.path@, split_b);
            lemma_remaining_fraction_errors(pools, route_a.path@, split_a, 10000);
            lemma_remaining_fraction_errors(pools, route_b.path@, split_b, 10000);
        },
    }
}

/// How far the achieved output ratio lies from the target pool ratio,
/// both scaled by `RATIO_SCALE`; a zero denominator scores as the worst
/// possible value.
pub open spec fn spec_balance_score(output_a: u128, output_b: u128, target_ratio: int) -> int {
    if output_b == 0 {
        pow2_256() - 1
    } else {
        let actual = output_a * RATIO_SCALE / output_b as int;
        if actual > target_ratio {
            actual - target_ratio
        } else {
            target_ratio - actual
        }
    }
}

/// The exact course of the bounded bisection over the split point: from
/// the state `(left, right, best, best_score)` with `fuel` trial rounds
/// remaining, the split it settles on, or the first pricing error it
/// runs into.  Degenerate trial splits narrow the corresponding bound;
/// every better-scoring split seen replaces the best one kept.
pub open spec fn spec_split_search(
    pools: Map<(AlkaneId, AlkaneId), PoolReserves>,
    path_a: Seq<AlkaneId>,
    path_b: Seq<AlkaneId>,
    input: u128,
    target_ratio: int,
    left: int,
    right: int,
    best: (u128, u128),
    best_score: int,
    fuel: nat,
) -> Result<(u128, u128), ZapError>
    decreases fuel,
{
    if fuel == 0 {
        Ok(best)
    } else if left > right {
        Ok(best)
    } else {
        let mid = left + (right - left) / 2;
        let split_a = mid;
        let split_b = input - mid;
        if split_a == 0 || split_b == 0 {
            if left >= right {
                Ok(best)
            } else if split_a == 0 {
                spec_split_search(
                    pools,
                    path_a,
                    path_b,
                    input,
                    target_ratio,
                    mid + 1,
                    right,
                    best,
                    best_score,
                    (fuel - 1) as nat,
                )
            } else {
                spec_split_search(
                    pools,
                    path_a,
                    path_b,
                    input,
                    target_ratio,
                    left,
                    mid - 1,
                    best,
                    best_score,
                    (fuel - 1) as nat,
                )
            }
        } else {
            match spec_route_output(pools, path_a, split_a as u128) {
                Err(e) => Err(e),
                Ok(expected_a) => match spec_route_output(pools, path_b, split_b as u128) {
                    Err(e) => Err(e),
                    Ok(expected_b) => {
                        let score = spec_balance_score(expected_a, expected_b, target_ratio);
                        let new_best = if score < best_score {
                            (split_a as u128, split_b as u128)
                        } else {
                            best
                        };
                        let new_best_score = if score < best_score {
                            score
                        } else {
                            best_score
                        };
                        let ratio_too_high = if expected_b == 0 {
                            true
                        } else {
                            expected_a * RATIO_SCALE / expected_b as int > target_ratio
                        };
                        let new_left = if ratio_too_high {
                            left
                        } else {
                            mid + 1
                        };
                        let new_right = if ratio_too_high {
                            if mid == 0 {
                                0int
                            } else {
                                mid - 1
                            }
                        } else {
                            right
                        };
                        if new_left >= new_right {
                            Ok(new_best)
                        } else {
                            spec_split_search(
                                pools,
                                path_a,
                                path_b,
                                input,
                                target_ratio,
                                new_left,
                                new_right,
                                new_best,
                                new_best_score,
                                (fuel - 1) as nat,
                            )
                        }
                    },
                },
            }
        }
    }
}

/// The exact optimal-split result: the bisection run over the target
/// pool's ratio from the full `[0, input]` range, starting from the even
/// split; any pricing error of a probed split surfaces unchanged.
pub open spec fn spec_optimal_split(
    pools: Map<(AlkaneId, AlkaneId), PoolReserves>,
    path_a: Seq<AlkaneId>,
    path_b: Seq<AlkaneId>,
    input: u128,
    target_pool: PoolReserves,
) -> Result<(u128, u128), ZapError> {
    if input == 0 {
        Err(ZapError::InvalidInput)
    } else if target_pool.reserve_b == 0 {
        Err(ZapError::InsufficientLiquidity)
    } else {
        let ratio = target_pool.reserve_a * RATIO_SCALE / target_pool.reserve_b as int;
        spec_split_search(
            pools,
            path_a,
            path_b,
            input,
            ratio,
            0,
            input as int,
            ((input / 2) as u128, (input - input / 2) as u128),
            pow2_256() - 1,
            50,
        )
    }
}

/// The exact quote assembled for the given routes against the snapshot
/// in `pools`: the optimal split, both legs repriced at it, the LP
/// estimate with its slippage-protected minimum, and the weighted
/// overall impact — or the first error this pipeline runs into.
///
/// Every executable quote computation returns exactly this value, so two
/// computations with identical inputs and an identical snapshot agree.
pub open spec fn spec_generate_quote(
    pools: Map<(AlkaneId, AlkaneId), PoolReserves>,
    input_token: AlkaneId,
    input_amount: u128,
    target_token_a: AlkaneId,
    target_token_b: AlkaneId,
    route_a: RouteInfo,
    route_b: RouteInfo,
    target_pool: PoolReserves,
    slippage_tolerance_bps: u128,
) -> Result<ZapQuote, ZapError> {
    match spec_optimal_split(pools, route_a.path@, route_b.path@, input_amount, target_pool) {
        Err(e) => Err(e),
        Ok((split_a, split_b)) => match spec_route_output(pools, route_a.path@, split_a) {
            Err(e) => Err(e),
            Ok(output_a) => match spec_route_output(pools, route_b.path@, split_b) {
                Err(e) => Err(e),
                Ok(output_b) => if target_pool.total_supply > 0 && (target_pool.reserve_a == 0
                    || target_pool.reserve_b == 0) {
                    Err(ZapError::InsufficientLiquidity)
                } else {
                    match spec_lp_minted(
                        output_a as int,
                        output_b as int,
                        target_pool.reserve_a as int,
                        target_pool.reserve_b as int,
                        target_pool.total_supply as int,
                    ) {
                        Err(e) => Err(e),
                        Ok(expected_lp) => if slippage_tolerance_bps > BASIS_POINTS {
                            Err(ZapError::InvalidInput)
                        } else {
                            let minimum_lp = (expected_lp * (10000 - slippage_tolerance_bps)
                                / 10000) as u128;
                            match spec_overall_impact(
                                pools,
                                route_a.path@,
                                route_b.path@,
                                split_a,
                                split_b,
                            ) {
                                Err(e) => Err(e),
                                Ok(impact) => Ok(
                                    ZapQuote {
                                        input_token,
                                        input_amount,
                                        target_token_a,
                                        target_token_b,
                                        route_a,
                                        route_b,
                                        split_amount_a: split_a,
                                        split_amount_b: split_b,
                                        expected_lp_tokens: expected_lp,
                                        price_impact: impact as u128,
                                        minimum_lp_tokens: minimum_lp,
                                    },
                                ),
                            }
                        },
                    }
                },
            },
        },
    }
}

/// Computes zap quotes: route pricing, split optimization, LP estimates,
/// and validation.
pub struct ZapCalculator;

impl ZapCalculator {
    /// Price `input_amount` along `route`, hop by hop; a direct
    /// contribution (single-token path) passes through unchanged.
    fn calculate_route_output<P: PoolProvider>(
        input_amount: u128,
        route: &RouteInfo,
        route_finder: &RouteFinder<P>,
    ) -> (r: Result<u128, ZapError>)
        ensures
            r == spec_route_output(route_finder.pool_provider.pools(), route.path@, input_amount),
    {
        let ghost pools = route_finder.pool_provider.pools();
        let ghost whole = spec_route_output(pools, route.path@, input_amount);
        if route.path.len() == 0 {
            return Err(ZapError::InvalidInput);
        }
        if route.path.len() == 1 {
            return Ok(input_amount);
        }
        let mut current_amount = input_amount;
        proof {
            assert(route.path@.skip(0) =~= route.path@);
        }
        let mut i: usize = 0;
        while i < route.path.len() - 1
            invariant
                route.path@.len() >= 2,
                0 <= i <= route.path@.len() - 1,
                pools == route_finder.pool_provider.pools(),
                whole == spec_route_output(pools, route.path@, input_amount),
                whole == spec_route_output(pools, route.path@.skip(i as int), current_amount),
            decreases route.path@.len() - 1 - i,
        {
            let ghost tail = route.path@.skip(i as int);
            proof {
                assert(tail.len() == route.path@.len() - i >= 2);
                assert(tail[0] == route.path@[i as int]);
                assert(tail[1] == route.path@[i + 1]);
            }
            let token_in = route.path[i];
            let token_out = route.path[i + 1];
            let pool = match route_finder.pool_provider.get_pool_reserves(token_in, token_out) {
                Ok(p) => p,
                Err(e) => {
                    proof {
                        assert(!pools.contains_key(canonical_pair(tail[0], tail[1])));
                        assert(spec_route_output(pools, tail, current_amount) == Err::<
                            u128,
                            ZapError,
                        >(ZapError::NotFound));
                    }
                    return Err(e);
                },
            };
            let (reserve_in, reserve_out) = if pool.token_a == token_in {
                (pool.reserve_a, pool.reserve_b)
            } else {
                (pool.reserve_b, pool.reserve_a)
            };
            proof {
                assert(reserve_in == reserve_toward(pools[canonical_pair(token_in, token_out)], token_in));
                assert(reserve_out == reserve_against(pools[canonical_pair(token_in, token_out)], token_in));
            }
            match calculate_swap_out(current_amount, reserve_in, reserve_out, pool.fee_rate) {
                Ok(out) => {
                    proof {
                        assert(tail.drop_first() =~= route.path@.skip(i + 1));
                    }
                    current_amount = out;
                },
                Err(e) => {
                    proof {
                        assert(pools[canonical_pair(tail[0], tail[1])] == pool);
                        assert(spec_route_output(pools, tail, current_amount) == Err::<
                            u128,
                            ZapError,
                        >(e));
                    }
                    return Err(e);
                },
            }
            i += 1;
        }
        proof {
            assert(route.path@.skip(route.path@.len() - 1).len() == 1);
        }
        Ok(current_amount)
    }

    /// The target pool's ratio `reserve_a / reserve_b`, scaled by
    /// `RATIO_SCALE`.
    fn get_pool_ratio(pool_reserves: &PoolReserves) -> (r: Result<U256, ZapError>)
        ensures
            match r {
                Ok(ratio) => pool_reserves.reserve_b > 0 && ratio.val() == pool_reserves.reserve_a
                    * RATIO_SCALE / pool_reserves.reserve_b as int,
                Err(ZapError::InsufficientLiquidity) => pool_reserves.reserve_b == 0,
                Err(_) => false,
            },
    {
        pool_reserves.get_price_ratio()
    }

    /// How balanced a pair of outputs is against the target ratio: the
    /// absolute fixed-point gap, smaller being better.
    fn calculate_balance_score(output_a: u128, output_b: u128, target_ratio: &U256) -> (r: U256)
        ensures
            r.val() == spec_balance_score(output_a, output_b, target_ratio.val()),
    {
        if output_b == 0 {
            return U256::max_value();
        }
        let (actual, _) = mul_u128(output_a, RATIO_SCALE).div_u128(output_b);
        if target_ratio.lt(&actual) {
            actual.sub_exact(*target_ratio)
        } else {
            target_ratio.sub_exact(actual)
        }
    }

    /// Binary-search the split of `input_amount` between the two routes
    /// that best matches the target pool ratio, keeping the best split
    /// seen; the returned split always sums to the input.
    fn binary_search_optimal_split<P: PoolProvider>(
        input_amount: u128,
        route_a: &RouteInfo,
        route_b: &RouteInfo,
        target_ratio: &U256,
        route_finder: &RouteFinder<P>,
    ) -> (r: Result<(u128, u128), ZapError>)
        requires
            input_amount > 0,
        ensures
            match r {
                Ok((split_a, split_b)) => split_a + split_b == input_amount,
                Err(_) => true,
            },
            r == spec_split_search(
                route_finder.pool_provider.pools(),
                route_a.path@,
                route_b.path@,
                input_amount,
                target_ratio.val(),
                0,
                input_amount as int,
                ((input_amount / 2) as u128, (input_amount - input_amount / 2) as u128),
                pow2_256() - 1,
                50,
            ),
    {
        let ghost pools = route_finder.pool_provider.pools();
        let mut left: u128 = 0;
        let mut right: u128 = input_amount;
        let mut best_split: (u128, u128) = (input_amount / 2, input_amount - input_amount / 2);
        let mut best_score = U256::max_value();
        let mut iter: usize = 0;
        let ghost goal = spec_split_search(
            pools,
            route_a.path@,
            route_b.path@,
            input_amount,
            target_ratio.val(),
            0,
            input_amount as int,
            best_split,
            pow2_256() - 1,
            50,
        );
        while iter < 50
            invariant_except_break
                goal == spec_split_search(
                    pools,
                    route_a.path@,
                    route_b.path@,
                    input_amount,
                    target_ratio.val(),
                    left as int,
                    right as int,
                    best_split,
                    best_score.val(),
                    (50 - iter) as nat,
                ),
            invariant
                input_amount > 0,
                left <= right + 1,
                right <= input_amount,
                best_split.0 + best_split.1 == input_amount,
                iter <= 50,
                pools == route_finder.pool_provider.pools(),
                goal == spec_split_search(
                    pools,
                    route_a.path@,
                    route_b.path@,
                    input_amount,
                    target_ratio.val(),
                    0,
                    input_amount as int,
                    ((input_amount / 2) as u128, (input_amount - input_amount / 2) as u128),
                    pow2_256() - 1,
                    50,
                ),
            ensures
                goal == Ok::<(u128, u128), ZapError>(best_split),
                best_split.0 + best_split.1 == input_amount,
            decreases 50 - iter,
        {
            if left > right {
                break ;
            }
            let mid = left + (right - left) / 2;
            let split_a = mid;
            let split_b = input_amount - mid;
            if split_a == 0 || split_b == 0 {
                if left >= right {
                    break ;
                }
                if split_a == 0 {
                    left = mid + 1;
                } else {
                    right = mid - 1;
                }
                iter += 1;
                continue ;
            }
            let expected_a = match Self::calculate_route_output(split_a, route_a, route_finder) {
                Ok(a) => a,
                Err(e) => {
                    proof {
                        assert(goal == Err::<(u128, u128), ZapError>(e));
                    }
                    return Err(e);
                },
            };
            let expected_b = match Self::calculate_route_output(split_b, route_b, route_finder) {
                Ok(b) => b,
                Err(e) => {
                    proof {
                        assert(goal == Err::<(u128, u128), ZapError>(e));
                    }
                    return Err(e);
                },
            };
            let balance_score = Self::calculate_balance_score(expected_a, expected_b, target_ratio);
            if balance_score.lt(&best_score) {
                best_score = balance_score;
                best_split = (split_a, split_b);
            }
            // Move toward the side that reduces the ratio gap.
            let ratio_too_high: bool = if expected_b == 0 {
                true
            } else {
                let (current_ratio, _) = mul_u128(expected_a, RATIO_SCALE).div_u128(expected_b);
                target_ratio.lt(&current_ratio)
            };
            if ratio_too_high {
                right = if mid == 0 {
                    0
                } else {
                    mid - 1
                };
            } else {
                left = mid + 1;
            }
            if left >= right {
                break ;
            }
            iter += 1;
        }
        Ok(best_split)
    }

    /// Optimal split of the input between the two routes for a balanced
    /// deposit into the target pool.
    ///
    /// The split conserves the input exactly; a zero input is rejected as
    /// `InvalidInput`, a drained target pool as `InsufficientLiquidity`,
    /// and any error from pricing a probed split surfaces unchanged.
    pub fn calculate_optimal_split<P: PoolProvider>(
        input_amount: u128,
        route_a: &RouteInfo,
        route_b: &RouteInfo,
        target_pool_reserves: &PoolReserves,
        route_finder: &RouteFinder<P>,
    ) -> (r: Result<(u128, u128), ZapError>)
        ensures
            match r {
                Ok((split_a, split_b)) => input_amount > 0 && split_a + split_b == input_amount,
                Err(_) => true,
            },
            input_amount == 0 ==> r == Err::<(u128, u128), ZapError>(ZapError::InvalidInput),
            input_amount > 0 && target_pool_reserves.reserve_b == 0 ==> r == Err::<
                (u128, u128),
                ZapError,
            >(ZapError::InsufficientLiquidity),
            r == spec_optimal_split(
                route_finder.pool_provider.pools(),
                route_a.path@,
                route_b.path@,
                input_amount,
                *target_pool_reserves,
            ),
    {
        if input_amount == 0 {
            return Err(ZapError::InvalidInput);
        }
        let pool_ratio = match Self::get_pool_ratio(target_pool_reserves) {
            Ok(ratio) => ratio,
            Err(e) => {
                return Err(e);
            },
        };
        Self::binary_search_optimal_split(input_amount, route_a, route_b, &pool_ratio, route_finder)
    }

    /// Expected LP tokens for depositing both amounts into the target
    /// pool.
    pub fn calculate_expected_lp_tokens(
        amount_a: u128,
        amount_b: u128,
        pool_reserves: &PoolReserves,
    ) -> (r: Result<u128, ZapError>)
        requires
            pool_reserves.total_supply > 0 ==> pool_reserves.reserve_a > 0
                && pool_reserves.reserve_b > 0,
        ensures
            match r {
                Ok(lp) => {
                    if pool_reserves.total_supply == 0 {
                        lp * lp <= amount_a * amount_b < (lp + 1) * (lp + 1)
                    } else {
                        lp == min_int(
                            spec_lp_share(
                                amount_a as int,
                                pool_reserves.total_supply as int,
                                pool_reserves.reserve_a as int,
                            ),
                            spec_lp_share(
                                amount_b as int,
                                pool_reserves.total_supply as int,
                                pool_reserves.reserve_b as int,
                            ),
                        )
                    }
                },
                Err(ZapError::Overflow) => pool_reserves.total_supply > 0,
                Err(_) => false,
            },
            r == spec_lp_minted(
                amount_a as int,
                amount_b as int,
                pool_reserves.reserve_a as int,
                pool_reserves.reserve_b as int,
                pool_reserves.total_supply as int,
            ),
    {
        calculate_lp_tokens_minted(
            amount_a,
            amount_b,
            pool_reserves.reserve_a,
            pool_reserves.reserve_b,
            pool_reserves.total_supply,
        )
    }

    /// Minimum acceptable LP tokens under the slippage tolerance:
    /// `expected * (10000 - slippage) / 10000`, exactly; a tolerance above
    /// 100% is rejected.
    pub fn calculate_minimum_lp_tokens(
        expected_lp_tokens: u128,
        slippage_tolerance_bps: u128,
    ) -> (r: Result<u128, ZapError>)
        ensures
            match r {
                Ok(m) => slippage_tolerance_bps <= BASIS_POINTS && m == expected_lp_tokens * (
                10000 - slippage_tolerance_bps) / 10000 && m <= expected_lp_tokens,
                Err(ZapError::InvalidInput) => slippage_tolerance_bps > BASIS_POINTS,
                Err(_) => false,
            },
    {
        if slippage_tolerance_bps > BASIS_POINTS {
            return Err(ZapError::InvalidInput);
        }
        let slippage_multiplier = BASIS_POINTS - slippage_tolerance_bps;
        let (minimum, _) = mul_u128(expected_lp_tokens, slippage_multiplier).div_u128(10000);
        proof {
            assert(minimum.val() <= expected_lp_tokens) by (nonlinear_arith)
                requires
                    minimum.val() == expected_lp_tokens * slippage_multiplier / 10000,
                    0 <= slippage_multiplier <= 10000,
                    expected_lp_tokens >= 0;
        }
        match minimum.try_to_u128() {
            Some(m) => Ok(m),
            None => {
                proof {
                    assert(false);
                }
                Err(ZapError::Overflow)
            },
        }
    }

    /// The multiplicatively compounded price impact of a route at the
    /// given amount: each hop multiplies the remaining fraction by
    /// `(10000 - hopImpact) / 10000`, and the impact is what was lost.
    fn calculate_route_price_impact<P: PoolProvider>(
        input_amount: u128,
        route: &RouteInfo,
        route_finder: &RouteFinder<P>,
    ) -> (r: Result<u128, ZapError>)
        ensures
            match r {
                Ok(impact) => impact <= 10000 && spec_route_impact(
                    route_finder.pool_provider.pools(),
                    route.path@,
                    input_amount,
                ) == Ok::<int, ZapError>(impact as int),
                Err(e) => spec_route_impact(
                    route_finder.pool_provider.pools(),
                    route.path@,
                    input_amount,
                ) == Err::<int, ZapError>(e),
            },
    {
        let ghost pools = route_finder.pool_provider.pools();
        let ghost whole = spec_remaining_fraction(pools, route.path@, input_amount, 10000);
        let mut remaining_fraction: u128 = 10000;
        let mut current_amount = input_amount;
        if route.path.len() == 0 {
            return Ok(0);
        }
        proof {
            assert(route.path@.skip(0) =~= route.path@);
        }
        let mut i: usize = 0;
        while i < route.path.len() - 1
            invariant
                route.path@.len() >= 1,
                0 <= i <= route.path@.len() - 1,
                remaining_fraction <= 10000,
                pools == route_finder.pool_provider.pools(),
                whole == spec_remaining_fraction(pools, route.path@, input_amount, 10000),
                whole == spec_remaining_fraction(
                    pools,
                    route.path@.skip(i as int),
                    current_amount,
                    remaining_fraction as int,
                ),
            decreases route.path@.len() - 1 - i,
        {
            let ghost tail = route.path@.skip(i as int);
            proof {
                assert(tail.len() == route.path@.len() - i >= 2);
                assert(tail[0] == route.path@[i as int]);
                assert(tail[1] == route.path@[i + 1]);
            }
            let token_in = route.path[i];
            let token_out = route.path[i + 1];
            let pool = match route_finder.pool_provider.get_pool_reserves(token_in, token_out) {
                Ok(p) => p,
                Err(e) => {
                    proof {
                        assert(!pools.contains_key(canonical_pair(tail[0], tail[1])));
                        assert(spec_remaining_fraction(
                            pools,
                            tail,
                            current_amount,
                            remaining_fraction as int,
                        ) == Err::<int, ZapError>(ZapError::NotFound));
                    }
                    return Err(e);
                },
            };
            let (reserve_in, reserve_out) = if pool.token_a == token_in {
                (pool.reserve_a, pool.reserve_b)
            } else {
                (pool.reserve_b, pool.reserve_a)
            };
            proof {
                assert(reserve_in == reserve_toward(
                    pools[canonical_pair(token_in, token_out)],
                    token_in,
                ));
                assert(reserve_out == reserve_against(
                    pools[canonical_pair(token_in, token_out)],
                    token_in,
                ));
            }
            let amount_out = match calculate_swap_out(
                current_amount,
                reserve_in,
                reserve_out,
                pool.fee_rate,
            ) {
                Ok(a) => a,
                Err(e) => {
                    proof {
                        assert(pools[canonical_pair(tail[0], tail[1])] == pool);
                        assert(spec_remaining_fraction(
                            pools,
                            tail,
                            current_amount,
                            remaining_fraction as int,
                        ) == Err::<int, ZapError>(e));
                    }
                    return Err(e);
                },
            };
            let impact = match calculate_price_impact(
                current_amount,
                reserve_in,
                amount_out,
                reserve_out,
            ) {
                Ok(x) => x,
                Err(e) => {
                    return Err(e);
                },
            };
            proof {
                assert(tail.drop_first() =~= route.path@.skip(i + 1));
                assert(remaining_fraction * (10000 - impact) <= 100000000 && remaining_fraction
                    * (10000 - impact) / 10000 <= 10000) by (nonlinear_arith)
                    requires
                        0 <= remaining_fraction <= 10000,
                        0 <= impact <= 10000;
            }
            remaining_fraction = remaining_fraction * (10000 - impact) / 10000;
            current_amount = amount_out;
            i += 1;
        }
        proof {
            assert(route.path@.skip(route.path@.len() - 1).len() == 1);
        }
        Ok(10000 - remaining_fraction)
    }

    /// Overall price impact: each route's impact weighted by its share of
    /// the input.
    fn calculate_overall_price_impact<P: PoolProvider>(
        route_a: &RouteInfo,
        route_b: &RouteInfo,
        split_a: u128,
        split_b: u128,
        route_finder: &RouteFinder<P>,
    ) -> (r: Result<u128, ZapError>)
        requires
            split_a + split_b <= u128::MAX,
        ensures
            match r {
                Ok(impact) => impact <= 10000 && spec_overall_impact(
                    route_finder.pool_provider.pools(),
                    route_a.path@,
                    route_b.path@,
                    split_a,
                    split_b,
                ) == Ok::<int, ZapError>(impact as int),
                Err(e) => spec_overall_impact(
                    route_finder.pool_provider.pools(),
                    route_a.path@,
                    route_b.path@,
                    split_a,
                    split_b,
                ) == Err::<int, ZapError>(e),
            },
    {
        let total_input = split_a + split_b;
        if total_input == 0 {
            return Ok(0);
        }
        let impact_a = match Self::calculate_route_price_impact(split_a, route_a, route_finder) {
            Ok(x) => x,
            Err(e) => {
                return Err(e);
            },
        };
        let impact_b = match Self::calculate_route_price_impact(split_b, route_b, route_finder) {
            Ok(x) => x,
            Err(e) => {
                return Err(e);
            },
        };
        let (wa, _) = mul_u128(impact_a, split_a).div_u128(total_input);
        let (wb, _) = mul_u128(impact_b, split_b).div_u128(total_input);
        proof {
            lemma_weighted_share_bound(impact_a as int, split_a as int, total_input as int, wa.val());
            lemma_weighted_share_bound(impact_b as int, split_b as int, total_input as int, wb.val());
            // A convex combination of two impacts of at most 100% stays at
            // most 100%.
            vstd::arithmetic::div_mod::lemma_fundamental_div_mod(
                impact_a * split_a,
                total_input as int,
            );
            vstd::arithmetic::div_mod::lemma_fundamental_div_mod(
                impact_b * split_b,
                total_input as int,
            );
            assert(wa.val() + wb.val() <= 10000) by (nonlinear_arith)
                requires
                    impact_a * split_a == total_input * (impact_a * split_a / (total_input as int))
                        + (impact_a * split_a) % (total_input as int),
                    impact_b * split_b == total_input * (impact_b * split_b / (total_input as int))
                        + (impact_b * split_b) % (total_input as int),
                    (impact_a * split_a) % (total_input as int) >= 0,
                    (impact_b * split_b) % (total_input as int) >= 0,
                    wa.val() == impact_a * split_a / (total_input as int),
                    wb.val() == impact_b * split_b / (total_input as int),
                    impact_a <= 10000,
                    impact_b <= 10000,
                    split_a + split_b == total_input,
                    total_input > 0,
                    split_a >= 0,
                    split_b >= 0;
        }
        let weighted_a = match wa.try_to_u128() {
            Some(x) => x,
            None => {
                proof {
                    assert(false);
                }
                return Err(ZapError::Overflow);
            },
        };
        let weighted_b = match wb.try_to_u128() {
            Some(x) => x,
            None => {
                proof {
                    assert(false);
                }
                return Err(ZapError::Overflow);
            },
        };
        Ok(weighted_a + weighted_b)
    }
    /// Assemble a complete quote: optimal split, expected outputs, LP
    /// estimates with slippage protection, and overall price impact.
    ///
    /// The split conserves the input exactly and the minimum LP amount is
    /// exactly `expected * (10000 - slippage) / 10000`.
    pub fn generate_zap_quote<P: PoolProvider>(
        input_token: AlkaneId,
        input_amount: u128,
        target_token_a: AlkaneId,
        target_token_b: AlkaneId,
        route_a: RouteInfo,
        route_b: RouteInfo,
        target_pool_reserves: &PoolReserves,
        slippage_tolerance_bps: u128,
        route_finder: &RouteFinder<P>,
    ) -> (r: Result<ZapQuote, ZapError>)
        ensures
            match r {
                Ok(q) => {
                    &&& input_amount > 0
                    &&& slippage_tolerance_bps <= BASIS_POINTS
                    &&& q.input_token == input_token
                    &&& q.input_amount == input_amount
                    &&& q.target_token_a == target_token_a
                    &&& q.target_token_b == target_token_b
                    &&& q.route_a == route_a
                    &&& q.route_b == route_b
                    &&& q.split_amount_a + q.split_amount_b == input_amount
                    &&& q.minimum_lp_tokens == q.expected_lp_tokens * (10000
                        - slippage_tolerance_bps) / 10000
                    &&& q.minimum_lp_tokens <= q.expected_lp_tokens
                },
                Err(_) => true,
            },
            input_amount == 0 ==> r == Err::<ZapQuote, ZapError>(ZapError::InvalidInput),
            r == spec_generate_quote(
                route_finder.pool_provider.pools(),
                input_token,
                input_amount,
                target_token_a,
                target_token_b,
                route_a,
                route_b,
                *target_pool_reserves,
                slippage_tolerance_bps,
            ),
    {
        let (split_a, split_b) = match Self::calculate_optimal_split(
            input_amount,
            &route_a,
            &route_b,
            target_pool_reserves,
            route_finder,
        ) {
            Ok(split) => split,
            Err(e) => {
                return Err(e);
            },
        };
        let expected_output_a = match Self::calculate_route_output(split_a, &route_a, route_finder) {
            Ok(a) => a,
            Err(e) => {
                return Err(e);
            },
        };
        let expected_output_b = match Self::calculate_route_output(split_b, &route_b, route_finder) {
            Ok(b) => b,
            Err(e) => {
                return Err(e);
            },
        };
        if target_pool_reserves.total_supply > 0 && (target_pool_reserves.reserve_a == 0
            || target_pool_reserves.reserve_b == 0) {
            return Err(ZapError::InsufficientLiquidity);
        }
        let expected_lp_tokens = match Self::calculate_expected_lp_tokens(
            expected_output_a,
            expected_output_b,
            target_pool_reserves,
        ) {
            Ok(lp) => lp,
            Err(e) => {
                return Err(e);
            },
        };
        let minimum_lp_tokens = match Self::calculate_minimum_lp_tokens(
            expected_lp_tokens,
            slippage_tolerance_bps,
        ) {
            Ok(m) => m,
            Err(e) => {
                return Err(e);
            },
        };
        let price_impact = match Self::calculate_overall_price_impact(
            &route_a,
            &route_b,
            split_a,
            split_b,
            route_finder,
        ) {
            Ok(x) => x,
            Err(e) => {
                return Err(e);
            },
        };
        Ok(
            ZapQuote::new(input_token, input_amount, target_token_a, target_token_b).with_routes(
                route_a,
                route_b,
            ).with_split(split_a, split_b).with_lp_estimate(
                expected_lp_tokens,
                minimum_lp_tokens,
            ).with_price_impact(price_impact),
        )
    }

    /// Accept a quote exactly when it is structurally sound, mints a
    /// positive LP amount no smaller than its own minimum, and stays
    /// under the price-impact ceiling; an over-ceiling impact is the one
    /// condition reported as `ExcessiveImpact`.
    pub fn validate_zap_quote(quote: &ZapQuote) -> (r: Result<(), ZapError>)
        ensures
            match r {
                Ok(()) => quote.spec_valid() && quote.expected_lp_tokens > 0
                    && quote.minimum_lp_tokens <= quote.expected_lp_tokens && quote.price_impact
                    <= MAX_PRICE_IMPACT_BPS,
                Err(ZapError::ExcessiveImpact) => quote.spec_valid() && quote.expected_lp_tokens
                    > 0 && quote.minimum_lp_tokens <= quote.expected_lp_tokens
                    && quote.price_impact > MAX_PRICE_IMPACT_BPS,
                Err(ZapError::InvalidInput) => !(quote.spec_valid() && quote.expected_lp_tokens > 0
                    && quote.minimum_lp_tokens <= quote.expected_lp_tokens),
                Err(_) => false,
            },
    {
        match quote.validate() {
            Ok(()) => {},
            Err(e) => {
                return Err(e);
            },
        }
        if quote.expected_lp_tokens == 0 {
            return Err(ZapError::InvalidInput);
        }
        if quote.minimum_lp_tokens > quote.expected_lp_tokens {
            return Err(ZapError::InvalidInput);
        }
        if quote.price_impact > MAX_PRICE_IMPACT_BPS {
            return Err(ZapError::ExcessiveImpact);
        }
        Ok(())
    }

    /// The full quoting pipeline: discover a route to each target (a
    /// target equal to the input token is a direct contribution, and each
    /// leg's search excludes the other target as an intermediate hop),
    /// optimize the split against the destination pool, estimate LP
    /// tokens, and validate the assembled quote.
    ///
    /// Every quote returned conserves the input across the split, starts
    /// both routes at the input token and ends them at their targets,
    /// never routes one leg through the other leg's target, honours the
    /// slippage formula, and stays under the price-impact ceiling.
    pub fn get_zap_quote<P: PoolProvider>(
        factory_id: AlkaneId,
        base_tokens: &Vec<AlkaneId>,
        pool_provider: &P,
        input_token: AlkaneId,
        input_amount: u128,
        target_token_a: AlkaneId,
        target_token_b: AlkaneId,
        max_slippage_bps: u128,
    ) -> (r: Result<ZapQuote, ZapError>)
        ensures
            match r {
                Ok(q) => {
                    &&& input_amount > 0
                    &&& target_token_a != target_token_b
                    &&& max_slippage_bps <= BASIS_POINTS
                    &&& q.input_token == input_token
                    &&& q.input_amount == input_amount
                    &&& q.target_token_a == target_token_a
                    &&& q.target_token_b == target_token_b
                    &&& q.spec_valid()
                    &&& q.split_amount_a + q.split_amount_b == input_amount
                    &&& q.expected_lp_tokens > 0
                    &&& q.minimum_lp_tokens <= q.expected_lp_tokens
                    &&& q.minimum_lp_tokens == q.expected_lp_tokens * (10000 - max_slippage_bps)
                        / 10000
                    &&& q.price_impact <= MAX_PRICE_IMPACT_BPS
                    &&& (input_token == target_token_a ==> q.route_a.path@.len() == 1
                        && q.route_a.path@[0] == input_token)
                    &&& (input_token == target_token_b ==> q.route_b.path@.len() == 1
                        && q.route_b.path@[0] == input_token)
                    &&& forall|i: int|
                        0 < i < q.route_a.path@.len() - 1 ==> #[trigger] q.route_a.path@[i]
                            != target_token_b
                    &&& forall|i: int|
                        0 < i < q.route_b.path@.len() - 1 ==> #[trigger] q.route_b.path@[i]
                            != target_token_a
                    &&& (input_token == target_token_a ==> q.route_a.expected_output
                        == input_amount / 2 && q.route_a.price_impact == 0
                        && q.route_a.gas_estimate == 0)
                    &&& (input_token == target_token_b ==> q.route_b.expected_output
                        == input_amount / 2 && q.route_b.price_impact == 0
                        && q.route_b.gas_estimate == 0)
                    &&& (input_token != target_token_a ==> {
                        let pools = pool_provider.pools();
                        let half = (input_amount / 2) as u128;
                        &&& spec_route_output(pools, q.route_a.path@, half) == Ok::<
                            u128,
                            ZapError,
                        >(q.route_a.expected_output)
                        &&& spec_route_impact(pools, q.route_a.path@, half) == Ok::<
                            int,
                            ZapError,
                        >(q.route_a.price_impact as int)
                        &&& q.route_a.gas_estimate == (q.route_a.path@.len() - 1) * 50000
                        &&& (direct_pool_usable(pools, input_token, target_token_a)
                            ==> q.route_a.expected_output >= spec_direct_output(
                            pools,
                            input_token,
                            target_token_a,
                            half,
                        ))
                    })
                    &&& (input_token != target_token_b ==> {
                        let pools = pool_provider.pools();
                        let half = (input_amount / 2) as u128;
                        &&& spec_route_output(pools, q.route_b.path@, half) == Ok::<
                            u128,
                            ZapError,
                        >(q.route_b.expected_output)
                        &&& spec_route_impact(pools, q.route_b.path@, half) == Ok::<
                            int,
                            ZapError,
                        >(q.route_b.price_impact as int)
                        &&& q.route_b.gas_estimate == (q.route_b.path@.len() - 1) * 50000
                        &&& (direct_pool_usable(pools, input_token, target_token_b)
                            ==> q.route_b.expected_output >= spec_direct_output(
                            pools,
                            input_token,
                            target_token_b,
                            half,
                        ))
                    })
                },
                Err(_) => true,
            },
            // When each leg is a direct contribution or has a funded direct
            // pool, the request cannot fail for want of a route.
            (input_amount >= 2 && target_token_a != target_token_b && max_slippage_bps
                <= BASIS_POINTS && (input_token == target_token_a || direct_pool_usable(
                pool_provider.pools(),
                input_token,
                target_token_a,
            )) && (input_token == target_token_b || direct_pool_usable(
                pool_provider.pools(),
                input_token,
                target_token_b,
            ))) ==> r != Err::<ZapQuote, ZapError>(ZapError::SameToken) && r != Err::<
                ZapQuote,
                ZapError,
            >(ZapError::ZeroAmount) && r != Err::<ZapQuote, ZapError>(ZapError::RouteNotFound),
            input_amount == 0 ==> r == Err::<ZapQuote, ZapError>(ZapError::InvalidInput),
            target_token_a == target_token_b ==> r == Err::<ZapQuote, ZapError>(
                ZapError::InvalidInput,
            ),
            max_slippage_bps > BASIS_POINTS ==> r == Err::<ZapQuote, ZapError>(
                ZapError::InvalidInput,
            ),
    {
        if input_amount == 0 || target_token_a == target_token_b || max_slippage_bps
            > BASIS_POINTS {
            return Err(ZapError::InvalidInput);
        }
        let half = input_amount / 2;
        let route_a = if input_token == target_token_a {
            let mut path: Vec<AlkaneId> = Vec::new();
            path.push(input_token);
            RouteInfo::new(path, half)
        } else {
            let mut ex: Vec<AlkaneId> = Vec::new();
            ex.push(target_token_b);
            let finder = RouteFinder::new(factory_id, pool_provider).with_base_tokens(
                copy_path(base_tokens),
            ).with_excluded_intermediate_tokens(ex.as_slice());
            proof {
                assert(finder.excluded_intermediate_tokens@[0] == target_token_b);
            }
            match finder.find_best_route(input_token, target_token_a, half) {
                Ok(route) => route,
                Err(e) => {
                    return Err(e);
                },
            }
        };
        let route_b = if input_token == target_token_b {
            let mut path: Vec<AlkaneId> = Vec::new();
            path.push(input_token);
            RouteInfo::new(path, half)
        } else {
            let mut ex: Vec<AlkaneId> = Vec::new();
            ex.push(target_token_a);
            let finder = RouteFinder::new(factory_id, pool_provider).with_base_tokens(
                copy_path(base_tokens),
            ).with_excluded_intermediate_tokens(ex.as_slice());
            proof {
                assert(finder.excluded_intermediate_tokens@[0] == target_token_a);
            }
            match finder.find_best_route(input_token, target_token_b, half) {
                Ok(route) => route,
                Err(e) => {
                    return Err(e);
                },
            }
        };
        let target_pool = match pool_provider.get_pool_reserves(target_token_a, target_token_b) {
            Ok(p) => p,
            Err(e) => {
                return Err(e);
            },
        };
        // Orient the snapshot so that `reserve_a` belongs to `target_token_a`,
        // whichever way the pool stores the pair.
        let target_pool = if target_pool.token_a == target_token_a {
            target_pool
        } else {
            PoolReserves::new(
                target_token_a,
                target_token_b,
                target_pool.reserve_b,
                target_pool.reserve_a,
                target_pool.total_supply,
                target_pool.fee_rate,
            )
        };
        let pricing_finder = RouteFinder::new(factory_id, pool_provider);
        proof {
            lemma_generate_quote_errors(
                pool_provider.pools(),
                input_token,
                input_amount,
                target_token_a,
                target_token_b,
                route_a,
                route_b,
                target_pool,
                max_slippage_bps,
            );
        }
        let quote = match Self::generate_zap_quote(
            input_token,
            input_amount,
            target_token_a,
            target_token_b,
            route_a,
            route_b,
            &target_pool,
            max_slippage_bps,
            &pricing_finder,
        ) {
            Ok(q) => q,
            Err(e) => {
                return Err(e);
            },
        };
        match Self::validate_zap_quote(&quote) {
            Ok(()) => Ok(quote),
            Err(e) => Err(e),
        }
    }
}

/// A share-weighted value never exceeds the value itself:
/// `x * part / whole <= x` when `part <= whole`.
proof fn lemma_weighted_share_bound(x: int, part: int, whole: int, q: int)
    requires
        0 < whole,
        0 <= part <= whole,
        0 <= x,
        q == x * part / whole,
    ensures
        0 <= q <= x,
{
    vstd::arithmetic::div_mod::lemma_fundamental_div_mod(x * part, whole);
    assert(0 <= q <= x) by (nonlinear_arith)
        requires
            x * part == whole * ((x * part) / whole) + (x * part) % whole,
            0 <= (x * part) % whole,
            q == x * part / whole,
            0 <= part <= whole,
            0 <= x,
            0 < whole;
}

} // verus!
