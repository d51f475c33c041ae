//! Discovery and scoring of swap paths between two tokens: the direct
//! pool, single hops through configured base tokens, and a bounded
//! breadth-first search over the pool graph.

use vstd::prelude::*;
use crate::amm_logic::{
    calculate_price_impact, calculate_swap_out, spec_price_impact, spec_swap_out,
};
use crate::pool_graph::{reserve_against, reserve_toward};
use crate::pool_provider::{canonical_pair, PoolProvider};
use crate::types::{contains_token, copy_path, AlkaneId, PoolReserves, RouteInfo, ZapError, MAX_HOPS};

verus! {

/// The exact result of pricing `amount` along `path` against the pools in
/// `pools`: each hop applies the constant-product formula, a single-token
/// path passes the amount through unchanged, and the errors mirror the
/// hop-wise pricing exactly.
pub open spec fn spec_route_output(
    pools: Map<(AlkaneId, AlkaneId), PoolReserves>,
    path: Seq<AlkaneId>,
    amount: u128,
) -> Result<u128, ZapError>
    decreases path.len(),
{
    if path.len() == 0 {
        Err(ZapError::InvalidInput)
    } else if path.len() == 1 {
        Ok(amount)
    } else {
        let key = canonical_pair(path[0], path[1]);
        if !pools.contains_key(key) {
            Err(ZapError::NotFound)
        } else {
            let p = pools[key];
            let rin = reserve_toward(p, path[0]);
            let rout = reserve_against(p, path[0]);
            if amount == 0 {
                Err(ZapError::InvalidInput)
            } else if rin == 0 || rout == 0 {
                Err(ZapError::InsufficientLiquidity)
            } else {
                spec_route_output(
                    pools,
                    path.drop_first(),
                    spec_swap_out(amount as int, rin as int, rout as int, p.fee_rate as int) as u128,
                )
            }
        }
    }
}

/// The remaining fraction of value, in basis points, after pricing
/// `amount` along `path` starting from `remaining`: each hop scales it
/// by `(10000 - hopImpact) / 10000`, rounded down, and the errors mirror
/// the hop-wise pricing exactly.
pub open spec fn spec_remaining_fraction(
    pools: Map<(AlkaneId, AlkaneId), PoolReserves>,
    path: Seq<AlkaneId>,
    amount: u128,
    remaining: int,
) -> Result<int, ZapError>
    decreases path.len(),
{
    if path.len() <= 1 {
        Ok(remaining)
    } else {
        let key = canonical_pair(path[0], path[1]);
        if !pools.contains_key(key) {
            Err(ZapError::NotFound)
        } else {
            let p = pools[key];
            let rin = reserve_toward(p, path[0]);
            let rout = reserve_against(p, path[0]);
            if amount == 0 {
                Err(ZapError::InvalidInput)
            } else if rin == 0 || rout == 0 {
                Err(ZapError::InsufficientLiquidity)
            } else {
                let out = spec_swap_out(amount as int, rin as int, rout as int, p.fee_rate as int);
                let impact = spec_price_impact(amount as int, rin as int, out, rout as int);
                spec_remaining_fraction(
                    pools,
                    path.drop_first(),
                    out as u128,
                    remaining * (10000 - impact) / 10000,
                )
            }
        }
    }
}

/// The multiplicatively compounded price impact of pricing `amount`
/// along `path`: what the hops take from a remaining fraction that
/// starts at 10000 basis points.  Per-hop impacts compound, they are
/// never summed.
pub open spec fn spec_route_impact(
    pools: Map<(AlkaneId, AlkaneId), PoolReserves>,
    path: Seq<AlkaneId>,
    amount: u128,
) -> Result<int, ZapError> {
    match spec_remaining_fraction(pools, path, amount, 10000) {
        Ok(remaining) => Ok(10000 - remaining),
        Err(e) => Err(e),
    }
}

/// The exact output of the direct pool for `(from, to)` at `amount`,
/// priced from `from`'s side with the pool's own fee.
pub open spec fn spec_direct_output(
    pools: Map<(AlkaneId, AlkaneId), PoolReserves>,
    from: AlkaneId,
    to: AlkaneId,
    amount: u128,
) -> int {
    let p = pools[canonical_pair(from, to)];
    spec_swap_out(
        amount as int,
        reserve_toward(p, from) as int,
        reserve_against(p, from) as int,
        p.fee_rate as int,
    )
}

/// Appending one more hop to a priced path prices the carried amount
/// through the new hop's pool.
pub proof fn lemma_route_output_extend(
    pools: Map<(AlkaneId, AlkaneId), PoolReserves>,
    path: Seq<AlkaneId>,
    next: AlkaneId,
    amount: u128,
    carried: u128,
)
    requires
        path.len() >= 1,
        spec_route_output(pools, path, amount) == Ok::<u128, ZapError>(carried),
        pools.contains_key(canonical_pair(path.last(), next)),
        carried > 0,
        reserve_toward(pools[canonical_pair(path.last(), next)], path.last()) > 0,
        reserve_against(pools[canonical_pair(path.last(), next)], path.last()) > 0,
    ensures
        spec_route_output(pools, path.push(next), amount) == Ok::<u128, ZapError>(
            spec_swap_out(
                carried as int,
                reserve_toward(pools[canonical_pair(path.last(), next)], path.last()) as int,
                reserve_against(pools[canonical_pair(path.last(), next)], path.last()) as int,
                pools[canonical_pair(path.last(), next)].fee_rate as int,
            ) as u128,
        ),
    decreases path.len(),
{
    let t = path.push(next);
    if path.len() == 1 {
        assert(carried == amount);
        assert(t.len() == 2);
        assert(t[0] == path[0] && t[1] == next);
        assert(t.drop_first() =~= seq![next]);
        assert(spec_route_output(pools, t.drop_first(), spec_swap_out(
            carried as int,
            reserve_toward(pools[canonical_pair(path.last(), next)], path.last()) as int,
            reserve_against(pools[canonical_pair(path.last(), next)], path.last()) as int,
            pools[canonical_pair(path.last(), next)].fee_rate as int,
        ) as u128) == Ok::<u128, ZapError>(spec_swap_out(
            carried as int,
            reserve_toward(pools[canonical_pair(path.last(), next)], path.last()) as int,
            reserve_against(pools[canonical_pair(path.last(), next)], path.last()) as int,
            pools[canonical_pair(path.last(), next)].fee_rate as int,
        ) as u128));
    } else {
        // The first hop of `path` must have priced successfully for the
        // overall result to be Ok; both sides unfold through it alike.
        let key = canonical_pair(path[0], path[1]);
        assert(pools.contains_key(key));
        let p = pools[key];
        let out0 = spec_swap_out(
            amount as int,
            reserve_toward(p, path[0]) as int,
            reserve_against(p, path[0]) as int,
            p.fee_rate as int,
        ) as u128;
        assert(spec_route_output(pools, path.drop_first(), out0) == Ok::<u128, ZapError>(carried));
        assert(path.drop_first().last() == path.last());
        lemma_route_output_extend(pools, path.drop_first(), next, out0, carried);
        assert(t[0] == path[0] && t[1] == path[1]);
        assert(t.drop_first() =~= path.drop_first().push(next));
    }
}

/// Whether an error can arise from pricing a path: a missing hop pool,
/// a zero amount (or empty path), or a drained hop reserve.
pub open spec fn is_pricing_error(e: ZapError) -> bool {
    e == ZapError::NotFound || e == ZapError::InvalidInput || e == ZapError::InsufficientLiquidity
}

/// Path pricing fails only with a pricing error.
pub proof fn lemma_route_output_errors(
    pools: Map<(AlkaneId, AlkaneId), PoolReserves>,
    path: Seq<AlkaneId>,
    amount: u128,
)
    ensures
        match spec_route_output(pools, path, amount) {
            Ok(_) => true,
            Err(e) => is_pricing_error(e),
        },
    decreases path.len(),
{
    if path.len() >= 2 {
        let key = canonical_pair(path[0], path[1]);
        if pools.contains_key(key) {
            let p = pools[key];
            let rin = reserve_toward(p, path[0]);
            let rout = reserve_against(p, path[0]);
            if amount != 0 && rin != 0 && rout != 0 {
                lemma_route_output_errors(
                    pools,
                    path.drop_first(),
                    spec_swap_out(
                        amount as int,
                        rin as int,
                        rout as int,
                        p.fee_rate as int,
                    ) as u128,
                );
            }
        }
    }
}

/// Path impact compounding fails only with a pricing error.
pub proof fn lemma_remaining_fraction_errors(
    pools: Map<(AlkaneId, AlkaneId), PoolReserves>,
    path: Seq<AlkaneId>,
    amount: u128,
    remaining: int,
)
    ensures
        match spec_remaining_fraction(pools, path, amount, remaining) {
            Ok(_) => true,
            Err(e) => is_pricing_error(e),
        },
    decreases path.len(),
{
    if path.len() >= 2 {
        let key = canonical_pair(path[0], path[1]);
        if pools.contains_key(key) {
            let p = pools[key];
            let rin = reserve_toward(p, path[0]);
            let rout = reserve_against(p, path[0]);
            if amount != 0 && rin != 0 && rout != 0 {
                let out = spec_swap_out(amount as int, rin as int, rout as int, p.fee_rate as int);
                let impact = spec_price_impact(amount as int, rin as int, out, rout as int);
                lemma_remaining_fraction_errors(
                    pools,
                    path.drop_first(),
                    out as u128,
                    remaining * (10000 - impact) / 10000,
                );
            }
        }
    }
}

/// Whenever a path prices to an output, its impact compounding succeeds
/// as well: the two recursions guard on exactly the same conditions.
pub proof fn lemma_pricing_agree(
    pools: Map<(AlkaneId, AlkaneId), PoolReserves>,
    path: Seq<AlkaneId>,
    amount: u128,
    remaining: int,
)
    requires
        spec_route_output(pools, path, amount) is Ok,
    ensures
        spec_remaining_fraction(pools, path, amount, remaining) is Ok,
    decreases path.len(),
{
    if path.len() >= 2 {
        let key = canonical_pair(path[0], path[1]);
        let p = pools[key];
        let rin = reserve_toward(p, path[0]);
        let rout = reserve_against(p, path[0]);
        let out = spec_swap_out(amount as int, rin as int, rout as int, p.fee_rate as int);
        let impact = spec_price_impact(amount as int, rin as int, out, rout as int);
        lemma_pricing_agree(
            pools,
            path.drop_first(),
            out as u128,
            remaining * (10000 - impact) / 10000,
        );
    }
}

/// A route that may be returned for a search from `from` to `to` with the
/// intermediate tokens in `excluded` forbidden: it runs from `from` to
/// `to` in at most `MAX_HOPS` cycle-free hops, never passes through an
/// excluded token on the way, and carries an impact of at most 100%.
pub open spec fn valid_route(
    route: RouteInfo,
    from: AlkaneId,
    to: AlkaneId,
    excluded: Seq<AlkaneId>,
) -> bool {
    &&& route.path@.len() >= 2
    &&& route.path@.len() <= MAX_HOPS + 1
    &&& route.path@[0] == from
    &&& route.path@.last() == to
    &&& route.path@.no_duplicates()
    &&& forall|i: int|
        0 < i < route.path@.len() - 1 ==> !excluded.contains(#[trigger] route.path@[i])
    &&& route.price_impact <= 10000
}

/// A route as the search actually prices it: structurally valid, and
/// carrying exactly the hop-by-hop output at `amount` of the pools in
/// `pools`, the multiplicatively compounded path impact at `amount`, and
/// the linear per-hop gas estimate.
pub open spec fn priced_route(
    pools: Map<(AlkaneId, AlkaneId), PoolReserves>,
    route: RouteInfo,
    from: AlkaneId,
    to: AlkaneId,
    amount: u128,
    excluded: Seq<AlkaneId>,
) -> bool {
    &&& valid_route(route, from, to, excluded)
    &&& spec_route_output(pools, route.path@, amount) == Ok::<u128, ZapError>(
        route.expected_output,
    )
    &&& spec_route_impact(pools, route.path@, amount) == Ok::<int, ZapError>(
        route.price_impact as int,
    )
    &&& route.gas_estimate == (route.path@.len() - 1) * 50000
}

/// A path still being explored: it starts at `from` and never passes
/// through `to` or an excluded token after that.
pub open spec fn wf_partial_path(
    path: Seq<AlkaneId>,
    from: AlkaneId,
    to: AlkaneId,
    excluded: Seq<AlkaneId>,
) -> bool {
    &&& path.len() >= 1
    &&& path[0] == from
    &&& path.no_duplicates()
    &&& forall|i: int|
        1 <= i < path.len() ==> path[i] != to && !excluded.contains(#[trigger] path[i])
}

/// The destination pool is directly usable: it exists and both reserves
/// are funded.  Under this condition a route search cannot fail.
pub open spec fn direct_pool_usable(
    pools: Map<(AlkaneId, AlkaneId), PoolReserves>,
    from: AlkaneId,
    to: AlkaneId,
) -> bool {
    &&& pools.contains_key(canonical_pair(from, to))
    &&& pools[canonical_pair(from, to)].reserve_a > 0
    &&& pools[canonical_pair(from, to)].reserve_b > 0
}

/// Enumerates and scores candidate swap paths between two tokens.
pub struct RouteFinder<'a, P: PoolProvider> {
    pub oyl_factory_id: AlkaneId,
    pub common_base_tokens: Vec<AlkaneId>,
    pub pool_provider: &'a P,
    pub excluded_intermediate_tokens: Vec<AlkaneId>,
}

impl<'a, P: PoolProvider> RouteFinder<'a, P> {
    /// A finder over `pool_provider` with no base tokens and no
    /// exclusions configured.
    pub fn new(oyl_factory_id: AlkaneId, pool_provider: &'a P) -> (r: RouteFinder<'a, P>)
        ensures
            r.oyl_factory_id == oyl_factory_id,
            r.pool_provider == pool_provider,
            r.common_base_tokens@.len() == 0,
            r.excluded_intermediate_tokens@.len() == 0,
    {
        RouteFinder {
            oyl_factory_id,
            common_base_tokens: Vec::new(),
            pool_provider,
            excluded_intermediate_tokens: Vec::new(),
        }
    }

    /// The same finder with the base-token list replaced.
    pub fn with_base_tokens(self, base_tokens: Vec<AlkaneId>) -> (r: RouteFinder<'a, P>)
        ensures
            r.oyl_factory_id == self.oyl_factory_id,
            r.pool_provider == self.pool_provider,
            r.common_base_tokens@ == base_tokens@,
            r.excluded_intermediate_tokens@ == self.excluded_intermediate_tokens@,
    {
        RouteFinder { common_base_tokens: base_tokens, ..self }
    }

    /// The same finder forbidding the given tokens as intermediate hops.
    pub fn with_excluded_intermediate_tokens(self, tokens: &[AlkaneId]) -> (r: RouteFinder<
        'a,
        P,
    >)
        ensures
            r.oyl_factory_id == self.oyl_factory_id,
            r.pool_provider == self.pool_provider,
            r.common_base_tokens@ == self.common_base_tokens@,
            r.excluded_intermediate_tokens@ == tokens@,
    {
        let mut excluded: Vec<AlkaneId> = Vec::new();
        let mut i: usize = 0;
        while i < tokens.len()
            invariant
                0 <= i <= tokens@.len(),
                excluded@ =~= tokens@.subrange(0, i as int),
            decreases tokens@.len() - i,
        {
            excluded.push(tokens[i]);
            proof {
                assert(excluded@ =~= tokens@.subrange(0, i + 1));
            }
            i += 1;
        }
        proof {
            assert(excluded@ =~= tokens@);
        }
        RouteFinder { excluded_intermediate_tokens: excluded, ..self }
    }

    /// The single best route from `from_token` to `to_token`: among all
    /// candidates discovered, one with the greatest expected output.
    ///
    /// Every returned route is priced exactly: its expected output is
    /// the hop-by-hop pricing of `amount_in` with each hop pool's own
    /// fee, its impact is the compounded path impact, and its gas
    /// estimate is linear in its hops.  Fails with `SameToken` exactly
    /// when the endpoints coincide, with `ZeroAmount` exactly when the
    /// amount is zero, and with `RouteNotFound` when the search found no
    /// candidate; when the two tokens share a directly usable pool, a
    /// route is always found and its output is at least the direct
    /// pool's.
    pub fn find_best_route(&self, from_token: AlkaneId, to_token: AlkaneId, amount_in: u128) -> (r:
        Result<RouteInfo, ZapError>)
        ensures
            match r {
                Ok(route) => from_token != to_token && amount_in > 0 && priced_route(
                    self.pool_provider.pools(),
                    route,
                    from_token,
                    to_token,
                    amount_in,
                    self.excluded_intermediate_tokens@,
                ) && (direct_pool_usable(self.pool_provider.pools(), from_token, to_token)
                    ==> route.expected_output >= spec_direct_output(
                    self.pool_provider.pools(),
                    from_token,
                    to_token,
                    amount_in,
                )),
                Err(ZapError::SameToken) => from_token == to_token,
                Err(ZapError::ZeroAmount) => from_token != to_token && amount_in == 0,
                Err(ZapError::RouteNotFound) => from_token != to_token && amount_in > 0
                    && !direct_pool_usable(self.pool_provider.pools(), from_token, to_token),
                Err(_) => false,
            },
    {
        if from_token == to_token {
            return Err(ZapError::SameToken);
        }
        if amount_in == 0 {
            return Err(ZapError::ZeroAmount);
        }
        let ghost pools = self.pool_provider.pools();
        let mut routes = self.find_all_routes(from_token, to_token, amount_in);
        let ghost usable = direct_pool_usable(pools, from_token, to_token);
        let ghost direct_out = spec_direct_output(pools, from_token, to_token, amount_in);
        let mut best: Option<RouteInfo> = None;
        while routes.len() > 0
            invariant
                pools == self.pool_provider.pools(),
                usable == direct_pool_usable(pools, from_token, to_token),
                direct_out == spec_direct_output(pools, from_token, to_token, amount_in),
                forall|i: int|
                    0 <= i < routes@.len() ==> priced_route(
                        pools,
                        #[trigger] routes@[i],
                        from_token,
                        to_token,
                        amount_in,
                        self.excluded_intermediate_tokens@,
                    ),
                match best {
                    Some(b) => priced_route(
                        pools,
                        b,
                        from_token,
                        to_token,
                        amount_in,
                        self.excluded_intermediate_tokens@,
                    ),
                    None => true,
                },
                usable ==> (exists|i: int|
                    0 <= i < routes@.len() && (#[trigger] routes@[i]).expected_output
                        == direct_out) || (best matches Some(b) && b.expected_output
                    >= direct_out),
            decreases routes@.len(),
        {
            let ghost before = routes@;
            match routes.pop() {
                Some(candidate) => {
                    let better = match &best {
                        Some(b) => candidate.expected_output > b.expected_output,
                        None => true,
                    };
                    if better {
                        best = Some(candidate);
                    }
                    proof {
                        // The direct pool's output stays represented: either
                        // its witness survives in the list, or the best route
                        // kept already beats it.
                        if usable {
                            if exists|i: int|
                                0 <= i < before.len() && (#[trigger] before[i]).expected_output
                                    == direct_out {
                                let w = choose|i: int|
                                    0 <= i < before.len() && (#[trigger] before[i]).expected_output
                                        == direct_out;
                                if w < before.len() - 1 {
                                    assert(routes@[w].expected_output == direct_out);
                                } else {
                                    assert(candidate.expected_output == direct_out);
                                }
                            }
                        }
                    }
                },
                None => {
                    // unreachable: the loop condition guarantees an element
                },
            }
        }
        match best {
            Some(route) => Ok(route),
            None => Err(ZapError::RouteNotFound),
        }
    }

    /// All candidate routes: the direct pool, one hop through each
    /// configured base token, and bounded multi-hop search.
    fn find_all_routes(&self, from_token: AlkaneId, to_token: AlkaneId, amount_in: u128) -> (r:
        Vec<RouteInfo>)
        requires
            from_token != to_token,
            amount_in > 0,
        ensures
            forall|i: int|
                0 <= i < r@.len() ==> priced_route(
                    self.pool_provider.pools(),
                    #[trigger] r@[i],
                    from_token,
                    to_token,
                    amount_in,
                    self.excluded_intermediate_tokens@,
                ),
            direct_pool_usable(self.pool_provider.pools(), from_token, to_token) ==> exists|i: int|
                0 <= i < r@.len() && (#[trigger] r@[i]).expected_output == spec_direct_output(
                    self.pool_provider.pools(),
                    from_token,
                    to_token,
                    amount_in,
                ),
    {
        let ghost pools = self.pool_provider.pools();
        let mut routes: Vec<RouteInfo> = Vec::new();
        // Direct candidate.
        match self.pool_provider.get_pool_reserves(from_token, to_token) {
            Ok(reserves) => {
                let (reserve_in, reserve_out) = if reserves.token_a == from_token {
                    (reserves.reserve_a, reserves.reserve_b)
                } else {
                    (reserves.reserve_b, reserves.reserve_a)
                };
                match calculate_swap_out(amount_in, reserve_in, reserve_out, reserves.fee_rate) {
                    Ok(amount_out) => {
                        match calculate_price_impact(
                            amount_in,
                            reserve_in,
                            amount_out,
                            reserve_out,
                        ) {
                            Ok(impact) => {
                                let mut path: Vec<AlkaneId> = Vec::new();
                                path.push(from_token);
                                path.push(to_token);
                                proof {
                                    // One hop prices to the direct output and
                                    // compounds to exactly the hop impact.
                                    let p2 = path@;
                                    assert(p2.len() == 2 && p2[0] == from_token && p2[1]
                                        == to_token);
                                    assert(reserve_in == reserve_toward(
                                        pools[canonical_pair(from_token, to_token)],
                                        from_token,
                                    ));
                                    assert(reserve_out == reserve_against(
                                        pools[canonical_pair(from_token, to_token)],
                                        from_token,
                                    ));
                                    assert(p2.drop_first() =~= seq![to_token]);
                                    assert(spec_route_output(pools, p2.drop_first(), amount_out)
                                        == Ok::<u128, ZapError>(amount_out));
                                    assert(spec_route_output(pools, p2, amount_in) == Ok::<
                                        u128,
                                        ZapError,
                                    >(amount_out));
                                    vstd::arithmetic::div_mod::lemma_div_by_multiple(
                                        10000 - impact,
                                        10000,
                                    );
                                    assert(10000 * ((10000 - impact) as int) == ((10000
                                        - impact) as int) * 10000);
                                    let rem1 = 10000int * (10000 - impact) / 10000;
                                    assert(rem1 == 10000 - impact);
                                    assert(spec_remaining_fraction(
                                        pools,
                                        p2.drop_first(),
                                        amount_out,
                                        rem1,
                                    ) == Ok::<int, ZapError>(rem1));
                                    assert(spec_remaining_fraction(pools, p2, amount_in, 10000)
                                        == Ok::<int, ZapError>(10000 - impact));
                                    assert(spec_route_impact(pools, p2, amount_in) == Ok::<
                                        int,
                                        ZapError,
                                    >(impact as int));
                                }
                                let route = RouteInfo::new(path, amount_out).with_price_impact(
                                    impact,
                                ).with_gas_estimate(50000);
                                routes.push(route);
                            },
                            Err(_) => {},
                        }
                    },
                    Err(_) => {},
                }
            },
            Err(_) => {},
        }
        proof {
            // A directly usable pool always yields this first candidate,
            // carrying exactly the direct pool's priced output.
            assert(direct_pool_usable(pools, from_token, to_token) ==> routes@.len() > 0
                && routes@[0].expected_output == spec_direct_output(
                pools,
                from_token,
                to_token,
                amount_in,
            ));
        }
        let ghost direct_out = spec_direct_output(pools, from_token, to_token, amount_in);
        let ghost had_direct = direct_pool_usable(pools, from_token, to_token);
        // Single-hop candidates through the configured base tokens.
        let mut bi: usize = 0;
        while bi < self.common_base_tokens.len()
            invariant
                pools == self.pool_provider.pools(),
                direct_out == spec_direct_output(pools, from_token, to_token, amount_in),
                forall|i: int|
                    0 <= i < routes@.len() ==> priced_route(
                        pools,
                        #[trigger] routes@[i],
                        from_token,
                        to_token,
                        amount_in,
                        self.excluded_intermediate_tokens@,
                    ),
                had_direct ==> exists|i: int|
                    0 <= i < routes@.len() && (#[trigger] routes@[i]).expected_output
                        == direct_out,
                from_token != to_token,
                amount_in > 0,
            decreases self.common_base_tokens@.len() - bi,
        {
            let base_token = self.common_base_tokens[bi];
            if base_token != from_token && base_token != to_token && !contains_token(
                &self.excluded_intermediate_tokens,
                base_token,
            ) {
                let ghost before = routes@;
                match self.find_single_hop_route(from_token, to_token, base_token, amount_in) {
                    Ok(route) => {
                        routes.push(route);
                        proof {
                            assert(forall|i: int|
                                0 <= i < before.len() ==> routes@[i] == before[i]);
                            if had_direct {
                                let w = choose|i: int|
                                    0 <= i < before.len() && (#[trigger] before[i]).expected_output
                                        == direct_out;
                                assert(routes@[w].expected_output == direct_out);
                            }
                        }
                    },
                    Err(_) => {},
                }
            }
            bi += 1;
        }
        // Multi-hop candidates.
        let mut multi_hop = self.find_multi_hop_routes(from_token, to_token, amount_in);
        let ghost routes_before = routes@;
        let ghost multi_before = multi_hop@;
        routes.append(&mut multi_hop);
        proof {
            assert(routes@ == routes_before + multi_before);
            assert(forall|i: int|
                0 <= i < routes_before.len() ==> routes@[i] == routes_before[i]);
            assert(forall|i: int|
                routes_before.len() <= i < routes@.len() ==> routes@[i] == multi_before[i
                    - routes_before.len()]);
            if had_direct {
                let w = choose|i: int|
                    0 <= i < routes_before.len() && (#[trigger] routes_before[i]).expected_output
                        == direct_out;
                assert(routes@[w].expected_output == direct_out);
            }
        }
        routes
    }

    /// One candidate through `base_token`: two swaps priced in sequence,
    /// with the compounded path impact and the two-hop gas estimate.
    fn find_single_hop_route(
        &self,
        from_token: AlkaneId,
        to_token: AlkaneId,
        base_token: AlkaneId,
        amount_in: u128,
    ) -> (r: Result<RouteInfo, ZapError>)
        requires
            from_token != to_token,
            base_token != from_token,
            base_token != to_token,
            !self.excluded_intermediate_tokens@.contains(base_token),
            amount_in > 0,
        ensures
            match r {
                Ok(route) => priced_route(
                    self.pool_provider.pools(),
                    route,
                    from_token,
                    to_token,
                    amount_in,
                    self.excluded_intermediate_tokens@,
                ),
                Err(_) => true,
            },
            // Success is owed whenever the two-hop path prices at all.
            spec_route_output(
                self.pool_provider.pools(),
                seq![from_token, base_token, to_token],
                amount_in,
            ) is Ok ==> r is Ok,
    {
        let ghost pools = self.pool_provider.pools();
        let ghost p3 = seq![from_token, base_token, to_token];
        proof {
            assert(p3.len() == 3 && p3[0] == from_token && p3[1] == base_token && p3[2]
                == to_token);
        }
        let reserves1 = match self.pool_provider.get_pool_reserves(from_token, base_token) {
            Ok(p) => p,
            Err(e) => {
                proof {
                    assert(!pools.contains_key(canonical_pair(p3[0], p3[1])));
                    assert(spec_route_output(pools, p3, amount_in) is Err);
                }
                return Err(e);
            },
        };
        let (reserve1_in, reserve1_out) = if reserves1.token_a == from_token {
            (reserves1.reserve_a, reserves1.reserve_b)
        } else {
            (reserves1.reserve_b, reserves1.reserve_a)
        };
        proof {
            assert(reserve1_in == reserve_toward(
                pools[canonical_pair(from_token, base_token)],
                from_token,
            ));
            assert(reserve1_out == reserve_against(
                pools[canonical_pair(from_token, base_token)],
                from_token,
            ));
        }
        let intermediate_amount = match calculate_swap_out(
            amount_in,
            reserve1_in,
            reserve1_out,
            reserves1.fee_rate,
        ) {
            Ok(a) => a,
            Err(e) => {
                proof {
                    assert(spec_route_output(pools, p3, amount_in) is Err);
                }
                return Err(e);
            },
        };
        proof {
            assert(p3.drop_first() =~= seq![base_token, to_token]);
        }
        let reserves2 = match self.pool_provider.get_pool_reserves(base_token, to_token) {
            Ok(p) => p,
            Err(e) => {
                proof {
                    assert(!pools.contains_key(canonical_pair(base_token, to_token)));
                    assert(spec_route_output(pools, p3.drop_first(), intermediate_amount) is Err);
                    assert(spec_route_output(pools, p3, amount_in) is Err);
                }
                return Err(e);
            },
        };
        let (reserve2_in, reserve2_out) = if reserves2.token_a == base_token {
            (reserves2.reserve_a, reserves2.reserve_b)
        } else {
            (reserves2.reserve_b, reserves2.reserve_a)
        };
        proof {
            assert(reserve2_in == reserve_toward(
                pools[canonical_pair(base_token, to_token)],
                base_token,
            ));
            assert(reserve2_out == reserve_against(
                pools[canonical_pair(base_token, to_token)],
                base_token,
            ));
        }
        let final_amount = match calculate_swap_out(
            intermediate_amount,
            reserve2_in,
            reserve2_out,
            reserves2.fee_rate,
        ) {
            Ok(a) => a,
            Err(e) => {
                proof {
                    assert(spec_route_output(pools, p3.drop_first(), intermediate_amount) is Err);
                    assert(spec_route_output(pools, p3, amount_in) is Err);
                }
                return Err(e);
            },
        };
        let mut path: Vec<AlkaneId> = Vec::new();
        path.push(from_token);
        path.push(base_token);
        path.push(to_token);
        proof {
            // The built path prices hop by hop to exactly `final_amount`.
            assert(path@ =~= p3);
            assert(p3.drop_first() =~= seq![base_token, to_token]);
            assert(p3.drop_first().drop_first() =~= seq![to_token]);
            assert(spec_route_output(pools, p3.drop_first().drop_first(), final_amount)
                == Ok::<u128, ZapError>(final_amount));
            assert(spec_route_output(pools, p3.drop_first(), intermediate_amount) == Ok::<
                u128,
                ZapError,
            >(final_amount));
            assert(spec_route_output(pools, p3, amount_in) == Ok::<u128, ZapError>(final_amount));
        }
        let price_impact = match self.calculate_path_price_impact(&path, amount_in) {
            Ok(i) => i,
            Err(e) => {
                proof {
                    // Impossible once the path prices: impact compounding
                    // succeeds whenever the output pricing does.
                    if spec_route_output(pools, p3, amount_in) is Ok {
                        lemma_pricing_agree(pools, p3, amount_in, 10000);
                    }
                }
                return Err(e);
            },
        };
        Ok(
            RouteInfo::new(path, final_amount).with_price_impact(price_impact).with_gas_estimate(
                100000,
            ),
        )
    }

    /// Breadth-first search from `from_token`, bounded by `MAX_HOPS`,
    /// with a visited set forbidding cycles; a finished branch becomes a
    /// candidate with a per-hop linear gas estimate.
    fn find_multi_hop_routes(&self, from_token: AlkaneId, to_token: AlkaneId, amount_in: u128) -> (r:
        Vec<RouteInfo>)
        requires
            from_token != to_token,
            amount_in > 0,
        ensures
            forall|i: int|
                0 <= i < r@.len() ==> priced_route(
                    self.pool_provider.pools(),
                    #[trigger] r@[i],
                    from_token,
                    to_token,
                    amount_in,
                    self.excluded_intermediate_tokens@,
                ),
    {
        let ghost excluded = self.excluded_intermediate_tokens@;
        let ghost pools = self.pool_provider.pools();
        let mut routes: Vec<RouteInfo> = Vec::new();
        let mut visited: Vec<AlkaneId> = Vec::new();
        visited.push(from_token);
        let mut current: Vec<(Vec<AlkaneId>, u128)> = Vec::new();
        let mut start_path: Vec<AlkaneId> = Vec::new();
        start_path.push(from_token);
        current.push((start_path, amount_in));
        proof {
            assert(current@[0].0@ =~= seq![from_token]);
            assert(spec_route_output(pools, current@[0].0@, amount_in) == Ok::<u128, ZapError>(
                amount_in,
            ));
        }
        let mut level: usize = 0;
        while level < MAX_HOPS
            invariant
                pools == self.pool_provider.pools(),
                forall|i: int|
                    0 <= i < routes@.len() ==> priced_route(
                        pools,
                        #[trigger] routes@[i],
                        from_token,
                        to_token,
                        amount_in,
                        excluded,
                    ),
                forall|e: int|
                    0 <= e < current@.len() ==> wf_partial_path(
                        (#[trigger] current@[e]).0@,
                        from_token,
                        to_token,
                        excluded,
                    ),
                forall|e: int|
                    0 <= e < current@.len() ==> (#[trigger] current@[e]).0@.len() == level + 1,
                forall|e: int|
                    0 <= e < current@.len() ==> spec_route_output(
                        pools,
                        (#[trigger] current@[e]).0@,
                        amount_in,
                    ) == Ok::<u128, ZapError>(current@[e].1),
                forall|e: int, t: int|
                    0 <= e < current@.len() && 0 <= t < current@[e].0@.len() ==> visited@.contains(
                        #[trigger] current@[e].0@[t],
                    ),
                excluded == self.excluded_intermediate_tokens@,
                from_token != to_token,
                amount_in > 0,
                level <= MAX_HOPS,
            decreases MAX_HOPS - level,
        {
            let mut next: Vec<(Vec<AlkaneId>, u128)> = Vec::new();
            let mut qi: usize = 0;
            while qi < current.len()
                invariant
                    pools == self.pool_provider.pools(),
                    forall|i: int|
                        0 <= i < routes@.len() ==> priced_route(
                            pools,
                            #[trigger] routes@[i],
                            from_token,
                            to_token,
                            amount_in,
                            excluded,
                        ),
                    forall|e: int|
                        0 <= e < current@.len() ==> wf_partial_path(
                            (#[trigger] current@[e]).0@,
                            from_token,
                            to_token,
                            excluded,
                        ),
                    forall|e: int|
                        0 <= e < current@.len() ==> (#[trigger] current@[e]).0@.len() == level + 1,
                    forall|e: int|
                        0 <= e < current@.len() ==> spec_route_output(
                            pools,
                            (#[trigger] current@[e]).0@,
                            amount_in,
                        ) == Ok::<u128, ZapError>(current@[e].1),
                    forall|e: int, t: int|
                        0 <= e < current@.len() && 0 <= t < current@[e].0@.len()
                            ==> visited@.contains(#[trigger] current@[e].0@[t]),
                    forall|e: int|
                        0 <= e < next@.len() ==> wf_partial_path(
                            (#[trigger] next@[e]).0@,
                            from_token,
                            to_token,
                            excluded,
                        ),
                    forall|e: int|
                        0 <= e < next@.len() ==> (#[trigger] next@[e]).0@.len() == level + 2,
                    forall|e: int|
                        0 <= e < next@.len() ==> spec_route_output(
                            pools,
                            (#[trigger] next@[e]).0@,
                            amount_in,
                        ) == Ok::<u128, ZapError>(next@[e].1),
                    forall|e: int, t: int|
                        0 <= e < next@.len() && 0 <= t < next@[e].0@.len() ==> visited@.contains(
                            #[trigger] next@[e].0@[t],
                        ),
                    excluded == self.excluded_intermediate_tokens@,
                    from_token != to_token,
                    amount_in > 0,
                    level < MAX_HOPS,
                decreases current@.len() - qi,
            {
                let current_amount = current[qi].1;
                let current_token = current[qi].0[current[qi].0.len() - 1];
                match self.pool_provider.get_connected_tokens(current_token) {
                    Ok(connected) => {
                        let mut ci: usize = 0;
                        while ci < connected.len()
                            invariant
                                pools == self.pool_provider.pools(),
                                forall|i: int|
                                    0 <= i < routes@.len() ==> priced_route(
                                        pools,
                                        #[trigger] routes@[i],
                                        from_token,
                                        to_token,
                                        amount_in,
                                        excluded,
                                    ),
                                forall|e: int|
                                    0 <= e < current@.len() ==> wf_partial_path(
                                        (#[trigger] current@[e]).0@,
                                        from_token,
                                        to_token,
                                        excluded,
                                    ),
                                forall|e: int|
                                    0 <= e < current@.len() ==> (#[trigger] current@[e]).0@.len()
                                        == level + 1,
                                forall|e: int|
                                    0 <= e < current@.len() ==> spec_route_output(
                                        pools,
                                        (#[trigger] current@[e]).0@,
                                        amount_in,
                                    ) == Ok::<u128, ZapError>(current@[e].1),
                                forall|e: int, t: int|
                                    0 <= e < current@.len() && 0 <= t < current@[e].0@.len()
                                        ==> visited@.contains(#[trigger] current@[e].0@[t]),
                                forall|e: int|
                                    0 <= e < next@.len() ==> wf_partial_path(
                                        (#[trigger] next@[e]).0@,
                                        from_token,
                                        to_token,
                                        excluded,
                                    ),
                                forall|e: int|
                                    0 <= e < next@.len() ==> (#[trigger] next@[e]).0@.len()
                                        == level + 2,
                                forall|e: int|
                                    0 <= e < next@.len() ==> spec_route_output(
                                        pools,
                                        (#[trigger] next@[e]).0@,
                                        amount_in,
                                    ) == Ok::<u128, ZapError>(next@[e].1),
                                forall|e: int, t: int|
                                    0 <= e < next@.len() && 0 <= t < next@[e].0@.len()
                                        ==> visited@.contains(#[trigger] next@[e].0@[t]),
                                excluded == self.excluded_intermediate_tokens@,
                                from_token != to_token,
                                amount_in > 0,
                                level < MAX_HOPS,
                                0 <= qi < current@.len(),
                                current_token == current@[qi as int].0@.last(),
                                current_amount == current@[qi as int].1,
                            decreases connected@.len() - ci,
                        {
                            let next_token = connected[ci];
                            let skip = contains_token(&visited, next_token) || (contains_token(
                                &self.excluded_intermediate_tokens,
                                next_token,
                            ) && next_token != to_token);
                            if !skip {
                                match self.pool_provider.get_pool_reserves(
                                    current_token,
                                    next_token,
                                ) {
                                    Ok(reserves) => {
                                        let (reserve_in, reserve_out) = if reserves.token_a
                                            == current_token {
                                            (reserves.reserve_a, reserves.reserve_b)
                                        } else {
                                            (reserves.reserve_b, reserves.reserve_a)
                                        };
                                        match calculate_swap_out(
                                            current_amount,
                                            reserve_in,
                                            reserve_out,
                                            reserves.fee_rate,
                                        ) {
                                            Ok(amount_out) => {
                                                let mut new_path = copy_path(&current[qi].0);
                                                new_path.push(next_token);
                                                proof {
                                                    assert(current@[qi as int].0@.len() == level
                                                        + 1);
                                                    assert(!current@[qi as int].0@.contains(
                                                        next_token,
                                                    ));
                                                    // One more hop prices the carried amount
                                                    // through the hop's pool.
                                                    let entry_path = current@[qi as int].0@;
                                                    assert(current_token == entry_path.last());
                                                    assert(reserve_in == reserve_toward(
                                                        pools[canonical_pair(
                                                            current_token,
                                                            next_token,
                                                        )],
                                                        current_token,
                                                    ));
                                                    assert(reserve_out == reserve_against(
                                                        pools[canonical_pair(
                                                            current_token,
                                                            next_token,
                                                        )],
                                                        current_token,
                                                    ));
                                                    lemma_route_output_extend(
                                                        pools,
                                                        entry_path,
                                                        next_token,
                                                        amount_in,
                                                        current_amount,
                                                    );
                                                    assert(new_path@ == entry_path.push(
                                                        next_token,
                                                    ));
                                                    assert(spec_route_output(
                                                        pools,
                                                        new_path@,
                                                        amount_in,
                                                    ) == Ok::<u128, ZapError>(amount_out));
                                                }
                                                if next_token == to_token {
                                                    match self.calculate_path_price_impact(
                                                        &new_path,
                                                        amount_in,
                                                    ) {
                                                        Ok(price_impact) => {
                                                            let hops = (new_path.len() - 1)
                                                                as u128;
                                                            let route = RouteInfo::new(
                                                                new_path,
                                                                amount_out,
                                                            ).with_price_impact(
                                                                price_impact,
                                                            ).with_gas_estimate(hops * 50000);
                                                            proof {
                                                                assert(priced_route(
                                                                    pools,
                                                                    route,
                                                                    from_token,
                                                                    to_token,
                                                                    amount_in,
                                                                    excluded,
                                                                ));
                                                            }
                                                            routes.push(route);
                                                        },
                                                        Err(_) => {},
                                                    }
                                                } else {
                                                    next.push((new_path, amount_out));
                                                    visited.push(next_token);
                                                    proof {
                                                        broadcast use
                                                            vstd::seq_lib::lemma_seq_contains_after_push;

                                                    }
                                                }
                                            },
                                            Err(_) => {},
                                        }
                                    },
                                    Err(_) => {},
                                }
                            }
                            ci += 1;
                        }
                    },
                    Err(_) => {},
                }
                qi += 1;
            }
            current = next;
            level += 1;
        }
        routes
    }

    /// Compound the per-hop impacts of a path multiplicatively: keep the
    /// remaining fraction of value, in basis points, and report what was
    /// lost; the result is exactly the compounded path impact.
    fn calculate_path_price_impact(&self, path: &Vec<AlkaneId>, amount_in: u128) -> (r: Result<
        u128,
        ZapError,
    >)
        requires
            path@.len() >= 1,
        ensures
            match r {
                Ok(impact) => impact <= 10000 && spec_route_impact(
                    self.pool_provider.pools(),
                    path@,
                    amount_in,
                ) == Ok::<int, ZapError>(impact as int),
                Err(e) => spec_route_impact(self.pool_provider.pools(), path@, amount_in)
                    == Err::<int, ZapError>(e),
            },
    {
        let ghost pools = self.pool_provider.pools();
        let ghost whole = spec_remaining_fraction(pools, path@, amount_in, 10000);
        let mut remaining_fraction: u128 = 10000;
        let mut current_amount = amount_in;
        proof {
            assert(path@.skip(0) =~= path@);
        }
        let mut i: usize = 0;
        while i < path.len() - 1
            invariant
                path@.len() >= 1,
                0 <= i <= path@.len() - 1,
                remaining_fraction <= 10000,
                pools == self.pool_provider.pools(),
                whole == spec_remaining_fraction(pools, path@, amount_in, 10000),
                whole == spec_remaining_fraction(
                    pools,
                    path@.skip(i as int),
                    current_amount,
                    remaining_fraction as int,
                ),
            decreases path@.len() - 1 - i,
        {
            let ghost tail = path@.skip(i as int);
            proof {
                assert(tail.len() == path@.len() - i >= 2);
                assert(tail[0] == path@[i as int]);
                assert(tail[1] == path@[i + 1]);
            }
            let reserves = match self.pool_provider.get_pool_reserves(path[i], path[i + 1]) {
                Ok(p) => p,
                Err(e) => {
                    proof {
                        assert(!pools.contains_key(canonical_pair(tail[0], tail[1])));
                        assert(spec_remaining_fraction(
                            pools,
                            tail,
                            current_amount,
                            remaining_fraction as int,
                        ) == Err::<int, ZapError>(ZapError::NotFound));
                    }
                    return Err(e);
                },
            };
            let (reserve_in, reserve_out) = if reserves.token_a == path[i] {
                (reserves.reserve_a, reserves.reserve_b)
            } else {
                (reserves.reserve_b, reserves.reserve_a)
            };
            proof {
                assert(reserve_in == reserve_toward(
                    pools[canonical_pair(tail[0], tail[1])],
                    tail[0],
                ));
                assert(reserve_out == reserve_against(
                    pools[canonical_pair(tail[0], tail[1])],
                    tail[0],
                ));
            }
            let amount_out = match calculate_swap_out(
                current_amount,
                reserve_in,
                reserve_out,
                reserves.fee_rate,
            ) {
                Ok(a) => a,
                Err(e) => {
                    proof {
                        assert(pools[canonical_pair(tail[0], tail[1])] == reserves);
                        assert(spec_remaining_fraction(
                            pools,
                            tail,
                            current_amount,
                            remaining_fraction as int,
                        ) == Err::<int, ZapError>(e));
                    }
                    return Err(e);
                },
            };
            let impact = match calculate_price_impact(
                current_amount,
                reserve_in,
                amount_out,
                reserve_out,
            ) {
                Ok(x) => x,
                Err(e) => {
                    return Err(e);
                },
            };
            proof {
                assert(tail.drop_first() =~= path@.skip(i + 1));
                assert(remaining_fraction * (10000 - impact) <= 100000000 && remaining_fraction
                    * (10000 - impact) / 10000 <= 10000) by (nonlinear_arith)
                    requires
                        0 <= remaining_fraction <= 10000,
                        0 <= impact <= 10000;
            }
            remaining_fraction = remaining_fraction * (10000 - impact) / 10000;
            current_amount = amount_out;
            i += 1;
        }
        proof {
            assert(path@.skip(path@.len() - 1).len() == 1);
        }
        Ok(10000 - remaining_fraction)
    }
}

} // verus!
