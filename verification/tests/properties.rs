#![allow(dead_code)]
use std::collections::HashMap;

use oyl_zap::amm_logic;
use oyl_zap::pool_graph::PoolGraph;
use oyl_zap::route_finder::RouteFinder;
use oyl_zap::types::{AlkaneId, PoolReserves, RouteInfo, ZapQuote};
use oyl_zap::zap_calculator::ZapCalculator;
use oyl_zap::ZapError;

const TEST_PRECISION: u128 = 1_000_000_000_000_000_000;
const TEST_FEE_RATE: u128 = 50; // 0.5% in basis points
const MAX_PRICE_IMPACT: u128 = 5000; // 50% in basis points
const DEFAULT_SLIPPAGE: u128 = 500; // 5% in basis points

/// Create a test AlkaneId from a string
fn alkane_id(s: &str) -> AlkaneId {
    let mut block_bytes = [0u8; 16];
    let s_bytes = s.as_bytes();
    let len = s_bytes.len().min(16);
    block_bytes[..len].copy_from_slice(&s_bytes[..len]);
    let block = u128::from_le_bytes(block_bytes);
    AlkaneId { block, tx: 0 }
}

fn add_pool_auto(factory: &mut PoolGraph, token_a: AlkaneId, token_b: AlkaneId, reserve_a: u128, reserve_b: u128) {
    let total_supply = amm_logic::calculate_lp_tokens_minted(reserve_a, reserve_b, 0, 0, 0).unwrap_or(0);
    factory
        .add_pool(token_a, token_b, reserve_a, reserve_b, total_supply, TEST_FEE_RATE)
        .unwrap();
}

/// Setup a balanced test environment with common tokens and pools
fn setup_test_environment() -> (PoolGraph, Vec<AlkaneId>) {
    let mut factory = PoolGraph::new();

    let wbtc = alkane_id("WBTC");
    let eth = alkane_id("ETH");
    let usdc = alkane_id("USDC");
    let usdt = alkane_id("USDT");
    let dai = alkane_id("DAI");

    add_pool_auto(&mut factory, wbtc, eth, 100 * 100_000_000, 1500 * TEST_PRECISION);
    add_pool_auto(&mut factory, eth, usdc, 1000 * TEST_PRECISION, 2_000_000 * 1_000_000);
    add_pool_auto(&mut factory, usdc, usdt, 1_000_000 * 1_000_000, 1_000_000 * 1_000_000);
    add_pool_auto(&mut factory, usdc, dai, 1_000_000 * 1_000_000, 1_000_000 * TEST_PRECISION);
    add_pool_auto(&mut factory, wbtc, usdc, 50 * 100_000_000, 1_000_000 * 1_000_000);

    let base_tokens = vec![wbtc, eth, usdc, usdt, dai];

    (factory, base_tokens)
}

/// Setup a comprehensive test environment with multiple pools
fn setup_comprehensive_test_environment() -> (PoolGraph, HashMap<String, AlkaneId>) {
    let mut factory = PoolGraph::new();
    let mut tokens = HashMap::new();

    let names = ["WBTC", "ETH", "USDC", "USDT", "DAI", "WETH", "UNI", "LINK", "AAVE", "COMP"];
    for name in names {
        tokens.insert(name.to_string(), alkane_id(name));
    }

    let pool_configs: Vec<(&str, &str, u128, u128)> = vec![
        ("WBTC", "ETH", 50 * 100_000_000, 750 * TEST_PRECISION),
        ("ETH", "USDC", 1000 * TEST_PRECISION, 2_000_000 * 1_000_000),
        ("ETH", "USDT", 800 * TEST_PRECISION, 1_600_000 * 1_000_000),
        ("ETH", "DAI", 900 * TEST_PRECISION, 1_800_000 * TEST_PRECISION),
        ("USDC", "USDT", 1_000_000 * 1_000_000, 1_000_000 * 1_000_000),
        ("USDC", "DAI", 1_000_000 * 1_000_000, 1_000_000 * TEST_PRECISION),
        ("USDT", "DAI", 1_000_000 * 1_000_000, 1_000_000 * TEST_PRECISION),
        ("WBTC", "USDC", 25 * 100_000_000, 500_000 * 1_000_000),
        ("WBTC", "USDT", 20 * 100_000_000, 400_000 * 1_000_000),
        ("UNI", "ETH", 10000 * TEST_PRECISION, 100 * TEST_PRECISION),
        ("UNI", "USDC", 15000 * TEST_PRECISION, 150_000 * 1_000_000),
        ("LINK", "ETH", 5000 * TEST_PRECISION, 50 * TEST_PRECISION),
        ("LINK", "USDC", 8000 * TEST_PRECISION, 80_000 * 1_000_000),
        ("AAVE", "ETH", 1000 * TEST_PRECISION, 100 * TEST_PRECISION),
        ("AAVE", "USDC", 1500 * TEST_PRECISION, 150_000 * 1_000_000),
        ("COMP", "ETH", 500 * TEST_PRECISION, 50 * TEST_PRECISION),
        ("COMP", "USDC", 800 * TEST_PRECISION, 80_000 * 1_000_000),
        ("WETH", "ETH", 500 * TEST_PRECISION, 500 * TEST_PRECISION),
        ("WETH", "USDC", 400 * TEST_PRECISION, 800_000 * 1_000_000),
    ];

    for (a, b, reserve_a, reserve_b) in pool_configs {
        let token_a = tokens[a];
        let token_b = tokens[b];
        add_pool_auto(&mut factory, token_a, token_b, reserve_a, reserve_b);
    }

    (factory, tokens)
}

/// Mock zap instance wiring the engine to an in-memory pool store
struct MockOylZap {
    factory_id: AlkaneId,
    base_tokens: Vec<AlkaneId>,
    max_price_impact: u128,
    default_slippage: u128,
    factory: PoolGraph,
}

impl Clone for MockOylZap {
    fn clone(&self) -> Self {
        Self {
            factory_id: self.factory_id,
            base_tokens: self.base_tokens.clone(),
            max_price_impact: self.max_price_impact,
            default_slippage: self.default_slippage,
            factory: self.factory.snapshot(),
        }
    }
}

impl MockOylZap {
    fn new() -> Self {
        let (factory, base_tokens) = setup_test_environment();
        Self {
            factory_id: alkane_id("oyl_factory"),
            base_tokens,
            max_price_impact: MAX_PRICE_IMPACT,
            default_slippage: DEFAULT_SLIPPAGE,
            factory,
        }
    }

    fn with_comprehensive_setup() -> Self {
        let (factory, token_map) = setup_comprehensive_test_environment();
        let base_tokens = vec![
            token_map["WBTC"],
            token_map["ETH"],
            token_map["USDC"],
            token_map["USDT"],
            token_map["DAI"],
        ];
        Self {
            factory_id: alkane_id("oyl_factory"),
            base_tokens,
            max_price_impact: MAX_PRICE_IMPACT,
            default_slippage: DEFAULT_SLIPPAGE,
            factory,
        }
    }

    fn init_zap(&mut self, factory_id: AlkaneId, base_tokens: Vec<AlkaneId>) {
        self.factory_id = factory_id;
        self.base_tokens = base_tokens;
    }

    fn get_zap_quote(
        &self,
        input_token: AlkaneId,
        input_amount: u128,
        target_token_a: AlkaneId,
        target_token_b: AlkaneId,
        max_slippage_bps: u128,
    ) -> Result<ZapQuote, ZapError> {
        ZapCalculator::get_zap_quote(
            self.factory_id,
            &self.base_tokens,
            &self.factory,
            input_token,
            input_amount,
            target_token_a,
            target_token_b,
            max_slippage_bps,
        )
    }

    fn execute_zap(&mut self, quote: &ZapQuote) -> Result<u128, ZapError> {
        // Execute both legs against an isolated copy, then commit atomically.
        let mut execution_factory = self.factory.snapshot();

        let amount_a_received =
            simulate_route_execution(&mut execution_factory, &quote.route_a, quote.split_amount_a)?;
        let amount_b_received =
            simulate_route_execution(&mut execution_factory, &quote.route_b, quote.split_amount_b)?;

        let lp_tokens = execution_factory.simulate_add_liquidity(
            quote.target_token_a,
            quote.target_token_b,
            amount_a_received,
            amount_b_received,
        )?;

        self.factory = execution_factory;

        quote.check_received_lp(lp_tokens)?;
        Ok(lp_tokens)
    }

    fn find_optimal_route(
        &self,
        from_token: AlkaneId,
        to_token: AlkaneId,
        amount: u128,
    ) -> Result<RouteInfo, ZapError> {
        let route_finder = RouteFinder::new(self.factory_id, &self.factory)
            .with_base_tokens(self.base_tokens.clone());
        route_finder.find_best_route(from_token, to_token, amount)
    }
}

fn create_mock_zap() -> MockOylZap {
    MockOylZap::new()
}

fn simulate_route_execution(
    factory: &mut PoolGraph,
    route: &RouteInfo,
    amount_in: u128,
) -> Result<u128, ZapError> {
    let mut current_amount = amount_in;
    for i in 0..route.path.len() - 1 {
        current_amount = factory.simulate_swap(route.path[i], route.path[i + 1], current_amount)?;
    }
    Ok(current_amount)
}

fn validate_zap_quote(quote: &ZapQuote) -> Result<(), ZapError> {
    ZapCalculator::validate_zap_quote(quote)?;
    assert!(quote.expected_lp_tokens > 0, "Expected LP tokens must be positive");
    assert!(
        quote.minimum_lp_tokens <= quote.expected_lp_tokens,
        "Minimum LP tokens cannot exceed expected"
    );
    assert!(quote.price_impact <= MAX_PRICE_IMPACT, "Price impact too high");
    assert_eq!(
        quote.split_amount_a + quote.split_amount_b,
        quote.input_amount,
        "Split amounts must sum to input"
    );
    Ok(())
}

fn validate_route_info(route: &RouteInfo) -> Result<(), ZapError> {
    assert!(!route.path.is_empty(), "Route path cannot be empty");
    assert!(route.path.len() >= 2, "Route must have at least 2 tokens");
    assert!(route.expected_output > 0, "Expected output must be positive");
    assert!(route.price_impact <= MAX_PRICE_IMPACT, "Price impact too high");
    Ok(())
}

fn assert_within_tolerance(actual: u128, expected: u128, tolerance_bps: u128) {
    let tolerance = expected * tolerance_bps / 10000;
    let lower_bound = expected.saturating_sub(tolerance);
    let upper_bound = expected.saturating_add(tolerance);
    assert!(
        actual >= lower_bound && actual <= upper_bound,
        "Value {} not within {}% tolerance of expected {}. Range: [{}, {}]",
        actual,
        tolerance_bps as f64 / 100.0,
        expected,
        lower_bound,
        upper_bound
    );
}

fn assert_price_impact_reasonable(price_impact: u128, max_impact: u128) {
    assert!(
        price_impact <= max_impact,
        "Price impact {}% exceeds maximum allowed {}%",
        price_impact as f64 / 100.0,
        max_impact as f64 / 100.0
    );
}

fn calculate_percentage_difference(value1: u128, value2: u128) -> u128 {
    if value1 == value2 {
        return 0;
    }
    let larger = value1.max(value2);
    let smaller = value1.min(value2);
    let difference = larger - smaller;
    (difference * 10000) / larger
}

fn simulate_flash_loan_attack(
    factory: &mut PoolGraph,
    token_a: AlkaneId,
    token_b: AlkaneId,
    attack_token: AlkaneId,
    flash_amount: u128,
) -> Result<i128, ZapError> {
    let mut test_factory = factory.snapshot();
    let pool = test_factory.get_pool(token_a, token_b).ok_or(ZapError::NotFound)?;
    let other_token = if pool.token_a == attack_token {
        pool.token_b
    } else {
        pool.token_a
    };

    // Step 1: Large swap to manipulate price
    let amount_out = test_factory.simulate_swap(attack_token, other_token, flash_amount)?;

    // Step 2: Reverse swap
    let amount_back = test_factory.simulate_swap(other_token, attack_token, amount_out)?;

    // Step 3: Calculate profit/loss
    Ok(amount_back as i128 - flash_amount as i128)
}


use oyl_zap::contract::OylZap;
use oyl_zap::pool_provider::PoolProvider;
use oyl_zap::types::ZapParams;

#[test]
fn test_swap_out_exact_scenario() {
    // A pool of 1000 ETH against 2,000,000 USDC at a 0.3% fee: swapping in
    // 1 ETH must produce the exact constant-product result.
    let out = amm_logic::calculate_swap_out(
        1_000_000_000_000_000_000,             // 1 * 10^18
        1000 * 1_000_000_000_000_000_000,      // 1000 * 10^18
        2_000_000 * 1_000_000,                 // 2,000,000 * 10^6
        30,
    )
    .unwrap();
    assert_eq!(out, 1_992_013_962);
}

#[test]
fn test_lp_tokens_boundary_values() {
    // First deposit mints the integer square root of the amount product.
    assert_eq!(amm_logic::calculate_lp_tokens_minted(1000, 2000, 0, 0, 0).unwrap(), 1414);
    // Slippage formula: minimum for (expected 1000, 5%) is exactly 950.
    assert_eq!(ZapCalculator::calculate_minimum_lp_tokens(1000, 500).unwrap(), 950);
}

#[test]
fn test_integer_sqrt_values() {
    assert_eq!(amm_logic::integer_sqrt(0), 0);
    assert_eq!(amm_logic::integer_sqrt(1), 1);
    assert_eq!(amm_logic::integer_sqrt(2), 1);
    assert_eq!(amm_logic::integer_sqrt(4), 2);
    assert_eq!(amm_logic::integer_sqrt(2_000_000), 1414);
    assert_eq!(amm_logic::integer_sqrt(u128::MAX), 0xffffffffffffffff);
}

#[test]
fn test_contract_swap_output_values() {
    let responder = OylZap::default();
    // Fixed 0.3% fee model: exact formula value.
    assert_eq!(responder.calculate_swap_output(1000, 10000, 20000).unwrap(), 1813);
    // Degenerate arguments are errors, never a fabricated zero output.
    assert_eq!(
        responder.calculate_swap_output(0, 10000, 20000),
        Err(ZapError::InvalidInput)
    );
    assert_eq!(
        responder.calculate_swap_output(1000, 0, 20000),
        Err(ZapError::InsufficientLiquidity)
    );
    assert_eq!(
        responder.calculate_swap_output(1000, 10000, 0),
        Err(ZapError::InsufficientLiquidity)
    );
}

#[test]
fn test_price_impact_monotone_per_route() {
    // For a fixed pool, the quoted impact of a single swap is
    // non-decreasing as the amount grows (away from the rounding floor).
    let reserve_in = 1_000_000u128;
    let reserve_out = 2_000_000u128;
    let mut previous = 0u128;
    for amount in [1_000u128, 5_000, 10_000, 50_000, 100_000, 500_000] {
        let out = amm_logic::calculate_swap_out(amount, reserve_in, reserve_out, 30).unwrap();
        let impact =
            amm_logic::calculate_price_impact(amount, reserve_in, out, reserve_out).unwrap();
        assert!(
            impact >= previous,
            "impact {} at amount {} fell below previous {}",
            impact,
            amount,
            previous
        );
        previous = impact;
    }
}

#[test]
fn test_price_impact_saturates_on_degenerate_reserves() {
    assert_eq!(amm_logic::calculate_price_impact(1000, 0, 10, 2000).unwrap(), 10000);
    assert_eq!(amm_logic::calculate_price_impact(1000, 1000, 10, 0).unwrap(), 10000);
    // Ideal output of zero also saturates.
    assert_eq!(amm_logic::calculate_price_impact(1, 1_000_000, 0, 10).unwrap(), 10000);
}

#[test]
fn test_canonical_key_mutation_visible_both_orders() {
    // Reading and writing through either token order reaches one pool.
    let mut factory = PoolGraph::new();
    let a = alkane_id("ALPHA");
    let b = alkane_id("BETA");
    factory.add_pool(a, b, 1_000, 2_000, 1_414, 30).unwrap();

    let via_ab = factory.get_pool(a, b).expect("pool via (a, b)");
    let via_ba = factory.get_pool(b, a).expect("pool via (b, a)");
    assert_eq!(via_ab.reserve_a, via_ba.reserve_a);
    assert_eq!(via_ab.reserve_b, via_ba.reserve_b);
    assert_eq!(via_ab.total_supply, via_ba.total_supply);

    // Mutate via the reversed ordering; reserve_a follows its token.
    factory.update_pool_reserves(b, a, 7_000, 5_000, 9_999).unwrap();

    let after = factory.get_pool(a, b).expect("pool after update");
    let reserve_of_a = after.get_reserve_for_token(&a).unwrap();
    let reserve_of_b = after.get_reserve_for_token(&b).unwrap();
    assert_eq!(reserve_of_b, 7_000, "the update named b first, so 7000 is b's reserve");
    assert_eq!(reserve_of_a, 5_000);
    assert_eq!(after.total_supply, 9_999);

    // And a swap through one ordering is visible through the other.
    let before = factory.get_pool(b, a).unwrap();
    let out = factory.simulate_swap(a, b, 1_000).unwrap();
    assert!(out > 0);
    let seen = factory.get_pool(b, a).unwrap();
    assert_eq!(
        seen.get_reserve_for_token(&a).unwrap(),
        before.get_reserve_for_token(&a).unwrap() + 1_000
    );
    assert_eq!(
        seen.get_reserve_for_token(&b).unwrap(),
        before.get_reserve_for_token(&b).unwrap() - out
    );
}

#[test]
fn test_quote_determinism_same_snapshot() {
    // Two quote computations with identical inputs and an identical pool
    // snapshot yield identical splits, outputs, and impacts.
    let zap = create_mock_zap();
    let wbtc = alkane_id("WBTC");
    let eth = alkane_id("ETH");
    let usdc = alkane_id("USDC");

    let q1 = zap.get_zap_quote(wbtc, 12_345_678, eth, usdc, DEFAULT_SLIPPAGE).unwrap();
    let q2 = zap.get_zap_quote(wbtc, 12_345_678, eth, usdc, DEFAULT_SLIPPAGE).unwrap();

    assert_eq!(q1.split_amount_a, q2.split_amount_a);
    assert_eq!(q1.split_amount_b, q2.split_amount_b);
    assert_eq!(q1.route_a.path, q2.route_a.path);
    assert_eq!(q1.route_b.path, q2.route_b.path);
    assert_eq!(q1.route_a.expected_output, q2.route_a.expected_output);
    assert_eq!(q1.route_b.expected_output, q2.route_b.expected_output);
    assert_eq!(q1.expected_lp_tokens, q2.expected_lp_tokens);
    assert_eq!(q1.minimum_lp_tokens, q2.minimum_lp_tokens);
    assert_eq!(q1.price_impact, q2.price_impact);
}

#[test]
fn test_no_route_through_other_target() {
    // A quote never routes one leg through the other leg's target token.
    let zap = MockOylZap::with_comprehensive_setup();
    let (_, tokens) = setup_comprehensive_test_environment();

    let uni = tokens["UNI"];
    let eth = tokens["ETH"];
    let usdc = tokens["USDC"];

    // ETH and USDC are both base tokens and directly pooled with UNI, so
    // each is the tempting intermediate for the other leg.
    let quote = zap.get_zap_quote(uni, 100 * 1e18 as u128, eth, usdc, DEFAULT_SLIPPAGE).unwrap();

    let inner_a = &quote.route_a.path[1..quote.route_a.path.len() - 1];
    assert!(!inner_a.contains(&usdc), "route A must not pass through target B");
    let inner_b = &quote.route_b.path[1..quote.route_b.path.len() - 1];
    assert!(!inner_b.contains(&eth), "route B must not pass through target A");
}

#[test]
fn test_error_variants_by_input() {
    let mut factory = PoolGraph::new();
    let a = alkane_id("ALPHA");
    let b = alkane_id("BETA");
    let c = alkane_id("GAMMA");
    factory.add_pool(a, b, 1_000_000, 2_000_000, 1_414_213, 30).unwrap();
    factory.add_pool(a, c, 0, 0, 0, 30).unwrap();

    // InvalidInput: zero swap amount.
    assert_eq!(
        amm_logic::calculate_swap_out(0, 1000, 1000, 30),
        Err(ZapError::InvalidInput)
    );
    // InsufficientLiquidity: a zero reserve.
    assert_eq!(
        amm_logic::calculate_swap_out(10, 0, 1000, 30),
        Err(ZapError::InsufficientLiquidity)
    );
    // Overflow: a proportional share beyond 128 bits.
    assert_eq!(
        amm_logic::calculate_lp_tokens_minted(u128::MAX, u128::MAX, 1, 1, u128::MAX),
        Err(ZapError::Overflow)
    );
    // NotFound: no pool for the pair.
    assert!(factory.get_pool(b, c).is_none());
    assert_eq!(factory.simulate_swap(b, c, 10), Err(ZapError::NotFound));

    let finder = RouteFinder::new(alkane_id("factory"), &factory);
    // SameToken: routing from a token to itself.
    assert_eq!(finder.find_best_route(a, a, 10).unwrap_err(), ZapError::SameToken);
    // ZeroAmount: routing a zero amount.
    assert_eq!(finder.find_best_route(a, b, 0).unwrap_err(), ZapError::ZeroAmount);
    // RouteNotFound: the only pool toward GAMMA is drained.
    assert_eq!(finder.find_best_route(b, c, 10).unwrap_err(), ZapError::RouteNotFound);

    // SlippageExceeded: realized LP tokens below the quoted minimum.
    let quote = ZapQuote::new(a, 100, b, c).with_lp_estimate(1000, 950);
    assert_eq!(quote.check_received_lp(949), Err(ZapError::SlippageExceeded));
    assert_eq!(quote.check_received_lp(950), Ok(()));

    // InvalidInput: a malformed request envelope.
    let params = ZapParams::new(a, 0, b, c, 1, 10);
    assert_eq!(params.validate(5), Err(ZapError::InvalidInput));
}

#[test]
fn test_excessive_impact_rejected() {
    // A pool so shallow that any sizable zap moves the price by more than
    // the 50% ceiling must be rejected as ExcessiveImpact.
    let mut factory = PoolGraph::new();
    let a = alkane_id("ALPHA");
    let b = alkane_id("BETA");
    let c = alkane_id("GAMMA");
    factory.add_pool(a, b, 1_000, 2_000, 1_414, 30).unwrap();
    factory.add_pool(a, c, 1_000, 2_000, 1_414, 30).unwrap();
    factory.add_pool(b, c, 1_000, 2_000, 1_414, 30).unwrap();

    let base_tokens = vec![a, b, c];
    let result = ZapCalculator::get_zap_quote(
        alkane_id("factory"),
        &base_tokens,
        &factory,
        a,
        1_000_000, // vastly larger than the pool depth
        b,
        c,
        500,
    );
    assert_eq!(result.unwrap_err(), ZapError::ExcessiveImpact);
}

#[test]
fn test_connected_tokens_membership() {
    let mut factory = PoolGraph::new();
    let hub = alkane_id("HUB");
    let x = alkane_id("XTOK");
    let y = alkane_id("YTOK");
    let z = alkane_id("ZTOK");
    factory.add_pool(hub, x, 10, 10, 10, 30).unwrap();
    factory.add_pool(y, hub, 10, 10, 10, 30).unwrap();
    factory.add_pool(x, y, 10, 10, 10, 30).unwrap();

    let connected = factory.get_connected_tokens(hub).unwrap();
    assert_eq!(connected.len(), 2);
    assert!(connected.contains(&x));
    assert!(connected.contains(&y));
    assert!(!connected.contains(&z));
    assert!(!connected.contains(&hub));

    let lonely = factory.get_connected_tokens(z).unwrap();
    assert!(lonely.is_empty());
}

#[test]
fn test_minimum_lp_formula_exact_across_slippages() {
    // minimumLpTokens == expectedLpTokens * (10000 - slippageBps) / 10000, exactly.
    for expected in [0u128, 1, 999, 1000, 123_456_789, u128::MAX] {
        for slippage in [0u128, 1, 500, 9999, 10000] {
            let m = ZapCalculator::calculate_minimum_lp_tokens(expected, slippage).unwrap();
            // The reference splits the product to stay within 128 bits; it
            // equals floor(expected * (10000 - slippage) / 10000) exactly.
            let reference = (expected / 10000) * (10000 - slippage)
                + (expected % 10000) * (10000 - slippage) / 10000;
            assert!(m <= expected);
            assert_eq!(m, reference);
        }
    }
    assert!(ZapCalculator::calculate_minimum_lp_tokens(1000, 10001).is_err());
}

#[test]
fn test_contract_quote_zap_amounts() {
    // The responder's simplified quote, checked against hand-computed
    // values of its formulas.
    let responder = OylZap::default();
    let input = alkane_id("INPUT");
    let a = alkane_id("TARGA");
    let b = alkane_id("TARGB");

    // All tokens distinct: both halves are swapped.
    let (split, a_out, b_out, lp, min_lp) = responder
        .quote_zap_amounts(input, 1000, a, b, 10_000, 20_000, (100_000, 50_000), (100_000, 200_000), 500)
        .unwrap();
    assert_eq!(split, 500);
    assert_eq!(a_out, 248);
    assert_eq!(b_out, 992);
    assert_eq!(lp, 744);
    assert_eq!(min_lp, 706);

    // Input already is target A over an empty target pair: direct half
    // plus one swap, LP from the square root of the product.
    let (split2, a_out2, b_out2, lp2, min_lp2) = responder
        .quote_zap_amounts(input, 1000, input, b, 0, 0, (0, 0), (100_000, 200_000), 500)
        .unwrap();
    assert_eq!(split2, 500);
    assert_eq!(a_out2, 500);
    assert_eq!(b_out2, 992);
    assert_eq!(lp2, 704);
    assert_eq!(min_lp2, 668);

    // A slippage tolerance above 100% is rejected.
    assert_eq!(
        responder
            .quote_zap_amounts(input, 1000, a, b, 10_000, 20_000, (1, 1), (1, 1), 10_001)
            .unwrap_err(),
        ZapError::InvalidInput
    );
}

#[test]
fn test_best_route_prices_exactly() {
    // On a one-pool graph the best route is the direct swap, priced to
    // the exact constant-product value, with the one-hop gas estimate
    // and the hop's own impact.
    let mut factory = PoolGraph::new();
    let a = alkane_id("ALPHA");
    let b = alkane_id("BETA");
    factory.add_pool(a, b, 1_000_000, 2_000_000, 1_414_213, 30).unwrap();

    let finder = RouteFinder::new(alkane_id("factory"), &factory);
    let route = finder.find_best_route(a, b, 50_000).unwrap();

    let stored = factory.get_pool(a, b).unwrap();
    let (rin, rout) = if stored.token_a == a {
        (stored.reserve_a, stored.reserve_b)
    } else {
        (stored.reserve_b, stored.reserve_a)
    };
    let expected = amm_logic::calculate_swap_out(50_000, rin, rout, 30).unwrap();
    let impact = amm_logic::calculate_price_impact(50_000, rin, expected, rout).unwrap();

    assert_eq!(route.path, vec![a, b]);
    assert_eq!(route.expected_output, expected);
    assert_eq!(route.price_impact, impact);
    assert_eq!(route.gas_estimate, 50_000);
}

#[test]
fn test_direct_contribution_shortcut_quote() {
    // Quoting a zap whose input token already is target A yields a
    // length-one route A holding exactly the input token.
    let zap = MockOylZap::with_comprehensive_setup();
    let (_, tokens) = setup_comprehensive_test_environment();

    let eth = tokens["ETH"];
    let usdc = tokens["USDC"];
    let quote = zap.get_zap_quote(eth, 1e18 as u128, eth, usdc, DEFAULT_SLIPPAGE).unwrap();
    assert_eq!(quote.route_a.path.len(), 1);
    assert_eq!(quote.route_a.path[0], eth);
}
