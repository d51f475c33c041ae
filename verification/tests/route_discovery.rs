#![allow(dead_code)]
use std::collections::HashMap;

use oyl_zap::amm_logic;
use oyl_zap::pool_graph::PoolGraph;
use oyl_zap::route_finder::RouteFinder;
use oyl_zap::types::{AlkaneId, PoolReserves, RouteInfo, ZapQuote};
use oyl_zap::zap_calculator::ZapCalculator;
use oyl_zap::ZapError;

const TEST_PRECISION: u128 = 1_000_000_000_000_000_000;
const TEST_FEE_RATE: u128 = 50; // 0.5% in basis points
const MAX_PRICE_IMPACT: u128 = 5000; // 50% in basis points
const DEFAULT_SLIPPAGE: u128 = 500; // 5% in basis points

/// Create a test AlkaneId from a string
fn alkane_id(s: &str) -> AlkaneId {
    let mut block_bytes = [0u8; 16];
    let s_bytes = s.as_bytes();
    let len = s_bytes.len().min(16);
    block_bytes[..len].copy_from_slice(&s_bytes[..len]);
    let block = u128::from_le_bytes(block_bytes);
    AlkaneId { block, tx: 0 }
}

fn add_pool_auto(factory: &mut PoolGraph, token_a: AlkaneId, token_b: AlkaneId, reserve_a: u128, reserve_b: u128) {
    let total_supply = amm_logic::calculate_lp_tokens_minted(reserve_a, reserve_b, 0, 0, 0).unwrap_or(0);
    factory
        .add_pool(token_a, token_b, reserve_a, reserve_b, total_supply, TEST_FEE_RATE)
        .unwrap();
}

/// Setup a balanced test environment with common tokens and pools
fn setup_test_environment() -> (PoolGraph, Vec<AlkaneId>) {
    let mut factory = PoolGraph::new();

    let wbtc = alkane_id("WBTC");
    let eth = alkane_id("ETH");
    let usdc = alkane_id("USDC");
    let usdt = alkane_id("USDT");
    let dai = alkane_id("DAI");

    add_pool_auto(&mut factory, wbtc, eth, 100 * 100_000_000, 1500 * TEST_PRECISION);
    add_pool_auto(&mut factory, eth, usdc, 1000 * TEST_PRECISION, 2_000_000 * 1_000_000);
    add_pool_auto(&mut factory, usdc, usdt, 1_000_000 * 1_000_000, 1_000_000 * 1_000_000);
    add_pool_auto(&mut factory, usdc, dai, 1_000_000 * 1_000_000, 1_000_000 * TEST_PRECISION);
    add_pool_auto(&mut factory, wbtc, usdc, 50 * 100_000_000, 1_000_000 * 1_000_000);

    let base_tokens = vec![wbtc, eth, usdc, usdt, dai];

    (factory, base_tokens)
}

/// Setup a comprehensive test environment with multiple pools
fn setup_comprehensive_test_environment() -> (PoolGraph, HashMap<String, AlkaneId>) {
    let mut factory = PoolGraph::new();
    let mut tokens = HashMap::new();

    let names = ["WBTC", "ETH", "USDC", "USDT", "DAI", "WETH", "UNI", "LINK", "AAVE", "COMP"];
    for name in names {
        tokens.insert(name.to_string(), alkane_id(name));
    }

    let pool_configs: Vec<(&str, &str, u128, u128)> = vec![
        ("WBTC", "ETH", 50 * 100_000_000, 750 * TEST_PRECISION),
        ("ETH", "USDC", 1000 * TEST_PRECISION, 2_000_000 * 1_000_000),
        ("ETH", "USDT", 800 * TEST_PRECISION, 1_600_000 * 1_000_000),
        ("ETH", "DAI", 900 * TEST_PRECISION, 1_800_000 * TEST_PRECISION),
        ("USDC", "USDT", 1_000_000 * 1_000_000, 1_000_000 * 1_000_000),
        ("USDC", "DAI", 1_000_000 * 1_000_000, 1_000_000 * TEST_PRECISION),
        ("USDT", "DAI", 1_000_000 * 1_000_000, 1_000_000 * TEST_PRECISION),
        ("WBTC", "USDC", 25 * 100_000_000, 500_000 * 1_000_000),
        ("WBTC", "USDT", 20 * 100_000_000, 400_000 * 1_000_000),
        ("UNI", "ETH", 10000 * TEST_PRECISION, 100 * TEST_PRECISION),
        ("UNI", "USDC", 15000 * TEST_PRECISION, 150_000 * 1_000_000),
        ("LINK", "ETH", 5000 * TEST_PRECISION, 50 * TEST_PRECISION),
        ("LINK", "USDC", 8000 * TEST_PRECISION, 80_000 * 1_000_000),
        ("AAVE", "ETH", 1000 * TEST_PRECISION, 100 * TEST_PRECISION),
        ("AAVE", "USDC", 1500 * TEST_PRECISION, 150_000 * 1_000_000),
        ("COMP", "ETH", 500 * TEST_PRECISION, 50 * TEST_PRECISION),
        ("COMP", "USDC", 800 * TEST_PRECISION, 80_000 * 1_000_000),
        ("WETH", "ETH", 500 * TEST_PRECISION, 500 * TEST_PRECISION),
        ("WETH", "USDC", 400 * TEST_PRECISION, 800_000 * 1_000_000),
    ];

    for (a, b, reserve_a, reserve_b) in pool_configs {
        let token_a = tokens[a];
        let token_b = tokens[b];
        add_pool_auto(&mut factory, token_a, token_b, reserve_a, reserve_b);
    }

    (factory, tokens)
}

/// Mock zap instance wiring the engine to an in-memory pool store
struct MockOylZap {
    factory_id: AlkaneId,
    base_tokens: Vec<AlkaneId>,
    max_price_impact: u128,
    default_slippage: u128,
    factory: PoolGraph,
}

impl Clone for MockOylZap {
    fn clone(&self) -> Self {
        Self {
            factory_id: self.factory_id,
            base_tokens: self.base_tokens.clone(),
            max_price_impact: self.max_price_impact,
            default_slippage: self.default_slippage,
            factory: self.factory.snapshot(),
        }
    }
}

impl MockOylZap {
    fn new() -> Self {
        let (factory, base_tokens) = setup_test_environment();
        Self {
            factory_id: alkane_id("oyl_factory"),
            base_tokens,
            max_price_impact: MAX_PRICE_IMPACT,
            default_slippage: DEFAULT_SLIPPAGE,
            factory,
        }
    }

    fn with_comprehensive_setup() -> Self {
        let (factory, token_map) = setup_comprehensive_test_environment();
        let base_tokens = vec![
            token_map["WBTC"],
            token_map["ETH"],
            token_map["USDC"],
            token_map["USDT"],
            token_map["DAI"],
        ];
        Self {
            factory_id: alkane_id("oyl_factory"),
            base_tokens,
            max_price_impact: MAX_PRICE_IMPACT,
            default_slippage: DEFAULT_SLIPPAGE,
            factory,
        }
    }

    fn init_zap(&mut self, factory_id: AlkaneId, base_tokens: Vec<AlkaneId>) {
        self.factory_id = factory_id;
        self.base_tokens = base_tokens;
    }

    fn get_zap_quote(
        &self,
        input_token: AlkaneId,
        input_amount: u128,
        target_token_a: AlkaneId,
        target_token_b: AlkaneId,
        max_slippage_bps: u128,
    ) -> Result<ZapQuote, ZapError> {
        ZapCalculator::get_zap_quote(
            self.factory_id,
            &self.base_tokens,
            &self.factory,
            input_token,
            input_amount,
            target_token_a,
            target_token_b,
            max_slippage_bps,
        )
    }

    fn execute_zap(&mut self, quote: &ZapQuote) -> Result<u128, ZapError> {
        // Execute both legs against an isolated copy, then commit atomically.
        let mut execution_factory = self.factory.snapshot();

        let amount_a_received =
            simulate_route_execution(&mut execution_factory, &quote.route_a, quote.split_amount_a)?;
        let amount_b_received =
            simulate_route_execution(&mut execution_factory, &quote.route_b, quote.split_amount_b)?;

        let lp_tokens = execution_factory.simulate_add_liquidity(
            quote.target_token_a,
            quote.target_token_b,
            amount_a_received,
            amount_b_received,
        )?;

        self.factory = execution_factory;

        quote.check_received_lp(lp_tokens)?;
        Ok(lp_tokens)
    }

    fn find_optimal_route(
        &self,
        from_token: AlkaneId,
        to_token: AlkaneId,
        amount: u128,
    ) -> Result<RouteInfo, ZapError> {
        let route_finder = RouteFinder::new(self.factory_id, &self.factory)
            .with_base_tokens(self.base_tokens.clone());
        route_finder.find_best_route(from_token, to_token, amount)
    }
}

fn create_mock_zap() -> MockOylZap {
    MockOylZap::new()
}

fn simulate_route_execution(
    factory: &mut PoolGraph,
    route: &RouteInfo,
    amount_in: u128,
) -> Result<u128, ZapError> {
    let mut current_amount = amount_in;
    for i in 0..route.path.len() - 1 {
        current_amount = factory.simulate_swap(route.path[i], route.path[i + 1], current_amount)?;
    }
    Ok(current_amount)
}

fn validate_zap_quote(quote: &ZapQuote) -> Result<(), ZapError> {
    ZapCalculator::validate_zap_quote(quote)?;
    assert!(quote.expected_lp_tokens > 0, "Expected LP tokens must be positive");
    assert!(
        quote.minimum_lp_tokens <= quote.expected_lp_tokens,
        "Minimum LP tokens cannot exceed expected"
    );
    assert!(quote.price_impact <= MAX_PRICE_IMPACT, "Price impact too high");
    assert_eq!(
        quote.split_amount_a + quote.split_amount_b,
        quote.input_amount,
        "Split amounts must sum to input"
    );
    Ok(())
}

fn validate_route_info(route: &RouteInfo) -> Result<(), ZapError> {
    assert!(!route.path.is_empty(), "Route path cannot be empty");
    assert!(route.path.len() >= 2, "Route must have at least 2 tokens");
    assert!(route.expected_output > 0, "Expected output must be positive");
    assert!(route.price_impact <= MAX_PRICE_IMPACT, "Price impact too high");
    Ok(())
}

fn assert_within_tolerance(actual: u128, expected: u128, tolerance_bps: u128) {
    let tolerance = expected * tolerance_bps / 10000;
    let lower_bound = expected.saturating_sub(tolerance);
    let upper_bound = expected.saturating_add(tolerance);
    assert!(
        actual >= lower_bound && actual <= upper_bound,
        "Value {} not within {}% tolerance of expected {}. Range: [{}, {}]",
        actual,
        tolerance_bps as f64 / 100.0,
        expected,
        lower_bound,
        upper_bound
    );
}

fn assert_price_impact_reasonable(price_impact: u128, max_impact: u128) {
    assert!(
        price_impact <= max_impact,
        "Price impact {}% exceeds maximum allowed {}%",
        price_impact as f64 / 100.0,
        max_impact as f64 / 100.0
    );
}

fn calculate_percentage_difference(value1: u128, value2: u128) -> u128 {
    if value1 == value2 {
        return 0;
    }
    let larger = value1.max(value2);
    let smaller = value1.min(value2);
    let difference = larger - smaller;
    (difference * 10000) / larger
}

fn simulate_flash_loan_attack(
    factory: &mut PoolGraph,
    token_a: AlkaneId,
    token_b: AlkaneId,
    attack_token: AlkaneId,
    flash_amount: u128,
) -> Result<i128, ZapError> {
    let mut test_factory = factory.snapshot();
    let pool = test_factory.get_pool(token_a, token_b).ok_or(ZapError::NotFound)?;
    let other_token = if pool.token_a == attack_token {
        pool.token_b
    } else {
        pool.token_a
    };

    // Step 1: Large swap to manipulate price
    let amount_out = test_factory.simulate_swap(attack_token, other_token, flash_amount)?;

    // Step 2: Reverse swap
    let amount_back = test_factory.simulate_swap(other_token, attack_token, amount_out)?;

    // Step 3: Calculate profit/loss
    Ok(amount_back as i128 - flash_amount as i128)
}


#[test]
fn test_direct_route_discovery() -> Result<(), ZapError> {
    println!("Testing direct route discovery...");

    let zap = create_mock_zap();
    let wbtc = alkane_id("WBTC");
    let eth = alkane_id("ETH");
    let amount = 1e8 as u128; // 1 WBTC

    let route = zap.find_optimal_route(wbtc, eth, amount)?;

    // Verify direct route properties
    assert_eq!(route.path.len(), 2, "Direct route should have 2 tokens");
    assert_eq!(route.path[0], wbtc, "Route should start with input token");
    assert_eq!(route.path[1], eth, "Route should end with target token");
    assert!(route.is_direct_route(), "Should be identified as direct route");
    assert_eq!(route.hop_count(), 1, "Direct route should have 1 hop");
    assert!(route.expected_output > 0, "Should have positive expected output");

    validate_route_info(&route)?;

    println!("✅ Direct route discovery test passed");
    Ok(())
}

#[test]
fn test_single_hop_route_discovery() -> Result<(), ZapError> {
    println!("Testing single-hop route discovery...");

    let zap = MockOylZap::with_comprehensive_setup();
    let (_, tokens) = setup_comprehensive_test_environment();

    let uni = tokens["UNI"];
    let dai = tokens["DAI"];
    let _eth = tokens["ETH"]; // Base token for routing
    let amount = 1000 * 1e18 as u128; // 1000 UNI

    let route = zap.find_optimal_route(uni, dai, amount)?;

    // Should find route through ETH: UNI -> ETH -> DAI
    assert!(route.path.len() >= 2, "Route should have at least 2 tokens");
    assert_eq!(route.path[0], uni, "Route should start with UNI");
    assert_eq!(route.path[route.path.len() - 1], dai, "Route should end with DAI");
    assert!(route.hop_count() >= 1, "Should have at least 1 hop");
    assert!(route.expected_output > 0, "Should have positive expected output");

    validate_route_info(&route)?;

    println!("✅ Single-hop route discovery test passed");
    Ok(())
}

#[test]
fn test_multi_hop_route_discovery() -> Result<(), ZapError> {
    println!("Testing multi-hop route discovery...");

    let zap = MockOylZap::with_comprehensive_setup();
    let (_, tokens) = setup_comprehensive_test_environment();

    let comp = tokens["COMP"];
    let aave = tokens["AAVE"];
    let amount = 100 * 1e18 as u128; // 100 COMP

    let route = zap.find_optimal_route(comp, aave, amount)?;

    // Should find multi-hop route: COMP -> ETH/USDC -> AAVE
    assert!(route.path.len() >= 2, "Route should have at least 2 tokens");
    assert_eq!(route.path[0], comp, "Route should start with COMP");
    assert_eq!(route.path[route.path.len() - 1], aave, "Route should end with AAVE");
    assert!(route.hop_count() >= 1, "Should have at least 1 hop");
    assert!(route.expected_output > 0, "Should have positive expected output");

    validate_route_info(&route)?;

    println!("✅ Multi-hop route discovery test passed");
    Ok(())
}

#[test]
fn test_route_efficiency_comparison() -> Result<(), ZapError> {
    println!("Testing route efficiency comparison...");

    let zap = MockOylZap::with_comprehensive_setup();
    let (_, tokens) = setup_comprehensive_test_environment();

    let wbtc = tokens["WBTC"];
    let dai = tokens["DAI"];
    let amount = 1e8 as u128; // 1 WBTC

    // Find the best route
    let best_route = zap.find_optimal_route(wbtc, dai, amount)?;

    // Verify route efficiency properties
    assert!(best_route.expected_output > 0, "Best route should have positive output");
    assert!(best_route.price_impact < MAX_PRICE_IMPACT, "Price impact should be reasonable");
    assert!(best_route.hop_count() <= 3, "Should not exceed maximum hops");

    validate_route_info(&best_route)?;

    println!("✅ Route efficiency comparison test passed");
    Ok(())
}

#[test]
fn test_route_validation_and_error_handling() -> Result<(), ZapError> {
    println!("Testing route validation and error handling...");

    let zap = create_mock_zap();
    let wbtc = alkane_id("WBTC");
    let nonexistent_token = alkane_id("NONEXISTENT");
    let amount = 1e8 as u128;

    // Test route to non-existent token
    let result = zap.find_optimal_route(wbtc, nonexistent_token, amount);
    assert!(result.is_err(), "Should fail for non-existent token");

    // Test route from token to itself
    let result = zap.find_optimal_route(wbtc, wbtc, amount);
    assert!(result.is_err(), "Should fail for same input/output token");

    // Test with zero amount
    let eth = alkane_id("ETH");
    let result = zap.find_optimal_route(wbtc, eth, 0);
    assert!(result.is_err(), "Should fail for zero amount");

    println!("✅ Route validation and error handling test passed");
    Ok(())
}

#[test]
fn test_base_token_routing_optimization() -> Result<(), ZapError> {
    println!("Testing base token routing optimization...");

    let zap = MockOylZap::with_comprehensive_setup();
    let (_, tokens) = setup_comprehensive_test_environment();

    let link = tokens["LINK"];
    let comp = tokens["COMP"];
    let amount = 1000 * 1e18 as u128; // 1000 LINK

    let route = zap.find_optimal_route(link, comp, amount)?;

    // Should route through base tokens (ETH, USDC, etc.)
    assert!(route.path.len() >= 2, "Route should have at least 2 tokens");
    assert_eq!(route.path[0], link, "Route should start with LINK");
    assert_eq!(route.path[route.path.len() - 1], comp, "Route should end with COMP");

    // Check if route uses base tokens
    let base_tokens = vec![tokens["ETH"], tokens["USDC"], tokens["USDT"], tokens["DAI"]];
    let uses_base_token = route.path.iter().any(|token| base_tokens.contains(token));

    if route.path.len() > 2 {
        assert!(uses_base_token, "Multi-hop route should use base tokens for efficiency");
    }

    validate_route_info(&route)?;

    println!("✅ Base token routing optimization test passed");
    Ok(())
}

#[test]
fn test_price_impact_calculation_accuracy() -> Result<(), ZapError> {
    println!("Testing price impact calculation accuracy...");

    let zap = create_mock_zap();
    let wbtc = alkane_id("WBTC");
    let eth = alkane_id("ETH");

    // Test different amounts to verify price impact scaling
    let test_amounts = vec![
        1e6 as u128, // Small amount
        1e7 as u128, // Medium amount
        1e8 as u128, // Large amount
        5e8 as u128, // Very large amount
    ];

    let mut previous_impact = 0u128;

    for amount in test_amounts {
        let route = zap.find_optimal_route(wbtc, eth, amount)?;

        // Price impact should increase with larger amounts
        if previous_impact > 0 {
            assert!(
                route.price_impact >= previous_impact,
                "Price impact should increase with larger amounts. Previous: {}, Current: {}",
                previous_impact,
                route.price_impact
            );
        }

        assert_price_impact_reasonable(route.price_impact, MAX_PRICE_IMPACT);
        previous_impact = route.price_impact;

        validate_route_info(&route)?;
    }

    println!("✅ Price impact calculation accuracy test passed");
    Ok(())
}

#[test]
fn test_gas_estimation_accuracy() -> Result<(), ZapError> {
    println!("Testing gas estimation accuracy...");

    let zap = MockOylZap::with_comprehensive_setup();
    let (_, tokens) = setup_comprehensive_test_environment();

    let wbtc = tokens["WBTC"];
    let eth = tokens["ETH"];
    let usdc = tokens["USDC"];
    let amount = 1e8 as u128;

    // Test direct route gas estimation
    let direct_route = zap.find_optimal_route(wbtc, eth, amount)?;

    // Test indirect route gas estimation
    let indirect_route = zap.find_optimal_route(wbtc, usdc, amount)?;

    // Gas should scale with number of hops
    assert!(direct_route.gas_estimate > 0, "Direct route should have positive gas estimate");

    if indirect_route.hop_count() > direct_route.hop_count() {
        assert!(
            indirect_route.gas_estimate > direct_route.gas_estimate,
            "More hops should require more gas. Direct: {}, Indirect: {}",
            direct_route.gas_estimate,
            indirect_route.gas_estimate
        );
    }

    // Reasonable gas estimates (not too high or too low)
    assert!(direct_route.gas_estimate < 1_000_000, "Gas estimate should be reasonable");
    assert!(indirect_route.gas_estimate < 1_000_000, "Gas estimate should be reasonable");

    validate_route_info(&direct_route)?;
    validate_route_info(&indirect_route)?;

    println!("✅ Gas estimation accuracy test passed");
    Ok(())
}

#[test]
fn test_route_caching_and_performance() -> Result<(), ZapError> {
    println!("Testing route caching and performance...");

    let zap = create_mock_zap();
    let wbtc = alkane_id("WBTC");
    let eth = alkane_id("ETH");
    let amount = 1e8 as u128;

    // Benchmark route finding performance
    let iterations = 100;
    let start = std::time::Instant::now();
    for _ in 0..iterations {
        let _ = zap.find_optimal_route(wbtc, eth, amount);
    }
    let duration = start.elapsed();

    println!("Route finding took {:?} for {} iterations", duration, iterations);
    println!("Average time per route: {:?}", duration / iterations as u32);

    // Performance should be reasonable
    let avg_duration = duration / iterations as u32;
    assert!(
        avg_duration < std::time::Duration::from_millis(10),
        "Route finding should be performant. Average: {:?}",
        avg_duration
    );

    // Verify that multiple calls return consistent results
    let route1 = zap.find_optimal_route(wbtc, eth, amount)?;
    let route2 = zap.find_optimal_route(wbtc, eth, amount)?;

    assert_eq!(route1.path, route2.path, "Routes should be consistent");
    assert_eq!(route1.expected_output, route2.expected_output, "Output should be consistent");

    println!("✅ Route caching and performance test passed");
    Ok(())
}

#[test]
fn test_liquidity_aware_routing() -> Result<(), ZapError> {
    println!("Testing liquidity-aware routing...");

    let zap = MockOylZap::with_comprehensive_setup();
    let (_, tokens) = setup_comprehensive_test_environment();

    let wbtc = tokens["WBTC"];
    let usdc = tokens["USDC"];

    // Test with small amount (should prefer direct route)
    let small_amount = 1e6 as u128; // 0.01 WBTC
    let small_route = zap.find_optimal_route(wbtc, usdc, small_amount)?;

    // Test with large amount (might prefer indirect route to minimize slippage)
    let large_amount = 10 * 1e8 as u128; // 10 WBTC
    let large_route = zap.find_optimal_route(wbtc, usdc, large_amount)?;

    // Verify both routes are valid
    validate_route_info(&small_route)?;
    validate_route_info(&large_route)?;

    // Large amounts should have higher price impact
    assert!(
        large_route.price_impact >= small_route.price_impact,
        "Large amounts should have higher price impact. Small: {}, Large: {}",
        small_route.price_impact,
        large_route.price_impact
    );

    println!("✅ Liquidity-aware routing test passed");
    Ok(())
}

#[test]
fn test_stablecoin_routing_optimization() -> Result<(), ZapError> {
    println!("Testing stablecoin routing optimization...");

    let zap = MockOylZap::with_comprehensive_setup();
    let (_, tokens) = setup_comprehensive_test_environment();

    let usdc = tokens["USDC"];
    let dai = tokens["DAI"];
    let amount = 1000 * 1e6 as u128; // 1000 USDC

    let route = zap.find_optimal_route(usdc, dai, amount)?;

    // Stablecoin routes should have low price impact
    assert!(
        route.price_impact < 100, // Less than 1%
        "Stablecoin routes should have low price impact: {}%",
        route.price_impact as f64 / 100.0
    );

    // Should prefer direct route for stablecoins
    assert!(route.hop_count() <= 2, "Stablecoin routes should be direct or single-hop");

    validate_route_info(&route)?;

    println!("✅ Stablecoin routing optimization test passed");
    Ok(())
}

#[test]
fn test_route_discovery_edge_cases() -> Result<(), ZapError> {
    println!("Testing route discovery edge cases...");

    let zap = create_mock_zap();
    let wbtc = alkane_id("WBTC");
    let eth = alkane_id("ETH");

    // Test with very small amount
    let tiny_amount = 1u128;
    let result = zap.find_optimal_route(wbtc, eth, tiny_amount);
    // Should either succeed with minimal output or fail gracefully
    if let Ok(route) = result {
        validate_route_info(&route)?;
        assert!(route.expected_output > 0, "Even tiny amounts should have some output");
    }

    // Test with maximum reasonable amount
    let max_amount = u128::MAX / 1000; // Avoid overflow
    let result = zap.find_optimal_route(wbtc, eth, max_amount);
    // Should handle large amounts gracefully
    if let Ok(route) = result {
        assert!(route.price_impact <= 10000, "Price impact should not exceed 100%");
    }

    println!("✅ Route discovery edge cases test passed");
    Ok(())
}

#[test]
fn test_route_comparison_and_selection() -> Result<(), ZapError> {
    println!("Testing route comparison and selection...");

    let zap = MockOylZap::with_comprehensive_setup();
    let (_, tokens) = setup_comprehensive_test_environment();

    let wbtc = tokens["WBTC"];
    let dai = tokens["DAI"];
    let amount = 1e8 as u128; // 1 WBTC

    // Get the optimal route
    let optimal_route = zap.find_optimal_route(wbtc, dai, amount)?;

    // Verify route selection criteria
    validate_route_info(&optimal_route)?;

    // 1. Higher output amount
    assert!(optimal_route.expected_output > 0, "Should have positive output");

    // 2. Reasonable price impact
    assert_price_impact_reasonable(optimal_route.price_impact, MAX_PRICE_IMPACT);

    // 3. Reasonable number of hops
    assert!(optimal_route.hop_count() <= 3, "Should not have too many hops");

    // 4. Reasonable gas cost
    assert!(optimal_route.gas_estimate > 0, "Should have positive gas estimate");
    assert!(optimal_route.gas_estimate < 1_000_000, "Gas should be reasonable");

    println!("✅ Route comparison and selection test passed");
    Ok(())
}
