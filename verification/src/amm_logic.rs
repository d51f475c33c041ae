//! Pure invariant-pricing functions: constant-product swap output, LP
//! mint amount, and price impact, each specified exactly over the
//! mathematical integers.

use vstd::prelude::*;
use crate::types::ZapError;
use crate::u256::{lemma_isqrt_unique, mul_u128, pow2_128, pow2_256, spec_isqrt, U256};

verus! {

/// The smaller of two integers.
pub open spec fn min_int(a: int, b: int) -> int {
    if a < b {
        a
    } else {
        b
    }
}

/// The fee-bearing denominator of the constant-product swap formula.
pub open spec fn swap_denominator(amount_in: int, reserve_in: int, fee_bps: int) -> int {
    reserve_in * 10000 + amount_in * (10000 - fee_bps)
}

/// Exact swap output: `amountInWithFee * reserveOut` divided by
/// `reserveIn * 10000 + amountInWithFee`, rounded down.
pub open spec fn spec_swap_out(
    amount_in: int,
    reserve_in: int,
    reserve_out: int,
    fee_bps: int,
) -> int {
    (amount_in * (10000 - fee_bps) * reserve_out) / swap_denominator(amount_in, reserve_in, fee_bps)
}

/// LP tokens owed by one side of a deposit against an existing pool.
pub open spec fn spec_lp_share(amount: int, total_supply: int, reserve: int) -> int {
    amount * total_supply / reserve
}

/// Exact price impact in basis points; 10000 when a reserve or the ideal
/// output is degenerate.
pub open spec fn spec_price_impact(
    amount_in: int,
    reserve_in: int,
    amount_out: int,
    reserve_out: int,
) -> int {
    if reserve_in <= 0 || reserve_out <= 0 {
        10000
    } else {
        let ideal = amount_in * reserve_out / reserve_in;
        if ideal <= 0 {
            10000
        } else {
            let diff = if ideal > amount_out {
                ideal - amount_out
            } else {
                0
            };
            diff * 10000 / ideal
        }
    }
}

/// Swap output under the constant-product formula with the fee taken from
/// the input side.
///
/// Fails with `InvalidInput` exactly when the input amount is zero, and
/// with `InsufficientLiquidity` exactly when a reserve is zero; on every
/// other input it returns the exact formula value, which always fits in
/// 128 bits because the output is below `reserve_out`.
pub fn calculate_swap_out(
    amount_in: u128,
    reserve_in: u128,
    reserve_out: u128,
    fee_bps: u128,
) -> (r: Result<u128, ZapError>)
    requires
        fee_bps < 10000,
    ensures
        match r {
            Ok(out) => amount_in > 0 && reserve_in > 0 && reserve_out > 0 && out
                == spec_swap_out(amount_in as int, reserve_in as int, reserve_out as int, fee_bps as int)
                && out < reserve_out,
            Err(ZapError::InvalidInput) => amount_in == 0,
            Err(ZapError::InsufficientLiquidity) => amount_in > 0 && (reserve_in == 0
                || reserve_out == 0),
            Err(_) => false,
        },
{
    if amount_in == 0 {
        return Err(ZapError::InvalidInput);
    }
    if reserve_in == 0 || reserve_out == 0 {
        return Err(ZapError::InsufficientLiquidity);
    }
    let with_fee = mul_u128(amount_in, 10000 - fee_bps);
    let scaled_reserve = mul_u128(reserve_in, 10000);
    proof {
        assert(scaled_reserve.val() + with_fee.val() < pow2_256() && scaled_reserve.val() >= 10000
            && with_fee.val() >= 1) by (nonlinear_arith)
            requires
                scaled_reserve.val() == reserve_in * 10000,
                with_fee.val() == amount_in * (10000 - fee_bps),
                1 <= reserve_in <= 0xffffffffffffffffffffffffffffffff,
                1 <= amount_in <= 0xffffffffffffffffffffffffffffffff,
                0 <= fee_bps < 10000,
                pow2_256() == pow2_128() * pow2_128(),
                pow2_128() == 0x100000000000000000000000000000000;
    }
    let denom = scaled_reserve.add_exact(with_fee);
    let out = with_fee.mul_div_u128(reserve_out, denom);
    proof {
        // The output stays below the output-side reserve.
        lemma_div_product_bound(with_fee.val(), reserve_out as int, denom.val(), out as int);
        assert(out < reserve_out) by (nonlinear_arith)
            requires
                out == with_fee.val() * reserve_out / denom.val(),
                denom.val() == reserve_in * 10000 + with_fee.val(),
                scaled_reserve.val() == reserve_in * 10000,
                scaled_reserve.val() >= 10000,
                with_fee.val() >= 1,
                reserve_out >= 1,
                out * denom.val() <= with_fee.val() * reserve_out;
    }
    Ok(out)
}

/// The exact LP mint result: the integer square root of the amount
/// product for a first deposit, else the lesser proportional share, with
/// `Overflow` when that share exceeds 128 bits.
pub open spec fn spec_lp_minted(
    amount_a: int,
    amount_b: int,
    reserve_a: int,
    reserve_b: int,
    total_supply: int,
) -> Result<u128, ZapError> {
    if total_supply == 0 {
        Ok(spec_isqrt(amount_a * amount_b) as u128)
    } else {
        let share = min_int(
            amount_a * total_supply / reserve_a,
            amount_b * total_supply / reserve_b,
        );
        if share > u128::MAX {
            Err(ZapError::Overflow)
        } else {
            Ok(share as u128)
        }
    }
}

/// LP tokens minted for a deposit of `amount_a` and `amount_b`.
///
/// The first deposit mints the integer square root of the product of the
/// amounts; later deposits mint the lesser of the two proportional
/// shares, failing with `Overflow` exactly when that share exceeds 128
/// bits.
pub fn calculate_lp_tokens_minted(
    amount_a: u128,
    amount_b: u128,
    reserve_a: u128,
    reserve_b: u128,
    total_supply: u128,
) -> (r: Result<u128, ZapError>)
    requires
        total_supply > 0 ==> reserve_a > 0 && reserve_b > 0,
    ensures
        match r {
            Ok(lp) => {
                if total_supply == 0 {
                    lp * lp <= amount_a * amount_b < (lp + 1) * (lp + 1)
                } else {
                    lp == min_int(
                        spec_lp_share(amount_a as int, total_supply as int, reserve_a as int),
                        spec_lp_share(amount_b as int, total_supply as int, reserve_b as int),
                    )
                }
            },
            Err(ZapError::Overflow) => total_supply > 0 && min_int(
                spec_lp_share(amount_a as int, total_supply as int, reserve_a as int),
                spec_lp_share(amount_b as int, total_supply as int, reserve_b as int),
            ) > u128::MAX,
            Err(_) => false,
        },
        r == spec_lp_minted(
            amount_a as int,
            amount_b as int,
            reserve_a as int,
            reserve_b as int,
            total_supply as int,
        ),
{
    if total_supply == 0 {
        let product = mul_u128(amount_a, amount_b);
        let root = product.isqrt();
        proof {
            assert(amount_a * amount_b >= 0) by (nonlinear_arith)
                requires
                    amount_a >= 0,
                    amount_b >= 0;
            lemma_isqrt_unique(amount_a * amount_b, root as int);
        }
        Ok(root)
    } else {
        let (lp_a, _) = mul_u128(amount_a, total_supply).div_u128(reserve_a);
        let (lp_b, _) = mul_u128(amount_b, total_supply).div_u128(reserve_b);
        let smaller = if lp_a.lt(&lp_b) {
            lp_a
        } else {
            lp_b
        };
        match smaller.try_to_u128() {
            Some(lp) => Ok(lp),
            None => Err(ZapError::Overflow),
        }
    }
}

/// Price impact of a trade, in basis points, always in `[0, 10000]`.
///
/// Compares the ideal (mid-price, fee-free) output against the realized
/// output; degenerate reserves or a zero ideal output saturate to 10000
/// rather than failing.
pub fn calculate_price_impact(
    amount_in: u128,
    reserve_in: u128,
    amount_out: u128,
    reserve_out: u128,
) -> (r: Result<u128, ZapError>)
    ensures
        match r {
            Ok(impact) => impact == spec_price_impact(
                amount_in as int,
                reserve_in as int,
                amount_out as int,
                reserve_out as int,
            ) && impact <= 10000,
            Err(_) => false,
        },
{
    if reserve_in == 0 || reserve_out == 0 {
        return Ok(10000);
    }
    let (ideal, _) = mul_u128(amount_in, reserve_out).div_u128(reserve_in);
    if ideal.is_zero() {
        return Ok(10000);
    }
    let actual = U256::from_u128(amount_out);
    let diff = if actual.lt(&ideal) {
        ideal.sub_exact(actual)
    } else {
        U256::zero()
    };
    let impact = diff.mul_div_u128(10000, ideal);
    proof {
        lemma_div_product_bound(diff.val(), 10000, ideal.val(), impact as int);
        assert(impact <= 10000) by (nonlinear_arith)
            requires
                impact * ideal.val() <= diff.val() * 10000,
                0 <= diff.val() <= ideal.val(),
                ideal.val() > 0;
    }
    Ok(impact)
}

/// Integer square root of a 128-bit value.
pub fn integer_sqrt(n: u128) -> (r: u128)
    ensures
        r * r <= n < (r + 1) * (r + 1),
        r == spec_isqrt(n as int),
{
    let r = U256::from_u128(n).isqrt();
    proof {
        lemma_isqrt_unique(n as int, r as int);
    }
    r
}

/// The exact (unrounded) price-impact fraction of a constant-product swap
/// is non-decreasing in the input amount.
///
/// For reserves `reserve_in`/`reserve_out` and fee `fee_bps`, the exact
/// realized-to-ideal output ratio at amount `a` is
/// `(10000 - fee_bps) * reserve_in / swap_denominator(a, reserve_in,
/// fee_bps)`, so a larger trade never has a smaller exact impact.  Stated
/// by cross-multiplication to stay within the integers.  (The executable
/// impact works on floor-divided quantities, whose rounding can locally
/// break this order for tiny amounts: with both reserves 100, fee 0, the
/// rounded impact at amount 1 is 10000 but at amount 2 is 5000.)
pub proof fn lemma_price_impact_monotone(
    a1: int,
    a2: int,
    reserve_in: int,
    fee_bps: int,
)
    requires
        0 < reserve_in,
        0 <= fee_bps < 10000,
        0 <= a1 <= a2,
    ensures
        swap_denominator(a1, reserve_in, fee_bps) <= swap_denominator(a2, reserve_in, fee_bps),
        (swap_denominator(a1, reserve_in, fee_bps) - (10000 - fee_bps) * reserve_in)
            * swap_denominator(a2, reserve_in, fee_bps)
            <= (swap_denominator(a2, reserve_in, fee_bps) - (10000 - fee_bps) * reserve_in)
            * swap_denominator(a1, reserve_in, fee_bps),
{
    let d1 = swap_denominator(a1, reserve_in, fee_bps);
    let d2 = swap_denominator(a2, reserve_in, fee_bps);
    let c = (10000 - fee_bps) * reserve_in;
    assert(d1 <= d2 && (d1 - c) * d2 <= (d2 - c) * d1) by (nonlinear_arith)
        requires
            d1 == reserve_in * 10000 + a1 * (10000 - fee_bps),
            d2 == reserve_in * 10000 + a2 * (10000 - fee_bps),
            c == (10000 - fee_bps) * reserve_in,
            0 < reserve_in,
            0 <= fee_bps < 10000,
            0 <= a1 <= a2;
}

/// Constant-product law: paying `amount_in` into a pool and taking the
/// formula output never decreases the pool's invariant product
/// `reserve_in * reserve_out`, because the fee is charged on the input
/// and the output is rounded down.
pub proof fn lemma_swap_preserves_product(
    amount_in: int,
    reserve_in: int,
    reserve_out: int,
    fee_bps: int,
)
    requires
        0 < amount_in,
        0 < reserve_in,
        0 < reserve_out,
        0 <= fee_bps < 10000,
    ensures
        spec_swap_out(amount_in, reserve_in, reserve_out, fee_bps) < reserve_out,
        (reserve_in + amount_in) * (reserve_out - spec_swap_out(
            amount_in,
            reserve_in,
            reserve_out,
            fee_bps,
        )) >= reserve_in * reserve_out,
{
    let with_fee = amount_in * (10000 - fee_bps);
    let d = swap_denominator(amount_in, reserve_in, fee_bps);
    let n = with_fee * reserve_out;
    let out = spec_swap_out(amount_in, reserve_in, reserve_out, fee_bps);
    assert(d > 0 && with_fee > 0 && n > 0 && d > with_fee) by (nonlinear_arith)
        requires
            with_fee == amount_in * (10000 - fee_bps),
            d == reserve_in * 10000 + with_fee,
            n == with_fee * reserve_out,
            0 < amount_in,
            0 < reserve_in,
            0 < reserve_out,
            0 <= fee_bps < 10000;
    lemma_div_product_bound(with_fee, reserve_out, d, out);
    // The rounded-down output stays below the full numerator share, so
    // what remains of the output reserve covers the invariant.
    assert((reserve_out - out) * d >= reserve_out * reserve_in * 10000) by (nonlinear_arith)
        requires
            out * d <= n,
            n == with_fee * reserve_out,
            d == reserve_in * 10000 + with_fee;
    assert(out < reserve_out) by (nonlinear_arith)
        requires
            out * d <= n,
            n == with_fee * reserve_out,
            d > with_fee,
            with_fee > 0,
            reserve_out > 0,
            out == n / d,
            d > 0;
    assert((reserve_in + amount_in) * 10000 >= d) by (nonlinear_arith)
        requires
            d == reserve_in * 10000 + amount_in * (10000 - fee_bps),
            amount_in > 0,
            fee_bps >= 0;
    assert((reserve_in + amount_in) * (reserve_out - out) >= reserve_in * reserve_out)
        by (nonlinear_arith)
        requires
            (reserve_out - out) * d >= reserve_out * reserve_in * 10000,
            (reserve_in + amount_in) * 10000 >= d,
            reserve_out - out > 0,
            reserve_in > 0,
            reserve_out > 0,
            d > 0;
}

/// A fee-bearing share of the output reserve stays strictly below it:
/// `out == with_fee * reserve_out / denom < reserve_out` whenever the
/// denominator exceeds the fee-bearing numerator factor.
pub proof fn lemma_div_share_below_reserve(
    with_fee: int,
    reserve_out: int,
    denom: int,
    out: int,
)
    requires
        0 < with_fee < denom,
        0 < reserve_out,
        out == with_fee * reserve_out / denom,
    ensures
        0 <= out < reserve_out,
{
    lemma_div_product_bound(with_fee, reserve_out, denom, out);
    vstd::arithmetic::div_mod::lemma_div_pos_is_pos(with_fee * reserve_out, denom);
    assert(with_fee * reserve_out >= 0) by (nonlinear_arith)
        requires
            with_fee > 0,
            reserve_out > 0;
    assert(out < reserve_out) by (nonlinear_arith)
        requires
            out * denom <= with_fee * reserve_out,
            0 < with_fee < denom,
            0 < reserve_out,
            out >= 0;
}

/// `q * d <= n` for `q == n / d`, `d > 0`.
proof fn lemma_div_product_bound(a: int, b: int, d: int, q: int)
    requires
        d > 0,
        0 <= a,
        0 <= b,
        q == a * b / d,
    ensures
        q * d <= a * b,
{
    vstd::arithmetic::div_mod::lemma_fundamental_div_mod(a * b, d);
    assert(a * b >= 0) by (nonlinear_arith)
        requires
            0 <= a,
            0 <= b;
    assert(q * d <= a * b) by (nonlinear_arith)
        requires
            a * b == d * ((a * b) / d) + (a * b) % d,
            (a * b) % d >= 0,
            q == a * b / d;
}

} // verus!
