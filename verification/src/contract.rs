//! The pure pricing computation of the on-chain zap responder.
//!
//! The surrounding contract machinery (opcode dispatch, storage, calls
//! into the factory and pools) lives outside the library; what it decides
//! with is computed here.

use vstd::prelude::*;
use crate::amm_logic::min_int;
use crate::types::{AlkaneId, ZapError};
use crate::u256::{mul_u128, pow2_128, pow2_256, spec_isqrt};

verus! {

/// The exact simplified on-chain swap output at a fixed 0.3% fee, for
/// nonzero arguments.
pub open spec fn spec_contract_swap_output(
    amount_in: int,
    reserve_in: int,
    reserve_out: int,
) -> int {
    (amount_in * 997 * reserve_out) / (reserve_in * 1000 + amount_in * 997)
}

/// The responder's swap pricing as a result: degenerate arguments are
/// errors, never a fabricated amount.
pub open spec fn spec_responder_swap(
    amount_in: u128,
    reserve_in: u128,
    reserve_out: u128,
) -> Result<u128, ZapError> {
    if amount_in == 0 {
        Err(ZapError::InvalidInput)
    } else if reserve_in == 0 || reserve_out == 0 {
        Err(ZapError::InsufficientLiquidity)
    } else {
        Ok(
            spec_contract_swap_output(
                amount_in as int,
                reserve_in as int,
                reserve_out as int,
            ) as u128,
        )
    }
}

/// The exact value of the responder's simplified quote: half the input
/// priced toward each target (a target equal to the input token takes
/// its half directly), the LP estimate against the target pair's summed
/// reserves standing in for its supply, and the slippage-protected
/// minimum — or the first error on the way there.
pub open spec fn spec_quote_zap_amounts(
    input_token: AlkaneId,
    input_amount: u128,
    target_token_a: AlkaneId,
    target_token_b: AlkaneId,
    reserve_a: u128,
    reserve_b: u128,
    reserves_to_a: (u128, u128),
    reserves_to_b: (u128, u128),
    max_slippage_bps: u128,
) -> Result<(u128, u128, u128, u128, u128), ZapError> {
    if max_slippage_bps > 10000 {
        Err(ZapError::InvalidInput)
    } else {
        let split = (input_amount / 2) as u128;
        match (if input_token == target_token_a {
            Ok(split)
        } else {
            spec_responder_swap(split, reserves_to_a.0, reserves_to_a.1)
        }) {
            Err(e) => Err(e),
            Ok(a_out) => match (
            if input_token != target_token_a && input_token == target_token_b {
                Ok(split)
            } else {
                spec_responder_swap(split, reserves_to_b.0, reserves_to_b.1)
            }) {
                Err(e) => Err(e),
                Ok(b_out) => if reserve_a + reserve_b > u128::MAX {
                    Err(ZapError::Overflow)
                } else if reserve_a + reserve_b == 0 {
                    let lp = spec_isqrt(a_out * b_out) as u128;
                    Ok((split, a_out, b_out, lp, (lp * (10000 - max_slippage_bps) / 10000) as u128))
                } else if reserve_a == 0 || reserve_b == 0 {
                    Err(ZapError::InsufficientLiquidity)
                } else {
                    let share = min_int(
                        a_out * (reserve_a + reserve_b) / reserve_a as int,
                        b_out * (reserve_a + reserve_b) / reserve_b as int,
                    );
                    if share > u128::MAX {
                        Err(ZapError::Overflow)
                    } else {
                        let lp = share as u128;
                        Ok(
                            (
                                split,
                                a_out,
                                b_out,
                                lp,
                                (lp * (10000 - max_slippage_bps) / 10000) as u128,
                            ),
                        )
                    }
                },
            },
        }
    }
}

/// The zap responder.  Its chain-facing duties (dispatch, storage,
/// factory calls) live with the embedder; the pricing it performs itself
/// is here.
#[derive(Default)]
pub struct OylZap();

impl OylZap {
    /// Swap output under the fixed 997/1000 fee model the responder uses
    /// on-chain.
    ///
    /// A zero input amount is `InvalidInput` and a zero reserve is
    /// `InsufficientLiquidity`, exactly; no placeholder amount stands in
    /// for an error.  On every other input the exact formula value is
    /// returned.
    pub fn calculate_swap_output(
        &self,
        amount_in: u128,
        reserve_in: u128,
        reserve_out: u128,
    ) -> (r: Result<u128, ZapError>)
        ensures
            r == spec_responder_swap(amount_in, reserve_in, reserve_out),
            match r {
                Ok(out) => amount_in > 0 && reserve_in > 0 && reserve_out > 0 && out
                    == spec_contract_swap_output(
                    amount_in as int,
                    reserve_in as int,
                    reserve_out as int,
                ) && out < reserve_out,
                Err(ZapError::InvalidInput) => amount_in == 0,
                Err(ZapError::InsufficientLiquidity) => amount_in > 0 && (reserve_in == 0
                    || reserve_out == 0),
                Err(_) => false,
            },
    {
        if amount_in == 0 {
            return Err(ZapError::InvalidInput);
        }
        if reserve_in == 0 || reserve_out == 0 {
            return Err(ZapError::InsufficientLiquidity);
        }
        let with_fee = mul_u128(amount_in, 997);
        let scaled_reserve = mul_u128(reserve_in, 1000);
        proof {
            assert(scaled_reserve.val() + with_fee.val() < pow2_256() && scaled_reserve.val()
                >= 1000 && with_fee.val() >= 997) by (nonlinear_arith)
                requires
                    scaled_reserve.val() == reserve_in * 1000,
                    with_fee.val() == amount_in * 997,
                    1 <= reserve_in <= 0xffffffffffffffffffffffffffffffff,
                    1 <= amount_in <= 0xffffffffffffffffffffffffffffffff,
                    pow2_256() == pow2_128() * pow2_128(),
                    pow2_128() == 0x100000000000000000000000000000000;
        }
        let denom = scaled_reserve.add_exact(with_fee);
        let out = with_fee.mul_div_u128(reserve_out, denom);
        proof {
            crate::amm_logic::lemma_div_share_below_reserve(
                with_fee.val(),
                reserve_out as int,
                denom.val(),
                out as int,
            );
        }
        Ok(out)
    }

    /// The responder's simplified quote: split the input in half, price
    /// each half at the fixed on-chain fee, and estimate the LP tokens
    /// against the target pair's summed reserves standing in for its
    /// supply.
    ///
    /// `reserve_a` and `reserve_b` are the target pair's reserves;
    /// `reserves_to_a` is the `(reserve_in, reserve_out)` pair of the
    /// pool from the input token toward target A, ignored when the input
    /// already is target A, and `reserves_to_b` likewise for target B.
    /// The embedder reads those reserves from its pools and serializes
    /// the five returned values (split, both outputs, expected LP,
    /// minimum LP) into its response.  The result is exactly
    /// `spec_quote_zap_amounts`; in particular `Overflow` comes if and
    /// only if the summed reserves or the LP share exceed 128 bits.
    pub fn quote_zap_amounts(
        &self,
        input_token: AlkaneId,
        input_amount: u128,
        target_token_a: AlkaneId,
        target_token_b: AlkaneId,
        reserve_a: u128,
        reserve_b: u128,
        reserves_to_a: (u128, u128),
        reserves_to_b: (u128, u128),
        max_slippage_bps: u128,
    ) -> (r: Result<(u128, u128, u128, u128, u128), ZapError>)
        ensures
            r == spec_quote_zap_amounts(
                input_token,
                input_amount,
                target_token_a,
                target_token_b,
                reserve_a,
                reserve_b,
                reserves_to_a,
                reserves_to_b,
                max_slippage_bps,
            ),
            match r {
                Ok((split, a_out, b_out, expected_lp, min_lp)) => {
                    &&& split == input_amount / 2
                    &&& min_lp == expected_lp * (10000 - max_slippage_bps) / 10000
                    &&& min_lp <= expected_lp
                },
                Err(_) => true,
            },
    {
        if max_slippage_bps > 10000 {
            return Err(ZapError::InvalidInput);
        }
        let split_amount = input_amount / 2;
        let amount_a_out = if input_token == target_token_a {
            split_amount
        } else {
            match self.calculate_swap_output(split_amount, reserves_to_a.0, reserves_to_a.1) {
                Ok(x) => x,
                Err(e) => {
                    return Err(e);
                },
            }
        };
        let amount_b_out = if input_token != target_token_a && input_token == target_token_b {
            split_amount
        } else {
            match self.calculate_swap_output(split_amount, reserves_to_b.0, reserves_to_b.1) {
                Ok(x) => x,
                Err(e) => {
                    return Err(e);
                },
            }
        };
        // The responder approximates the pool's LP supply by the sum of
        // its reserves.
        let total_supply = if reserve_b > u128::MAX - reserve_a {
            return Err(ZapError::Overflow);
        } else {
            reserve_a + reserve_b
        };
        let expected_lp = if total_supply == 0 {
            let root = mul_u128(amount_a_out, amount_b_out).isqrt();
            proof {
                assert(amount_a_out * amount_b_out >= 0) by (nonlinear_arith)
                    requires
                        amount_a_out >= 0,
                        amount_b_out >= 0;
                crate::u256::lemma_isqrt_unique(amount_a_out * amount_b_out, root as int);
            }
            root
        } else {
            if reserve_a == 0 || reserve_b == 0 {
                return Err(ZapError::InsufficientLiquidity);
            }
            let (lp_a, _) = mul_u128(amount_a_out, total_supply).div_u128(reserve_a);
            let (lp_b, _) = mul_u128(amount_b_out, total_supply).div_u128(reserve_b);
            let smaller = if lp_a.lt(&lp_b) {
                lp_a
            } else {
                lp_b
            };
            match smaller.try_to_u128() {
                Some(x) => x,
                None => {
                    return Err(ZapError::Overflow);
                },
            }
        };
        let (minimum, _) = mul_u128(expected_lp, 10000 - max_slippage_bps).div_u128(10000);
        proof {
            assert(minimum.val() <= expected_lp) by (nonlinear_arith)
                requires
                    minimum.val() == expected_lp * (10000 - max_slippage_bps) / 10000,
                    0 <= max_slippage_bps <= 10000,
                    expected_lp >= 0;
        }
        let min_lp = match minimum.try_to_u128() {
            Some(x) => x,
            None => {
                proof {
                    assert(false);
                }
                return Err(ZapError::Overflow);
            },
        };
        Ok((split_amount, amount_a_out, amount_b_out, expected_lp, min_lp))
    }
}

} // verus!
