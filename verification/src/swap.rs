//! The trade transition: a constant-product swap with a basis-point fee.
//!
//! The fee is skimmed from the input before pricing and stays in the pool as
//! implicit reserve growth; the output is priced against the untaxed
//! opposing reserve and rounded down. Because the full input enters the
//! reserve while only the taxed part was priced, the product of the reserves
//! never decreases across a trade.

use vstd::prelude::*;
use crate::checker;
use crate::errors::CustomError;
use crate::math;
use crate::state::Amm;
use crate::state::Pool;

verus! {

/// The input actually accepted: the request capped at the trader's balance,
/// so custody is never asked to move more than the trader owns.
pub open spec fn clamped_input(input: int, balance: int) -> int {
    if input > balance {
        balance
    } else {
        input
    }
}

/// The input left after skimming the basis-point fee:
/// `input - input * fee / 10000`, the skim rounded down.
pub open spec fn taxed_input(input: int, fee: int) -> int {
    input - (input * fee) / 10000
}

/// The constant-product output for a taxed input `t` against an input-side
/// reserve `rin` and an opposing reserve `rout`, rounded down:
/// `t * rout / (rin + t)`.
pub open spec fn swap_out(rin: int, rout: int, t: int) -> int {
    (t * rout) / (rin + t)
}

/// Every fixed-point step of the pricing stays in range: reserves and the
/// taxed input fit the integer bits, their product fits, and the divisor is
/// positive.
pub open spec fn swap_fits(rin: int, rout: int, t: int) -> bool {
    &&& rin < math::INT_OVERFLOW
    &&& rout < math::INT_OVERFLOW
    &&& t < math::INT_OVERFLOW
    &&& t * rout < math::INT_OVERFLOW
    &&& rin + t < math::INT_OVERFLOW
    &&& rin + t > 0
}

/// Law of the trade: the output rounded down from the constant-product
/// formula never exceeds the opposing reserve, and because the full input
/// `inp` (of which only the taxed part `t` was priced) enters the reserve,
/// the product of the reserves never decreases.
pub proof fn lemma_swap_invariant(rin: int, rout: int, inp: int, t: int, out: int)
    requires
        rin >= 0,
        rout >= 0,
        0 <= t <= inp,
        rin + t > 0,
        out == swap_out(rin, rout, t),
    ensures
        0 <= out <= rout,
        (rin + inp) * (rout - out) >= rin * rout,
{
    let d = rin + t;
    vstd::arithmetic::mul::lemma_mul_nonnegative(t, rout);
    vstd::arithmetic::div_mod::lemma_div_pos_is_pos(t * rout, d);
    assert(t * rout <= d * rout) by (nonlinear_arith)
        requires
            0 <= t <= d,
            rout >= 0,
    ;
    vstd::arithmetic::div_mod::lemma_div_is_ordered(t * rout, d * rout, d);
    vstd::arithmetic::div_mod::lemma_div_multiples_vanish(rout, d);
    assert(d * rout == rout * d) by (nonlinear_arith);
    assert((d * rout) / d == rout) by {
        vstd::arithmetic::div_mod::lemma_div_by_multiple(rout, d);
    }
    assert(out <= rout);
    vstd::arithmetic::div_mod::lemma_fundamental_div_mod(t * rout, d);
    vstd::arithmetic::div_mod::lemma_mod_bound(t * rout, d);
    assert(d * out <= t * rout);
    assert((rin + t) * (rout - out) >= rin * rout) by (nonlinear_arith)
        requires
            d == rin + t,
            d * out <= t * rout,
            rout - out >= 0,
            rin >= 0,
            t >= 0,
    ;
    assert((rin + inp) * (rout - out) >= (rin + t) * (rout - out)) by (nonlinear_arith)
        requires
            inp >= t,
            rout - out >= 0,
    ;
}

/// Prices a taxed input against the reserves with the constant-product
/// formula, every rounding step explicit and every overflow reported.
pub fn compute_swap_output(rin: u64, rout: u64, taxed: u64) -> (r: Result<u64, CustomError>)
    ensures
        r is Ok <==> swap_fits(rin as int, rout as int, taxed as int),
        r matches Ok(v) ==> v as int == swap_out(rin as int, rout as int, taxed as int),
        r matches Err(e) ==> e == CustomError::ArithmeticOverflow,
{
    let t_f = match math::from_u64(taxed) {
        Ok(v) => v,
        Err(e) => { return Err(e); },
    };
    let rout_f = match math::from_u64(rout) {
        Ok(v) => v,
        Err(e) => { return Err(e); },
    };
    proof {
        math::lemma_mul_bits_ints(taxed as int, rout as int);
        vstd::arithmetic::mul::lemma_mul_nonnegative(taxed as int, rout as int);
        vstd::arithmetic::mul::lemma_mul_nonnegative(taxed as int, math::fone());
    }
    let prod = match math::mul(t_f, rout_f) {
        Ok(v) => v,
        Err(e) => { return Err(e); },
    };
    let rin_f = match math::from_u64(rin) {
        Ok(v) => v,
        Err(e) => { return Err(e); },
    };
    proof {
        vstd::arithmetic::mul::lemma_mul_nonnegative(rin as int, math::fone());
    }
    let denom = match math::add(rin_f, t_f) {
        Ok(v) => v,
        Err(e) => { return Err(e); },
    };
    assert(denom.bits as int == (rin as int + taxed as int) * math::fone()) by (nonlinear_arith)
        requires
            denom.bits as int == rin as int * math::fone() + taxed as int * math::fone(),
    ;
    proof {
        if rin as int + taxed as int > 0 {
            math::lemma_scaled_div_fits(taxed as int, rout as int, rin as int + taxed as int);
        }
    }
    let quot = match math::div(prod, denom) {
        Ok(v) => v,
        Err(e) => { return Err(e); },
    };
    proof {
        math::lemma_floor_after_div(taxed as int * rout as int, rin as int + taxed as int);
        vstd::arithmetic::div_mod::lemma_div_pos_is_pos(
            taxed as int * rout as int * math::fone(), rin as int + taxed as int,
        );
    }
    let out = match math::floor_to_u64(quot) {
        Ok(v) => v,
        Err(e) => { return Err(e); },
    };
    Ok(out)
}

/// Swaps one asset for the other against a pool's reserves. The request is
/// capped at the trader's balance of the input asset, the fee is skimmed
/// before pricing, the output is checked against the caller's minimum, the
/// constant-product invariant is captured before and verified after the
/// transition, and the reserves are committed all-or-nothing. Returns the
/// output quantity.
pub fn swap(
    pool: &mut Pool,
    amm: &Amm,
    swap_a: bool,
    input_amount: u64,
    min_result_amount: u64,
    trader_balance: u64,
) -> (r: Result<u64, CustomError>)
    requires
        amm.wf(),
        old(pool).amm.bytes@ == amm.id.bytes@,
    ensures
        r is Ok <==> ({
            let inp = clamped_input(input_amount as int, trader_balance as int);
            let t = taxed_input(inp, amm.fee as int);
            let rin = if swap_a { old(pool).reserve_a as int } else { old(pool).reserve_b as int };
            let rout = if swap_a { old(pool).reserve_b as int } else { old(pool).reserve_a as int };
            &&& swap_fits(rin, rout, t)
            &&& swap_out(rin, rout, t) >= min_result_amount
            &&& rin + inp <= u64::MAX
        }),
        r matches Ok(out) ==> ({
            let inp = clamped_input(input_amount as int, trader_balance as int);
            let t = taxed_input(inp, amm.fee as int);
            let rin = if swap_a { old(pool).reserve_a as int } else { old(pool).reserve_b as int };
            let rout = if swap_a { old(pool).reserve_b as int } else { old(pool).reserve_a as int };
            &&& out as int == swap_out(rin, rout, t)
            &&& out >= min_result_amount
            &&& (if swap_a {
                final(pool).reserve_a as int == rin + inp && final(pool).reserve_b as int == rout
                    - out as int
            } else {
                final(pool).reserve_b as int == rin + inp && final(pool).reserve_a as int == rout
                    - out as int
            })
            &&& final(pool).liquidity_supply == old(pool).liquidity_supply
            &&& final(pool).same_identity(*old(pool))
            &&& final(pool).reserve_a as int * final(pool).reserve_b as int >= old(
                pool,
            ).reserve_a as int * old(pool).reserve_b as int
        }),
        r is Err ==> *final(pool) == *old(pool),
        r matches Err(e) ==> e == ({
            let inp = clamped_input(input_amount as int, trader_balance as int);
            let t = taxed_input(inp, amm.fee as int);
            let rin = if swap_a { old(pool).reserve_a as int } else { old(pool).reserve_b as int };
            let rout = if swap_a { old(pool).reserve_b as int } else { old(pool).reserve_a as int };
            if swap_fits(rin, rout, t) && swap_out(rin, rout, t) < min_result_amount {
                CustomError::SwapResultUnderflow
            } else {
                CustomError::ArithmeticOverflow
            }
        }),
{
    let ra = pool.reserve_a;
    let rb = pool.reserve_b;

    // never ask custody to move more than the trader owns
    let inp = if input_amount > trader_balance {
        trader_balance
    } else {
        input_amount
    };

    // skim the fee before pricing, exactly, in widened arithmetic
    let inp_w = inp as u128;
    let fee_w = amm.fee as u128;
    proof {
        assert(inp as int * amm.fee as int <= u128::MAX as int) by (nonlinear_arith)
            requires
                inp as int <= u64::MAX as int,
                (amm.fee as int) < 10000,
        ;
        vstd::arithmetic::mul::lemma_mul_nonnegative(inp as int, amm.fee as int);
        assert(inp as int * amm.fee as int <= inp as int * 10000) by (nonlinear_arith)
            requires
                amm.fee as int <= 10000,
                inp as int >= 0,
        ;
        vstd::arithmetic::div_mod::lemma_div_is_ordered(
            inp as int * amm.fee as int, inp as int * 10000, 10000,
        );
        vstd::arithmetic::div_mod::lemma_div_by_multiple(inp as int, 10000);
        vstd::arithmetic::div_mod::lemma_div_pos_is_pos(inp as int * amm.fee as int, 10000);
    }
    let taxed = (inp_w - inp_w * fee_w / 10000) as u64;

    let (rin, rout) = if swap_a {
        (ra, rb)
    } else {
        (rb, ra)
    };
    let out = match compute_swap_output(rin, rout, taxed) {
        Ok(v) => v,
        Err(e) => { return Err(e); },
    };
    if out < min_result_amount {
        return Err(CustomError::SwapResultUnderflow);
    }
    // capture the invariant before any funds move
    let invariant_pre = checker::compute_invariant(ra, rb);
    if inp > u64::MAX - rin {
        return Err(CustomError::ArithmeticOverflow);
    }
    proof {
        lemma_swap_invariant(rin as int, rout as int, inp as int, taxed as int, out as int);
    }
    let new_rin = rin + inp;
    let new_rout = rout - out;
    let (new_ra, new_rb) = if swap_a {
        (new_rin, new_rout)
    } else {
        (new_rout, new_rin)
    };
    // verify the invariant on the post-transition reserves
    let invariant_post = checker::compute_invariant(new_ra, new_rb);
    proof {
        assert((rin as int + inp as int) * (rout as int - out as int) == new_ra as int
            * new_rb as int || (rin as int + inp as int) * (rout as int - out as int) == new_rb
            as int * new_ra as int);
        assert(new_ra as int * new_rb as int == new_rb as int * new_ra as int) by (nonlinear_arith);
        assert(ra as int * rb as int == rb as int * ra as int) by (nonlinear_arith);
    }
    match checker::check_non_decreasing(invariant_pre, invariant_post) {
        Ok(u) => u,
        Err(e) => { return Err(e); },
    };
    pool.reserve_a = new_ra;
    pool.reserve_b = new_rb;
    Ok(out)
}

} // verus!
