//! Liquidity transitions: pool creation, proportional deposit and
//! proportional withdrawal.
//!
//! Every operation reads the ledger once, computes all deltas in fixed
//! point with explicit rounding, validates them, and only then commits —
//! on any failure the ledger is left untouched.

use vstd::prelude::*;
use crate::errors::CustomError;
use crate::math;
use crate::state::MIN_LIQUIDITY;
use crate::state::Pool;
use crate::state::Pubkey;
use crate::state::pubkey_eq;

verus! {

/// A deposit into an empty pool sets the opening price freely.
pub open spec fn first_deposit(ra: int, rb: int) -> bool {
    ra == 0 && rb == 0
}

/// The fixed-point numerator of the reserve ratio `ra / rb`, rounded down
/// at `2^-64` precision.
pub open spec fn ratio_bits(ra: int, rb: int) -> int {
    (ra * math::fone()) / rb
}

/// The requested B amount scaled up to the A side of the reserve ratio:
/// `b * (ra / rb)`, both steps rounded down.
pub open spec fn scaled_a(b: int, ra: int, rb: int) -> int {
    (b * ratio_bits(ra, rb)) / math::fone()
}

/// The requested A amount scaled down to the B side of the reserve ratio:
/// `a / (ra / rb)`, both steps rounded down.
pub open spec fn scaled_b(a: int, ra: int, rb: int) -> int {
    math::div_bits(a * math::fone(), ratio_bits(ra, rb)) / math::fone()
}

/// The A delta a deposit of `(a, b)` commits against reserves `(ra, rb)`:
/// on a first deposit the request as is; afterwards the side with the larger
/// reserve is recomputed from the other so the pair matches the reserve
/// ratio.
pub open spec fn dep_da(ra: int, rb: int, a: int, b: int) -> int {
    if first_deposit(ra, rb) {
        a
    } else if ra > rb {
        scaled_a(b, ra, rb)
    } else {
        a
    }
}

/// The B delta a deposit of `(a, b)` commits against reserves `(ra, rb)`.
pub open spec fn dep_db(ra: int, rb: int, a: int, b: int) -> int {
    if first_deposit(ra, rb) {
        b
    } else if ra > rb {
        b
    } else {
        scaled_b(a, ra, rb)
    }
}

/// Every fixed-point step of the ratio scaling stays in range: the reserves
/// and the resized request fit the integer bits, the ratio is computable and
/// positive where it divides, and no intermediate product overflows.
pub open spec fn dep_resize_ok(ra: int, rb: int, a: int, b: int) -> bool {
    if first_deposit(ra, rb) {
        true
    } else {
        &&& ra < math::INT_OVERFLOW
        &&& rb < math::INT_OVERFLOW
        &&& if ra > rb {
            &&& rb > 0
            &&& b < math::INT_OVERFLOW
            &&& b * ratio_bits(ra, rb) <= i128::MAX
        } else {
            &&& a < math::INT_OVERFLOW
            &&& ratio_bits(ra, rb) > 0
            &&& math::div_bits(a * math::fone(), ratio_bits(ra, rb)) <= i128::MAX
        }
    }
}

/// The committed deltas fit the integer bits of the share computation.
pub open spec fn dep_sum_ok(da: int, db: int) -> bool {
    &&& da < math::INT_OVERFLOW
    &&& db < math::INT_OVERFLOW
    &&& da + db < math::INT_OVERFLOW
}

/// A deposit of `(a, b)` against a ledger `(ra, rb, supply)` goes through:
/// the resizing and the share computation stay in range, a first deposit
/// mints at least the withheld minimum, and the committed ledger values
/// still fit 64 bits.
pub open spec fn dep_ok(ra: int, rb: int, supply: int, a: int, b: int) -> bool {
    let da = dep_da(ra, rb, a, b);
    let db = dep_db(ra, rb, a, b);
    let s = math::isqrt(da + db);
    &&& dep_resize_ok(ra, rb, a, b)
    &&& dep_sum_ok(da, db)
    &&& !(first_deposit(ra, rb) && da + db < MIN_LIQUIDITY * MIN_LIQUIDITY)
    &&& ra + da <= u64::MAX
    &&& rb + db <= u64::MAX
    &&& supply + s <= u64::MAX
}

/// The A-side quantity a withdrawal of `s` shares returns, rounded up in
/// the withdrawer's favour: `ceil(s * ra / supply)`.
pub open spec fn wd_amount_a(s: int, ra: int, supply: int) -> int {
    (s * ra + (supply - 1)) / supply
}

/// The B-side quantity a withdrawal of `s` shares returns, rounded down in
/// the pool's favour: `floor(s * rb / supply)`.
pub open spec fn wd_amount_b(s: int, rb: int, supply: int) -> int {
    (s * rb) / supply
}

/// A withdrawal of `s` shares from a ledger `(ra, rb, supply)` goes through:
/// the burn leaves the withheld minimum in place and every fixed-point step
/// stays in range.
pub open spec fn wd_ok(s: int, ra: int, rb: int, supply: int) -> bool {
    &&& s + MIN_LIQUIDITY <= supply
    &&& s < math::INT_OVERFLOW
    &&& ra < math::INT_OVERFLOW
    &&& rb < math::INT_OVERFLOW
    &&& supply < math::INT_OVERFLOW
    &&& s * ra < math::INT_OVERFLOW
    &&& s * rb < math::INT_OVERFLOW
}

/// Binds a new pool ledger to an AMM identity and two distinct assets,
/// with reserves and share supply starting at zero. Fails with
/// `InvalidTokenMint` exactly when the two asset identifiers coincide.
pub fn initialize_pool(amm_id: Pubkey, mint_a: Pubkey, mint_b: Pubkey) -> (r: Result<
    Pool,
    CustomError,
>)
    ensures
        r is Ok <==> mint_a.bytes@ != mint_b.bytes@,
        r matches Ok(p) ==> {
            &&& p.amm.bytes@ == amm_id.bytes@
            &&& p.mint_a.bytes@ == mint_a.bytes@
            &&& p.mint_b.bytes@ == mint_b.bytes@
            &&& p.reserve_a == 0
            &&& p.reserve_b == 0
            &&& p.liquidity_supply == 0
            &&& p.wf()
        },
        r matches Err(e) ==> e == CustomError::InvalidTokenMint,
{
    if pubkey_eq(&mint_a, &mint_b) {
        return Err(CustomError::InvalidTokenMint);
    }
    Ok(Pool { amm: amm_id, mint_a, mint_b, reserve_a: 0, reserve_b: 0, liquidity_supply: 0 })
}

/// Resizes a requested deposit pair so it matches the current reserve ratio:
/// a first deposit passes through unchanged; otherwise the side with the
/// larger reserve is recomputed from the other side and the ratio `ra / rb`,
/// and the smaller side is kept as requested.
pub fn compute_deposit_amounts(ra: u64, rb: u64, a: u64, b: u64) -> (r: Result<
    (u64, u64),
    CustomError,
>)
    ensures
        r is Ok <==> dep_resize_ok(ra as int, rb as int, a as int, b as int),
        r matches Ok(p) ==> {
            &&& p.0 as int == dep_da(ra as int, rb as int, a as int, b as int)
            &&& p.1 as int == dep_db(ra as int, rb as int, a as int, b as int)
        },
        r matches Err(e) ==> e == CustomError::ArithmeticOverflow,
{
    if ra == 0 && rb == 0 {
        return Ok((a, b));
    }
    let ra_f = match math::from_u64(ra) {
        Ok(v) => v,
        Err(e) => { return Err(e); },
    };
    let rb_f = match math::from_u64(rb) {
        Ok(v) => v,
        Err(e) => { return Err(e); },
    };
    proof {
        vstd::arithmetic::mul::lemma_mul_nonnegative(ra as int, math::fone());
        vstd::arithmetic::mul::lemma_mul_nonnegative(rb as int, math::fone());
    }
    let ratio = match math::div(ra_f, rb_f) {
        Ok(v) => v,
        Err(e) => {
            proof {
                if rb > 0 {
                    math::lemma_div_cancel_common(ra as int * math::fone(), rb as int, math::fone());
                    vstd::arithmetic::div_mod::lemma_div_nonincreasing(
                        ra as int * math::fone(), rb as int,
                    );
                }
            }
            return Err(e);
        },
    };
    proof {
        math::lemma_div_cancel_common(ra as int * math::fone(), rb as int, math::fone());
        vstd::arithmetic::div_mod::lemma_div_nonincreasing(ra as int * math::fone(), rb as int);
        assert(ratio.bits as int == ratio_bits(ra as int, rb as int));
        vstd::arithmetic::div_mod::lemma_div_pos_is_pos(ra as int * math::fone(), rb as int);
    }
    if ra > rb {
        let b_f = match math::from_u64(b) {
            Ok(v) => v,
            Err(e) => { return Err(e); },
        };
        proof {
            assert(b as int * math::fone() * ratio.bits as int
                == (b as int * ratio.bits as int) * math::fone()) by (nonlinear_arith);
            vstd::arithmetic::mul::lemma_mul_nonnegative(b as int, ratio.bits as int);
            vstd::arithmetic::div_mod::lemma_div_by_multiple(
                b as int * ratio.bits as int, math::fone(),
            );
        }
        let prod = match math::mul(b_f, ratio) {
            Ok(v) => v,
            Err(e) => { return Err(e); },
        };
        let da = match math::floor_to_u64(prod) {
            Ok(v) => v,
            Err(e) => { return Err(e); },
        };
        Ok((da, b))
    } else {
        let a_f = match math::from_u64(a) {
            Ok(v) => v,
            Err(e) => { return Err(e); },
        };
        proof {
            vstd::arithmetic::mul::lemma_mul_nonnegative(a as int, math::fone());
        }
        let q = match math::div(a_f, ratio) {
            Ok(v) => v,
            Err(e) => { return Err(e); },
        };
        proof {
            vstd::arithmetic::div_mod::lemma_div_pos_is_pos(
                a as int * math::fone() * math::fone(), ratio.bits as int,
            );
        }
        let db = match math::floor_to_u64(q) {
            Ok(v) => v,
            Err(e) => { return Err(e); },
        };
        Ok((a, db))
    }
}

/// Computes the liquidity shares a deposit of `(da, db)` mints: the integer
/// square root of `da + db`, the fixed-point root truncated to a whole
/// share count.
pub fn compute_liquidity_shares(da: u64, db: u64) -> (r: Result<u64, CustomError>)
    ensures
        r is Ok <==> dep_sum_ok(da as int, db as int),
        r matches Ok(s) ==> s as int == math::isqrt(da as int + db as int),
        r matches Err(e) ==> e == CustomError::ArithmeticOverflow,
{
    let da_f = match math::from_u64(da) {
        Ok(v) => v,
        Err(e) => { return Err(e); },
    };
    let db_f = match math::from_u64(db) {
        Ok(v) => v,
        Err(e) => { return Err(e); },
    };
    let sum = match math::add(da_f, db_f) {
        Ok(v) => v,
        Err(e) => { return Err(e); },
    };
    assert(sum.bits as int == (da as int + db as int) * math::fone()) by (nonlinear_arith)
        requires
            sum.bits as int == da as int * math::fone() + db as int * math::fone(),
    ;
    let root = match math::sqrt(sum) {
        Ok(v) => v,
        Err(e) => { return Err(e); },
    };
    let s = match math::floor_to_u64(root) {
        Ok(v) => v,
        Err(e) => { return Err(e); },
    };
    proof {
        let n = da as int + db as int;
        let t = root.bits as int / 0x1_0000_0000;
        math::lemma_isqrt_shift(n, t);
        // the two 32-bit shifts compose into the full fractional shift
        vstd::arithmetic::div_mod::lemma_div_denominator(
            root.bits as int, 0x1_0000_0000, 0x1_0000_0000,
        );
        assert(s as int == t / 0x1_0000_0000);
        math::lemma_isqrt_unique(n, s as int);
    }
    Ok(s)
}

/// Deposits liquidity into a pool. The requested pair is resized to the
/// reserve ratio (a first deposit passes unchanged), shares are minted as
/// the integer square root of the committed sum, a first deposit withholds
/// `MIN_LIQUIDITY` of them permanently, and reserves and supply are
/// committed all-or-nothing. Returns the shares minted to the depositor.
pub fn deposit_liquidity(pool: &mut Pool, amount_a: u64, amount_b: u64) -> (r: Result<
    u64,
    CustomError,
>)
    ensures
        r is Ok <==> dep_ok(
            old(pool).reserve_a as int,
            old(pool).reserve_b as int,
            old(pool).liquidity_supply as int,
            amount_a as int,
            amount_b as int,
        ),
        r matches Ok(minted) ==> {
            let ra = old(pool).reserve_a as int;
            let rb = old(pool).reserve_b as int;
            let da = dep_da(ra, rb, amount_a as int, amount_b as int);
            let db = dep_db(ra, rb, amount_a as int, amount_b as int);
            let s = math::isqrt(da + db);
            &&& final(pool).reserve_a as int == ra + da
            &&& final(pool).reserve_b as int == rb + db
            &&& final(pool).liquidity_supply as int == old(pool).liquidity_supply as int + s
            &&& minted as int == s - (if first_deposit(ra, rb) { MIN_LIQUIDITY as int } else { 0 })
            &&& (first_deposit(ra, rb) ==> s >= MIN_LIQUIDITY)
            &&& final(pool).same_identity(*old(pool))
        },
        r is Err ==> *final(pool) == *old(pool),
        r matches Err(e) ==> e == {
            let ra = old(pool).reserve_a as int;
            let rb = old(pool).reserve_b as int;
            let da = dep_da(ra, rb, amount_a as int, amount_b as int);
            let db = dep_db(ra, rb, amount_a as int, amount_b as int);
            if dep_resize_ok(ra, rb, amount_a as int, amount_b as int) && dep_sum_ok(da, db)
                && first_deposit(ra, rb) && da + db < MIN_LIQUIDITY * MIN_LIQUIDITY {
                CustomError::InsufficientDepositAmount
            } else {
                CustomError::ArithmeticOverflow
            }
        },
        (r is Ok && old(pool).wf() && (old(pool).liquidity_supply == 0
            ==> first_deposit(old(pool).reserve_a as int, old(pool).reserve_b as int)))
            ==> final(pool).wf(),
{
    let (ra, rb, supply) = pool.snapshot();
    let first = ra == 0 && rb == 0;

    let (da, db) = match compute_deposit_amounts(ra, rb, amount_a, amount_b) {
        Ok(p) => p,
        Err(e) => { return Err(e); },
    };
    let shares = match compute_liquidity_shares(da, db) {
        Ok(s) => s,
        Err(e) => { return Err(e); },
    };
    proof {
        math::lemma_isqrt(da as int + db as int);
    }
    let minted: u64;
    if first {
        if shares < MIN_LIQUIDITY {
            proof {
                let n = da as int + db as int;
                let s = shares as int;
                let m = MIN_LIQUIDITY as int;
                assert(n < m * m) by (nonlinear_arith)
                    requires
                        math::is_isqrt(n, s),
                        0 <= s < m,
                ;
            }
            return Err(CustomError::InsufficientDepositAmount);
        }
        proof {
            let n = da as int + db as int;
            let s = shares as int;
            let m = MIN_LIQUIDITY as int;
            assert(n >= m * m) by (nonlinear_arith)
                requires
                    math::is_isqrt(n, s),
                    s >= m >= 0,
            ;
        }
        minted = shares - MIN_LIQUIDITY;
    } else {
        minted = shares;
    }
    if da > u64::MAX - ra {
        return Err(CustomError::ArithmeticOverflow);
    }
    if db > u64::MAX - rb {
        return Err(CustomError::ArithmeticOverflow);
    }
    if shares > u64::MAX - supply {
        return Err(CustomError::ArithmeticOverflow);
    }
    pool.reserve_a = ra + da;
    pool.reserve_b = rb + db;
    pool.liquidity_supply = supply + shares;
    Ok(minted)
}

/// Withdraws liquidity from a pool by burning `shares` of the withdrawer's
/// liquidity tokens. The A side pays out `ceil(shares * reserve_a / supply)`
/// and the B side `floor(shares * reserve_b / supply)`, both against the
/// full share supply so the withheld minimum's claim stays in the pool; the
/// burn may never touch the withheld minimum itself. Returns the pair paid
/// out.
pub fn withdraw_liquidity(pool: &mut Pool, shares: u64) -> (r: Result<(u64, u64), CustomError>)
    ensures
        r is Ok <==> wd_ok(
            shares as int,
            old(pool).reserve_a as int,
            old(pool).reserve_b as int,
            old(pool).liquidity_supply as int,
        ),
        r matches Ok(p) ==> {
            let s = shares as int;
            let ra = old(pool).reserve_a as int;
            let rb = old(pool).reserve_b as int;
            let supply = old(pool).liquidity_supply as int;
            &&& p.0 as int == wd_amount_a(s, ra, supply)
            &&& p.1 as int == wd_amount_b(s, rb, supply)
            &&& final(pool).reserve_a as int == ra - wd_amount_a(s, ra, supply)
            &&& final(pool).reserve_b as int == rb - wd_amount_b(s, rb, supply)
            &&& final(pool).liquidity_supply as int == supply - s
            &&& final(pool).liquidity_supply >= MIN_LIQUIDITY
            &&& final(pool).same_identity(*old(pool))
        },
        r is Err ==> *final(pool) == *old(pool),
        r matches Err(e) ==> e == {
            if shares as int + MIN_LIQUIDITY as int > old(pool).liquidity_supply as int {
                CustomError::TransferFailure
            } else {
                CustomError::ArithmeticOverflow
            }
        },
{
    let (ra, rb, supply) = pool.snapshot();

    if supply < MIN_LIQUIDITY || shares > supply - MIN_LIQUIDITY {
        return Err(CustomError::TransferFailure);
    }
    let s_f = match math::from_u64(shares) {
        Ok(v) => v,
        Err(e) => { return Err(e); },
    };
    let ra_f = match math::from_u64(ra) {
        Ok(v) => v,
        Err(e) => { return Err(e); },
    };
    let rb_f = match math::from_u64(rb) {
        Ok(v) => v,
        Err(e) => { return Err(e); },
    };
    let supply_f = match math::from_u64(supply) {
        Ok(v) => v,
        Err(e) => { return Err(e); },
    };
    proof {
        vstd::arithmetic::mul::lemma_mul_nonnegative(shares as int, math::fone());
        math::lemma_mul_bits_ints(shares as int, ra as int);
        math::lemma_mul_bits_ints(shares as int, rb as int);
        vstd::arithmetic::mul::lemma_mul_nonnegative(shares as int, ra as int);
        vstd::arithmetic::mul::lemma_mul_nonnegative(shares as int, rb as int);
    }
    // A side: scale, divide by the full supply, round up to the withdrawer.
    let prod_a = match math::mul(s_f, ra_f) {
        Ok(v) => v,
        Err(e) => { return Err(e); },
    };
    let quot_a = match math::div(prod_a, supply_f) {
        Ok(v) => v,
        Err(e) => {
            proof {
                math::lemma_scaled_div_fits(shares as int, ra as int, supply as int);
            }
            return Err(e);
        },
    };
    proof {
        math::lemma_scaled_div_fits(shares as int, ra as int, supply as int);
        assert(quot_a.bits as int == (shares as int * ra as int * math::fone()) / supply as int);
        math::lemma_ceil_after_div(shares as int * ra as int, supply as int);
        vstd::arithmetic::div_mod::lemma_div_pos_is_pos(
            shares as int * ra as int * math::fone(), supply as int,
        );
        lemma_wd_ceil_fits(shares as int, ra as int, supply as int);
    }
    let amount_a = match math::ceil_to_u64(quot_a) {
        Ok(v) => v,
        Err(e) => { return Err(e); },
    };
    // B side: scale, divide by the full supply, round down to the pool.
    let prod_b = match math::mul(s_f, rb_f) {
        Ok(v) => v,
        Err(e) => { return Err(e); },
    };
    let quot_b = match math::div(prod_b, supply_f) {
        Ok(v) => v,
        Err(e) => {
            proof {
                math::lemma_scaled_div_fits(shares as int, rb as int, supply as int);
            }
            return Err(e);
        },
    };
    proof {
        math::lemma_scaled_div_fits(shares as int, rb as int, supply as int);
        math::lemma_floor_after_div(shares as int * rb as int, supply as int);
        vstd::arithmetic::div_mod::lemma_div_pos_is_pos(
            shares as int * rb as int * math::fone(), supply as int,
        );
    }
    let amount_b = match math::floor_to_u64(quot_b) {
        Ok(v) => v,
        Err(e) => { return Err(e); },
    };
    proof {
        lemma_wd_within_reserve(shares as int, ra as int, rb as int, supply as int);
    }
    pool.reserve_a = ra - amount_a;
    pool.reserve_b = rb - amount_b;
    pool.liquidity_supply = supply - shares;
    Ok((amount_a, amount_b))
}

/// Rounding the payout quotient up to the next integer stays within the
/// representation.
proof fn lemma_wd_ceil_fits(s: int, reserve: int, supply: int)
    requires
        s >= 0,
        reserve >= 0,
        supply > 0,
        s * reserve < math::INT_OVERFLOW,
    ensures
        math::ceil_bits((s * reserve * math::fone()) / supply) * math::fone() <= i128::MAX,
{
    let d = (s * reserve * math::fone()) / supply;
    math::lemma_scaled_div_fits(s, reserve, supply);
    assert(s * reserve * math::fone() <= (math::INT_OVERFLOW - 1) * math::fone())
        by (nonlinear_arith)
        requires
            0 <= s * reserve < math::INT_OVERFLOW,
    ;
    vstd::arithmetic::div_mod::lemma_div_pos_is_pos(s * reserve * math::fone(), supply);
    assert(d <= (math::INT_OVERFLOW - 1) * math::fone());
    // the ceiling exceeds its argument by less than one whole unit
    vstd::arithmetic::div_mod::lemma_fundamental_div_mod(d + (math::fone() - 1), math::fone());
    vstd::arithmetic::div_mod::lemma_mod_bound(d + (math::fone() - 1), math::fone());
    assert(math::ceil_bits(d) * math::fone() <= d + (math::fone() - 1)) by (nonlinear_arith)
        requires
            d + (math::fone() - 1) == math::fone() * math::ceil_bits(d) + ((d + (math::fone() - 1))
                % math::fone()),
            (d + (math::fone() - 1)) % math::fone() >= 0,
    ;
}

/// A withdrawal never pays out more than the reserve holds: with the burn
/// capped below the supply, the rounded payouts stay within the reserves.
proof fn lemma_wd_within_reserve(s: int, ra: int, rb: int, supply: int)
    requires
        s >= 0,
        ra >= 0,
        rb >= 0,
        supply > 0,
        s <= supply,
    ensures
        wd_amount_a(s, ra, supply) <= ra,
        wd_amount_b(s, rb, supply) <= rb,
        wd_amount_a(s, ra, supply) >= 0,
        wd_amount_b(s, rb, supply) >= 0,
{
    assert(s * ra <= supply * ra) by (nonlinear_arith)
        requires
            0 <= s <= supply,
            ra >= 0,
    ;
    assert(s * rb <= supply * rb) by (nonlinear_arith)
        requires
            0 <= s <= supply,
            rb >= 0,
    ;
    vstd::arithmetic::mul::lemma_mul_nonnegative(s, ra);
    vstd::arithmetic::mul::lemma_mul_nonnegative(s, rb);
    vstd::arithmetic::div_mod::lemma_div_is_ordered(s * ra + (supply - 1), supply * ra + (supply
        - 1), supply);
    assert((supply * ra + (supply - 1)) / supply == ra) by {
        vstd::arithmetic::div_mod::lemma_div_multiples_vanish_fancy(ra, supply - 1, supply);
    }
    vstd::arithmetic::div_mod::lemma_div_is_ordered(s * rb, supply * rb, supply);
    assert((supply * rb) / supply == rb) by {
        vstd::arithmetic::div_mod::lemma_div_multiples_vanish(rb, supply);
    }
    vstd::arithmetic::div_mod::lemma_div_pos_is_pos(s * ra + (supply - 1), supply);
    vstd::arithmetic::div_mod::lemma_div_pos_is_pos(s * rb, supply);
}

/// Law of the round trip, for a pool whose reserves are equal and divide
/// evenly by the share supply: withdrawing every non-withheld share and
/// redepositing the returned pair reproduces both reserves exactly. (With
/// uneven division the two rounding directions can move the pool's ratio,
/// and the redeposit's ratio scaling then amplifies the offset beyond one
/// unit.)
pub proof fn lemma_withdraw_deposit_round_trip(r: int, supply: int)
    requires
        r >= 0,
        supply >= MIN_LIQUIDITY,
        ((supply - MIN_LIQUIDITY) * r) % supply == 0,
        MIN_LIQUIDITY * r >= supply,
    ensures
        wd_amount_a(supply - MIN_LIQUIDITY, r, supply) == wd_amount_b(
            supply - MIN_LIQUIDITY, r, supply,
        ),
        ({
            let w = wd_amount_b(supply - MIN_LIQUIDITY, r, supply);
            &&& (r - w) + dep_da(r - w, r - w, w, w) == r
            &&& (r - w) + dep_db(r - w, r - w, w, w) == r
        }),
{
    let m = MIN_LIQUIDITY as int;
    let s = supply - m;
    vstd::arithmetic::mul::lemma_mul_nonnegative(s, r);
    let q = (s * r) / supply;
    vstd::arithmetic::div_mod::lemma_fundamental_div_mod(s * r, supply);
    assert(s * r == supply * q) by {
        vstd::arithmetic::div_mod::lemma_fundamental_div_mod(s * r, supply);
    }
    vstd::arithmetic::div_mod::lemma_div_pos_is_pos(s * r, supply);
    // with an exact division the upward rounding of the A side changes nothing
    assert(wd_amount_a(s, r, supply) == q) by {
        assert(s * r + (supply - 1) == supply * q + (supply - 1));
        vstd::arithmetic::div_mod::lemma_div_multiples_vanish_fancy(q, supply - 1, supply);
    }
    let w = q;
    // the remaining reserve is the withheld shares' exact claim, and positive
    assert((r - q) * supply == m * r) by (nonlinear_arith)
        requires
            supply * q == s * r,
            m == supply - s,
    ;
    assert(r - q > 0) by (nonlinear_arith)
        requires
            (r - q) * supply == m * r,
            m * r >= supply,
            supply > 0,
    ;
    // redepositing the withdrawn pair into equal reserves scales by one
    assert(ratio_bits(r - w, r - w) == math::fone()) by {
        vstd::arithmetic::div_mod::lemma_div_multiples_vanish(math::fone(), r - w);
        assert((r - w) * math::fone() == math::fone() * (r - w)) by (nonlinear_arith);
    }
    assert(dep_db(r - w, r - w, w, w) == w) by {
        vstd::arithmetic::mul::lemma_mul_nonnegative(w, math::fone());
        vstd::arithmetic::div_mod::lemma_div_by_multiple(w * math::fone(), math::fone());
        vstd::arithmetic::div_mod::lemma_div_by_multiple(w, math::fone());
    }
}

} // verus!
