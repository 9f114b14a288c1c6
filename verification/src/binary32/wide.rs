//! Rounding the quotient of two natural numbers of any size to the nearest
//! binary32 number.
use crate::binary32::scaled;
use crate::binary32::natural::{
    lemma_low_value_all, lemma_low_value_bound, lemma_not_negative, Natural,
};
use crate::binary32::rounding::{
    lemma_nearest_between, lemma_round_ratio, nearest_pattern, round_half_even,
    shifted_denominator, shifted_numerator,
};
use vstd::arithmetic::div_mod::*;
use vstd::arithmetic::mul::*;
use vstd::arithmetic::power2::*;
use vstd::prelude::*;

verus! {

/// Multiplies a number by a power of two.
pub fn doubled(value: &Natural, times: u128) -> (r: Natural)
    ensures
        r@ == value@ * pow2(times as nat),
{
    let mut r = value.times_plus(1, 0);
    let mut done: u128 = 0;
    proof {
        lemma2_to64();
        assert(value@ * 1 == value@);
        assert(value@ * pow2(0) == value@);
    }
    while done < times
        invariant
            done <= times,
            r@ == value@ * pow2(done as nat),
        decreases times - done,
    {
        proof {
            lemma_pow2_unfold((done + 1) as nat);
            assert(value@ * pow2((done + 1) as nat) == (value@ * pow2(done as nat)) * 2)
                by (nonlinear_arith)
                requires
                    pow2((done + 1) as nat) == 2 * pow2(done as nat),
            ;
        }
        r = r.times_plus(2, 0);
        done += 1;
    }
    r
}

/// Divides `top` by `bottom`, where the quotient has at most twenty-four
/// binary digits, and rounds the quotient to the nearest integer, to the even
/// one of two equally near.
fn rounded_quotient(top: &Natural, bottom: &Natural) -> (r: u32)
    requires
        0 < bottom@,
        0 <= top@ < bottom@ * 0x100_0000,
    ensures
        r == round_half_even(top@, bottom@),
        r <= 0x100_0000,
{
    // top * 2^step == whole * scaled + rest, with rest < scaled == bottom * 2^24
    let scaled = bottom.times_plus(0x100_0000, 0);
    let mut rest = top.times_plus(1, 0);
    let mut whole: u32 = 0;
    let mut step: u32 = 0;
    proof {
        lemma2_to64();
        assert(top@ * 1 == top@);
        assert(top@ * pow2(0) == top@);
        assert(0 * scaled@ == 0);
    }
    while step < 24
        invariant
            step <= 24,
            0 < bottom@,
            scaled@ == bottom@ * 0x100_0000,
            top@ * pow2(step as nat) == whole * scaled@ + rest@,
            0 <= rest@ < scaled@,
            whole < pow2(step as nat),
        decreases 24 - step,
    {
        proof {
            lemma2_to64();
            lemma_pow2_unfold((step + 1) as nat);
            lemma_pow2_strictly_increases(step as nat, 24);
            assert(top@ * pow2((step + 1) as nat) == 2 * (top@ * pow2(step as nat)))
                by (nonlinear_arith)
                requires
                    pow2((step + 1) as nat) == 2 * pow2(step as nat),
            ;
            assert(2 * (whole * scaled@ + rest@) == (2 * whole) * scaled@ + 2 * rest@)
                by (nonlinear_arith);
            assert((2 * whole + 1) * scaled@ == (2 * whole) * scaled@ + scaled@)
                by (nonlinear_arith);
        }
        let twice = rest.times_plus(2, 0);
        whole = 2 * whole;
        if twice.is_at_least(&scaled) {
            rest = twice.minus(&scaled);
            whole = whole + 1;
        } else {
            rest = twice;
        }
        step += 1;
    }
    let twice = rest.times_plus(2, 0);
    let above_half = twice.is_at_least(&scaled);
    let below_half = scaled.is_at_least(&twice);
    proof {
        // top == whole * bottom + rest / 2^24
        lemma2_to64();
        let part = top@ - whole * bottom@;
        assert(rest@ == part * 0x100_0000) by (nonlinear_arith)
            requires
                top@ * 0x100_0000 == whole * scaled@ + rest@,
                scaled@ == bottom@ * 0x100_0000,
                part == top@ - whole * bottom@,
        ;
        assert(0 <= part < bottom@) by (nonlinear_arith)
            requires
                rest@ == part * 0x100_0000,
                0 <= rest@ < scaled@,
                scaled@ == bottom@ * 0x100_0000,
        ;
        lemma_fundamental_div_mod_converse(top@, bottom@, whole as int, part);
        assert((2 * part >= bottom@) == (2 * rest@ >= scaled@) && (2 * part <= bottom@) == (2
            * rest@ <= scaled@)) by (nonlinear_arith)
            requires
                rest@ == part * 0x100_0000,
                scaled@ == bottom@ * 0x100_0000,
        ;
    }
    if !above_half || (below_half && whole % 2 == 0) {
        whole
    } else {
        whole + 1
    }
}

/// Rounds the quotient of two natural numbers to the nearest binary32 number,
/// and returns its bit pattern, without a sign.
pub fn round_quotient(num: &Natural, den: &Natural) -> (pattern: u32)
    requires
        0 < den@,
    ensures
        pattern == nearest_pattern(num@ * pow2(149), den@),
        pattern <= 0x7F80_0000,
{
    if num.is_zero() {
        proof {
            assert(0 * pow2(149) == 0);
            assert(scaled(0) == 0);
            assert(scaled(0) * den@ == 0) by (nonlinear_arith)
                requires
                    scaled(0) == 0,
            ;
            lemma_nearest_between(0, den@, 0, 0);
        }
        return 0;
    }
    proof {
        lemma_not_negative(num.limbs@);
    }
    // the shift at which num / den has twenty-four binary digits before the point:
    // above == num * 2^up, lower == den * 2^down, below == lower * 2^23,
    // below <= above < 2 * below
    let mut above = num.times_plus(1, 0);
    let mut lower = den.times_plus(1, 0);
    let mut below = den.times_plus(0x80_0000, 0);
    let mut up: u128 = 0;
    let mut down: u128 = 0;
    let limbs_below = below.limbs.len();
    let ghost limit = limbs_below as nat;
    proof {
        lemma2_to64();
        assert(num@ * 1 == num@);
        assert(den@ * 1 == den@);
        assert(num@ * pow2(0) == num@);
        lemma_low_value_all(below.limbs@, limit);
        lemma_low_value_bound(below.limbs@, limit);
    }
    while !above.is_at_least(&below)
        invariant
            0 < num@,
            0 < den@,
            below@ == den@ * 0x80_0000,
            below@ < pow2(32 * limit),
            limit <= usize::MAX,
            lower@ == den@,
            down == 0,
            up <= 32 * limit,
            above@ == num@ * pow2(up as nat),
            up > 0 ==> above@ < 2 * below@,
        decreases 32 * limit - up,
    {
        proof {
            lemma_pow2_unfold((up + 1) as nat);
            assert(num@ * pow2((up + 1) as nat) == (num@ * pow2(up as nat)) * 2)
                by (nonlinear_arith)
                requires
                    pow2((up + 1) as nat) == 2 * pow2(up as nat),
            ;
            // 2^up <= above < below < 2^(32 * limit)
            lemma_pow2_pos(up as nat);
            assert(pow2(up as nat) <= num@ * pow2(up as nat)) by (nonlinear_arith)
                requires
                    1 <= num@,
                    0 < pow2(up as nat),
            ;
            if up >= 32 * limit {
                if up > 32 * limit {
                    lemma_pow2_strictly_increases(32 * limit, up as nat);
                }
                assert(false);
            }
        }
        above = above.times_plus(2, 0);
        up += 1;
    }
    let limbs_above = above.limbs.len();
    let ghost reach = limbs_above as nat;
    proof {
        lemma_low_value_all(above.limbs@, reach);
        lemma_low_value_bound(above.limbs@, reach);
        assert(den@ * pow2(0) == den@);
        assert((den@ * 0x80_0000) * pow2(0) == den@ * 0x80_0000);
    }
    loop
        invariant
            0 < num@,
            0 < den@,
            up <= 32 * limit,
            limit <= usize::MAX,
            reach <= usize::MAX,
            down <= 32 * reach,
            above@ == num@ * pow2(up as nat),
            above@ < pow2(32 * reach),
            lower@ == den@ * pow2(down as nat),
            below@ == lower@ * 0x80_0000,
            below@ <= above@,
            up > 0 ==> above@ < 2 * below@,
            up > 0 ==> down == 0,
        ensures
            above@ < 2 * below@,
        decreases 32 * reach - down,
    {
        let twice = below.times_plus(2, 0);
        if !above.is_at_least(&twice) {
            break;
        }
        proof {
            assert(up == 0);
            lemma_pow2_unfold((down + 1) as nat);
            assert(den@ * pow2((down + 1) as nat) == (den@ * pow2(down as nat)) * 2)
                by (nonlinear_arith)
                requires
                    pow2((down + 1) as nat) == 2 * pow2(down as nat),
            ;
            // 2^(down + 1) <= 2 * lower <= 2 * below <= above < 2^(32 * reach)
            lemma_pow2_pos((down + 1) as nat);
            assert(pow2((down + 1) as nat) <= (den@ * pow2((down + 1) as nat)) * 0x80_0000)
                by (nonlinear_arith)
                requires
                    1 <= den@,
                    0 < pow2((down + 1) as nat),
            ;
            if down + 1 > 32 * reach {
                lemma_pow2_strictly_increases(32 * reach, (down + 1) as nat);
                assert(false);
            }
        }
        lower = lower.times_plus(2, 0);
        below = twice;
        down += 1;
    }
    let ghost lead: int = up - down;
    proof {
        // the fraction at the shift `lead` has twenty-four digits
        lemma2_to64();
        if down == 0 {
            assert(shifted_numerator(num@, lead) == above@);
            assert(shifted_denominator(den@, lead) == den@);
        } else {
            assert(shifted_numerator(num@, lead) == above@);
            assert(shifted_denominator(den@, lead) == lower@);
        }
        assert(shifted_denominator(den@, lead) * 0x100_0000 == 2 * (shifted_denominator(den@, lead)
            * 0x80_0000));
        lemma_round_ratio(num@, den@, 149, lead);
    }
    if down > 0 {
        // at least 2^24 units: rounded at the shift `lead`, which is negative
        if down >= 106 {
            return 0x7F80_0000;
        }
        proof {
            lemma_not_negative(above.limbs@);
        }
        let rounded = rounded_quotient(&above, &lower);
        let pattern: u32 = (149 + down as u32) * 0x80_0000 + rounded;
        if pattern >= 0x7F80_0000 {
            0x7F80_0000
        } else {
            pattern
        }
    } else if up < 149 {
        // at least 2^24 units still: rounded at the shift `lead`
        proof {
            lemma_not_negative(above.limbs@);
        }
        let rounded = rounded_quotient(&above, den);
        (149 - up as u32) * 0x80_0000 + rounded
    } else {
        // fewer than twenty-five digits at the shift 149: rounded as it stands
        let top = doubled(num, 149);
        proof {
            lemma_not_negative(top.limbs@);
        }
        rounded_quotient(&top, den)
    }
}

} // verus!
