//! Rounding to the nearest binary32 number.
//!
//! A result of arithmetic is a fraction `n / d` of two integers, counted in
//! units of 2^-149. Binary32 numbers below 2^24 units lie one unit apart; from
//! there on the distance doubles with every further binary digit. The nearest
//! of them is returned, and of two equally near the one whose significand is
//! even; what lies beyond the largest finite number becomes infinity.
use crate::binary32::{lemma_scaled_order, scaled};
use vstd::arithmetic::div_mod::*;
use vstd::arithmetic::mul::*;
use vstd::arithmetic::power2::*;
use vstd::prelude::*;

verus! {

/// The integer nearest to `n / d`; of two equally near, the even one.
pub open spec fn round_half_even(n: int, d: int) -> int
    recommends
        0 <= n,
        0 < d,
{
    let whole = n / d;
    let rest = n % d;
    if 2 * rest < d || (2 * rest == d && whole % 2 == 0) {
        whole
    } else {
        whole + 1
    }
}

/// How many binary digits a number of `x` units has beyond twenty-four: the
/// binary32 numbers around it lie `2^excess_bits(x)` units apart.
pub open spec fn excess_bits(x: int) -> nat
    decreases x,
{
    if x < 0x100_0000 {
        0
    } else {
        1 + excess_bits(x / 2)
    }
}

/// The bit pattern, without the sign, of the binary32 number nearest to
/// `n / d` units: that of infinity where the nearest lies beyond the largest
/// finite number.
pub open spec fn nearest_pattern(n: int, d: int) -> int
    recommends
        0 <= n,
        0 < d,
{
    let excess = excess_bits(n / d);
    let pattern = excess * 0x80_0000 + round_half_even(n, d * pow2(excess));
    if pattern >= 0x7F80_0000 {
        0x7F80_0000
    } else {
        pattern
    }
}

/// The numerator of `num / den * 2^shift`, written as a fraction of integers.
pub open spec fn shifted_numerator(num: int, shift: int) -> int {
    if shift >= 0 {
        num * pow2(shift as nat)
    } else {
        num
    }
}

/// The denominator of `num / den * 2^shift`, written as a fraction of integers.
pub open spec fn shifted_denominator(den: int, shift: int) -> int {
    if shift >= 0 {
        den
    } else {
        den * pow2((-shift) as nat)
    }
}

/// A number with exactly `24 + excess` binary digits has that excess.
pub proof fn lemma_excess_bits(x: int, excess: nat)
    requires
        excess == 0 ==> x < pow2(24),
        excess > 0 ==> pow2(23 + excess) <= x < pow2(24 + excess),
    ensures
        excess_bits(x) == excess,
    decreases excess,
{
    lemma2_to64();
    if excess > 0 {
        if excess > 1 {
            lemma_pow2_strictly_increases(24, 23 + excess);
        }
        lemma_pow2_unfold(23 + excess);
        lemma_pow2_unfold(24 + excess);
        lemma_excess_bits(x / 2, (excess - 1) as nat);
    }
}

/// Multiplying numerator and denominator by one number changes neither the
/// whole part nor the rounding.
pub proof fn lemma_round_scaled(n: int, d: int, factor: int)
    requires
        0 <= n,
        0 < d,
        0 < factor,
    ensures
        0 < d * factor,
        (n * factor) / (d * factor) == n / d,
        round_half_even(n * factor, d * factor) == round_half_even(n, d),
{
    lemma_mul_strictly_positive(d, factor);
    lemma_div_multiples_vanish_quotient(factor, n, d);
    lemma_truncate_middle(n, factor, d);
    lemma_mul_is_commutative(n, factor);
    lemma_mul_is_commutative(d, factor);
    let rest = n % d;
    assert((n * factor) % (d * factor) == factor * rest);
    assert(2 * (factor * rest) == factor * (2 * rest)) by (nonlinear_arith);
    assert((factor * (2 * rest) < factor * d) == (2 * rest < d)) by (nonlinear_arith)
        requires
            0 < factor,
    ;
    assert((factor * (2 * rest) == factor * d) == (2 * rest == d)) by (nonlinear_arith)
        requires
            0 < factor,
    ;
}

/// Multiplying numerator and denominator by one number does not change the
/// nearest binary32 number.
pub proof fn lemma_nearest_scaled(n: int, d: int, factor: int)
    requires
        0 <= n,
        0 < d,
        0 < factor,
    ensures
        nearest_pattern(n * factor, d * factor) == nearest_pattern(n, d),
{
    lemma_round_scaled(n, d, factor);
    let excess = excess_bits(n / d);
    lemma_pow2_pos(excess);
    lemma_mul_strictly_positive(d, pow2(excess) as int);
    lemma_round_scaled(n, d * pow2(excess), factor);
    assert((d * pow2(excess)) * factor == (d * factor) * pow2(excess)) by (nonlinear_arith);
}

/// The power of two by which the numerator of a fraction at the shift `high`
/// exceeds its numerator at the shift `low`.
pub open spec fn shift_factor(low: int, high: int) -> int {
    pow2(((if high >= 0 {
        high
    } else {
        0
    }) - (if low >= 0 {
        low
    } else {
        0
    })) as nat) as int
}

/// A fraction at any shift is a fraction of integers.
pub proof fn lemma_shifted_fraction(num: int, den: int, shift: int)
    requires
        0 <= num,
        0 < den,
    ensures
        0 <= shifted_numerator(num, shift),
        0 < shifted_denominator(den, shift),
        num > 0 ==> shifted_numerator(num, shift) > 0,
{
    if shift >= 0 {
        lemma_pow2_pos(shift as nat);
        lemma_mul_nonnegative(num, pow2(shift as nat) as int);
        if num > 0 {
            lemma_mul_strictly_positive(num, pow2(shift as nat) as int);
        }
    } else {
        lemma_pow2_pos((-shift) as nat);
        lemma_mul_strictly_positive(den, pow2((-shift) as nat) as int);
    }
}

/// The same fraction at two shifts: the fraction at the higher shift is the
/// one at the lower shift, times `2^(high - low)`.
pub proof fn lemma_shifted(num: int, den: int, low: int, high: int)
    requires
        0 <= num,
        0 < den,
        low <= high,
    ensures
        0 < shift_factor(low, high),
        shifted_numerator(num, high) == shifted_numerator(num, low) * shift_factor(low, high),
        shifted_denominator(den, high) * pow2((high - low) as nat) == shifted_denominator(den, low)
            * shift_factor(low, high),
{
    let factor = shift_factor(low, high);
    let step = pow2((high - low) as nat) as int;
    lemma2_to64();
    lemma_pow2_pos((high - low) as nat);
    if low >= 0 {
        // both numerators are scaled, no denominator is
        let below = pow2(low as nat) as int;
        let above = pow2(high as nat) as int;
        assert(low as nat + (high - low) as nat == high as nat);
        lemma_pow2_adds(low as nat, (high - low) as nat);
        assert(above == below * step);
        assert(factor == step);
        assert(num * above == (num * below) * step) by (nonlinear_arith)
            requires
                above == below * step,
        ;
        assert(shifted_numerator(num, high) == shifted_numerator(num, low) * factor);
    } else if high >= 0 {
        // the low denominator is scaled, the high numerator is
        let below = pow2((-low) as nat) as int;
        let above = pow2(high as nat) as int;
        assert((-low) as nat + high as nat == (high - low) as nat);
        lemma_pow2_adds((-low) as nat, high as nat);
        lemma_pow2_pos(high as nat);
        assert(step == below * above);
        assert(factor == above);
        assert(den * step == (den * below) * above) by (nonlinear_arith)
            requires
                step == below * above,
        ;
        assert(shifted_numerator(num, high) == shifted_numerator(num, low) * factor);
    } else {
        // both denominators are scaled, no numerator is
        let below = pow2((-low) as nat) as int;
        let above = pow2((-high) as nat) as int;
        assert((-high) as nat + (high - low) as nat == (-low) as nat);
        lemma_pow2_adds((-high) as nat, (high - low) as nat);
        assert(below == above * step);
        assert(factor == 1);
        assert((den * above) * step == (den * below) * 1) by (nonlinear_arith)
            requires
                below == above * step,
        ;
        assert(num * 1 == num);
        assert(shifted_numerator(num, high) == shifted_numerator(num, low) * factor);
    }
}

/// An inequality between two products with a common positive factor holds
/// between the other factors.
proof fn lemma_cancel(a: int, b: int, factor: int)
    by (nonlinear_arith)
    requires
        0 < factor,
    ensures
        (a * factor <= b * factor) == (a <= b),
        (a * factor < b * factor) == (a < b),
{
}

/// The whole part of a fraction lies between two bounds when its numerator
/// lies between the bounds times the denominator.
proof fn lemma_whole_part(n: int, d: int, low: int, high: int)
    by (nonlinear_arith)
    requires
        0 < d,
        low * d <= n < high * d,
    ensures
        low <= n / d < high,
{
}

/// A fraction with twenty-four binary digits before the point rounds to an
/// integer of at most twenty-five.
proof fn lemma_round_bounds(n: int, d: int, high: int)
    requires
        0 <= n,
        0 < d,
        n < high * d,
    ensures
        0 <= round_half_even(n, d) <= high,
{
    lemma_whole_part(n, d, 0, high);
}

/// What `round_ratio` computes is the nearest binary32 number.
///
/// `lead` is the shift at which the fraction has exactly twenty-four binary
/// digits before the point. Where the fraction is to be rounded at a higher shift,
/// it is rounded at `lead` and the difference is the excess; where at a lower one,
/// it is rounded as it stands.
pub proof fn lemma_round_ratio(num: int, den: int, shift: int, lead: int)
    requires
        0 < num,
        0 < den,
        shifted_denominator(den, lead) * 0x80_0000 <= shifted_numerator(num, lead)
            < shifted_denominator(den, lead) * 0x100_0000,
    ensures
        ({
            let cut = if shift < lead {
                shift
            } else {
                lead
            };
            let rounded = round_half_even(
                shifted_numerator(num, cut),
                shifted_denominator(den, cut),
            );
            let pattern = (shift - cut) * 0x80_0000 + rounded;
            &&& 0 <= rounded <= 0x100_0000
            &&& shifted_numerator(num, cut) < shifted_denominator(den, cut) * 0x100_0000
            &&& nearest_pattern(shifted_numerator(num, shift), shifted_denominator(den, shift))
                == if pattern >= 0x7F80_0000 {
                0x7F80_0000
            } else {
                pattern
            }
        }),
{
    let cut = if shift < lead {
        shift
    } else {
        lead
    };
    let excess = (shift - cut) as nat;
    let n = shifted_numerator(num, shift);
    let d = shifted_denominator(den, shift);
    let n_cut = shifted_numerator(num, cut);
    let d_cut = shifted_denominator(den, cut);
    let n_lead = shifted_numerator(num, lead);
    let d_lead = shifted_denominator(den, lead);
    lemma_shifted_fraction(num, den, shift);
    lemma_shifted_fraction(num, den, cut);
    lemma_shifted_fraction(num, den, lead);
    lemma2_to64();
    // n == n_cut * factor, d * 2^excess == d_cut * factor
    lemma_shifted(num, den, cut, shift);
    let factor = shift_factor(cut, shift);
    let spacing = pow2(excess) as int;
    lemma_pow2_pos(excess);
    lemma_round_scaled(n_cut, d_cut, factor);
    if excess > 0 {
        // cut == lead: twenty-four digits at the cut, `excess` more at the shift
        assert(cut == lead);
        lemma_pow2_adds(23, excess);
        lemma_pow2_adds(24, excess);
        assert(n * spacing >= (pow2(23 + excess) * d) * spacing) by {
            // n * spacing == n_cut * factor * spacing >= d_cut * 2^23 * factor * spacing
            assert(n_cut * factor >= (d_cut * 0x80_0000) * factor) by {
                lemma_cancel(d_cut * 0x80_0000, n_cut, factor);
            }
            assert((d_cut * 0x80_0000) * factor == (d * spacing) * 0x80_0000) by (nonlinear_arith)
                requires
                    d * spacing == d_cut * factor,
            ;
            assert((pow2(23 + excess) * d) * spacing == ((d * spacing) * 0x80_0000) * spacing)
                by (nonlinear_arith)
                requires
                    pow2(23 + excess) == 0x80_0000 * spacing,
            ;
            lemma_mul_strictly_positive(d, spacing);
            assert(n * spacing >= ((d * spacing) * 0x80_0000) * spacing) by (nonlinear_arith)
                requires
                    n >= (d * spacing) * 0x80_0000,
                    spacing > 0,
            ;
        }
        assert(n * spacing < (pow2(24 + excess) * d) * spacing) by {
            assert(n_cut * factor < (d_cut * 0x100_0000) * factor) by {
                lemma_cancel(n_cut, d_cut * 0x100_0000, factor);
            }
            assert((d_cut * 0x100_0000) * factor == (d * spacing) * 0x100_0000) by (nonlinear_arith)
                requires
                    d * spacing == d_cut * factor,
            ;
            assert((pow2(24 + excess) * d) * spacing == ((d * spacing) * 0x100_0000) * spacing)
                by (nonlinear_arith)
                requires
                    pow2(24 + excess) == 0x100_0000 * spacing,
            ;
            assert(n * spacing < ((d * spacing) * 0x100_0000) * spacing) by (nonlinear_arith)
                requires
                    n < (d * spacing) * 0x100_0000,
                    spacing > 0,
            ;
        }
        lemma_cancel(pow2(23 + excess) * d, n, spacing);
        lemma_cancel(n, pow2(24 + excess) * d, spacing);
        lemma_whole_part(n, d, pow2(23 + excess) as int, pow2(24 + excess) as int);
        lemma_excess_bits(n / d, excess);
    } else {
        // cut == shift: fewer than twenty-five digits as it stands
        assert(spacing == 1);
        assert(d * spacing == d);
        if shift < lead {
            lemma_shifted(num, den, shift, lead);
            let above = shift_factor(shift, lead);
            let step = pow2((lead - shift) as nat) as int;
            lemma_pow2_pos((lead - shift) as nat);
            // n * above == n_lead < d_lead * 2^24 <= d_lead * step * 2^24 == d * above * 2^24
            assert(d_lead * 0x100_0000 <= (d_lead * step) * 0x100_0000) by (nonlinear_arith)
                requires
                    0 < d_lead,
                    1 <= step,
            ;
            assert((d * 0x100_0000) * above == (d * above) * 0x100_0000) by (nonlinear_arith);
            lemma_cancel(n, d * 0x100_0000, above);
        }
        assert(n < d * 0x100_0000);
        lemma_mul_is_commutative(d, 0x100_0000);
        lemma_whole_part(n, d, 0, 0x100_0000);
        lemma_excess_bits(n / d, 0);
    }
    assert(n_cut < d_cut * 0x100_0000);
    lemma_mul_is_commutative(d_cut, 0x100_0000);
    lemma_round_bounds(n_cut, d_cut, 0x100_0000);
    assert(round_half_even(n, d * spacing) == round_half_even(n_cut, d_cut));
}

/// Nothing rounds to nothing.
proof fn lemma_nearest_of_zero(d: int)
    requires
        0 < d,
    ensures
        nearest_pattern(0, d) == 0,
{
    lemma2_to64();
    lemma_whole_part(0, d, 0, 1);
    assert(excess_bits(0) == 0);
    assert(d * pow2(0) == d);
    lemma_small_mod(0, d as nat);
}

/// Multiplies by a power of two.
fn times_power(value: u128, exponent: u32) -> (r: u128)
    requires
        value * pow2(exponent as nat) <= u128::MAX,
    ensures
        r == value * pow2(exponent as nat),
{
    let mut r: u128 = value;
    let mut done: u32 = 0;
    proof {
        lemma2_to64();
    }
    while done < exponent
        invariant
            done <= exponent,
            r == value * pow2(done as nat),
            value * pow2(exponent as nat) <= u128::MAX,
        decreases exponent - done,
    {
        proof {
            lemma_pow2_unfold((done + 1) as nat);
            assert(value * pow2((done + 1) as nat) == 2 * (value * pow2(done as nat)))
                by (nonlinear_arith)
                requires
                    pow2((done + 1) as nat) == 2 * pow2(done as nat),
            ;
            if done + 1 < exponent {
                lemma_pow2_strictly_increases((done + 1) as nat, exponent as nat);
            }
            assert(value * pow2((done + 1) as nat) <= value * pow2(exponent as nat))
                by (nonlinear_arith)
                requires
                    pow2((done + 1) as nat) <= pow2(exponent as nat),
                    0 <= value,
            ;
        }
        r = r * 2;
        done += 1;
    }
    r
}

/// Rounds `num / den * 2^shift` units to the nearest binary32 number, and
/// returns its bit pattern, without a sign.
pub fn round_ratio(num: u64, den: u64, shift: i32) -> (pattern: u32)
    requires
        num < 0x100_0000_0000_0000,
        0 < den < 0x100_0000,
        -1000 <= shift <= 1000,
    ensures
        pattern == nearest_pattern(
            shifted_numerator(num as int, shift as int),
            shifted_denominator(den as int, shift as int),
        ),
        pattern <= 0x7F80_0000,
{
    if num == 0 {
        proof {
            lemma_shifted_fraction(0, den as int, shift as int);
            if shift >= 0 {
                assert(0 * pow2(shift as nat) == 0);
            }
            lemma_nearest_of_zero(shifted_denominator(den as int, shift as int));
        }
        return 0;
    }
    // the shift at which num / den has twenty-four binary digits before the point:
    // above == num * 2^up, below == den * 2^23 * 2^down, below <= above < 2 * below
    let mut above: u128 = num as u128;
    let mut below: u128 = (den as u128) * 0x80_0000;
    let mut up: i32 = 0;
    let mut down: i32 = 0;
    proof {
        lemma2_to64();
        assert(num * pow2(0) == num);
        assert((den * 0x80_0000) * pow2(0) == den * 0x80_0000);
    }
    while above < below
        invariant
            0 < num < 0x100_0000_0000_0000,
            0 < den < 0x100_0000,
            below == den * 0x80_0000,
            0 <= up <= 47,
            down == 0,
            0 < above < 0x100_0000_0000_0000,
            above == num * pow2(up as nat),
            up > 0 ==> above < 2 * below,
        decreases 48 - up,
    {
        proof {
            lemma2_to64();
            lemma_pow2_unfold((up + 1) as nat);
            assert(num * pow2((up + 1) as nat) == 2 * (num * pow2(up as nat))) by (nonlinear_arith)
                requires
                    pow2((up + 1) as nat) == 2 * pow2(up as nat),
            ;
            // 2^up <= above < below < 2^47
            lemma_pow2_pos(up as nat);
            assert(pow2(up as nat) <= num * pow2(up as nat)) by (nonlinear_arith)
                requires
                    1 <= num,
                    0 < pow2(up as nat),
            ;
            if up >= 47 {
                if up > 47 {
                    lemma_pow2_strictly_increases(47, up as nat);
                }
                lemma_pow2_adds(23, 24);
                assert(pow2(47) == 0x8000_0000_0000);
                assert(false);
            }
        }
        above = above * 2;
        up += 1;
    }
    while above >= 2 * below
        invariant
            0 < num < 0x100_0000_0000_0000,
            0 < den < 0x100_0000,
            0 <= up <= 47,
            0 <= down <= 33,
            0 < above < 0x100_0000_0000_0000,
            above == num * pow2(up as nat),
            below == (den * 0x80_0000) * pow2(down as nat),
            below <= above,
            up > 0 ==> above < 2 * below,
            up > 0 ==> down == 0,
        decreases 34 - down,
    {
        proof {
            assert(up == 0);
            lemma2_to64();
            lemma_pow2_unfold((down + 1) as nat);
            assert((den * 0x80_0000) * pow2((down + 1) as nat) == 2 * ((den * 0x80_0000) * pow2(
                down as nat,
            ))) by (nonlinear_arith)
                requires
                    pow2((down + 1) as nat) == 2 * pow2(down as nat),
            ;
            // 2^(23 + down + 1) <= 2 * below <= above == num < 2^56
            lemma_pow2_adds(23, (down + 1) as nat);
            lemma_pow2_pos((down + 1) as nat);
            assert(0x80_0000 * pow2((down + 1) as nat) <= (den * 0x80_0000) * pow2(
                (down + 1) as nat,
            )) by (nonlinear_arith)
                requires
                    1 <= den,
                    0 < pow2((down + 1) as nat),
            ;
            if down + 1 > 33 {
                lemma_pow2_adds(24, 32);
                if 23 + down + 1 > 56 {
                    lemma_pow2_strictly_increases(56, (23 + down + 1) as nat);
                }
                assert(pow2(56) == 0x100_0000_0000_0000);
                assert(false);
            }
        }
        below = below * 2;
        down += 1;
    }
    let lead: i32 = up - down;
    let cut: i32 = if shift < lead {
        shift
    } else {
        lead
    };
    proof {
        // the fraction at the shift `lead` has twenty-four digits
        if down == 0 {
            assert(pow2(0) == 1);
            assert(shifted_numerator(num as int, lead as int) == above);
            assert(shifted_denominator(den as int, lead as int) * 0x80_0000 == below);
        } else {
            assert(up == 0);
            if lead == 0 {
                assert(false);
            }
            assert(shifted_numerator(num as int, lead as int) == above);
            assert(shifted_denominator(den as int, lead as int) * 0x80_0000 == below)
                by (nonlinear_arith)
                requires
                    shifted_denominator(den as int, lead as int) == den * pow2(down as nat),
                    below == (den * 0x80_0000) * pow2(down as nat),
            ;
        }
        assert(shifted_denominator(den as int, lead as int) * 0x100_0000 == 2 * (
        shifted_denominator(den as int, lead as int) * 0x80_0000));
        lemma_round_ratio(num as int, den as int, shift as int, lead as int);
        lemma_shifted_fraction(num as int, den as int, cut as int);
    }
    let ghost n_cut = shifted_numerator(num as int, cut as int);
    let ghost d_cut = shifted_denominator(den as int, cut as int);
    let rounded: u128 = if cut < -60 {
        proof {
            // less than one half of a unit
            lemma_pow2_strictly_increases(57, (-cut) as nat);
            lemma_pow2_adds(25, 32);
            assert(pow2(57) == 0x200_0000_0000_0000);
            assert(2 * n_cut < d_cut) by (nonlinear_arith)
                requires
                    n_cut < 0x100_0000_0000_0000,
                    d_cut == den * pow2((-cut) as nat),
                    1 <= den,
                    pow2((-cut) as nat) > 0x200_0000_0000_0000,
            ;
            lemma_small_mod(n_cut as nat, d_cut as nat);
            lemma_whole_part(n_cut, d_cut, 0, 1);
        }
        0
    } else {
        let numerator: u128 = if cut >= 0 {
            proof {
                assert(n_cut < d_cut * 0x100_0000);
            }
            times_power(num as u128, cut as u32)
        } else {
            num as u128
        };
        let denominator: u128 = if cut >= 0 {
            den as u128
        } else {
            proof {
                if -cut < 60 {
                    lemma_pow2_strictly_increases((-cut) as nat, 60);
                }
                lemma_pow2_adds(30, 30);
                assert(pow2(60) == 0x1000_0000_0000_0000);
                assert(den * pow2((-cut) as nat) <= 0x100_0000 * 0x1000_0000_0000_0000)
                    by (nonlinear_arith)
                    requires
                        den <= 0x100_0000,
                        pow2((-cut) as nat) <= 0x1000_0000_0000_0000,
                ;
            }
            times_power(den as u128, (-cut) as u32)
        };
        let whole = numerator / denominator;
        let rest = numerator % denominator;
        if 2 * rest < denominator || (2 * rest == denominator && whole % 2 == 0) {
            whole
        } else {
            whole + 1
        }
    };
    assert(rounded == round_half_even(n_cut, d_cut));
    let excess: i32 = shift - cut;
    if excess >= 255 {
        return 0x7F80_0000;
    }
    let pattern: u32 = (excess as u32) * 0x80_0000 + (rounded as u32);
    if pattern >= 0x7F80_0000 {
        0x7F80_0000
    } else {
        pattern
    }
}

/// The excess of a number tells how many binary digits it has.
pub proof fn lemma_excess_bits_bounds(x: int)
    requires
        0 <= x,
    ensures
        excess_bits(x) == 0 ==> x < pow2(24),
        excess_bits(x) > 0 ==> pow2(23 + excess_bits(x)) <= x < pow2(24 + excess_bits(x)),
    decreases x,
{
    lemma2_to64();
    if x >= 0x100_0000 {
        lemma_excess_bits_bounds(x / 2);
        let below = excess_bits(x / 2);
        lemma_pow2_unfold(23 + below + 1);
        lemma_pow2_unfold(24 + below + 1);
        if below == 0 {
            assert(pow2(25) == 0x200_0000);
        }
    }
}

/// Rounding a fraction that is at most an integer gives at most that integer,
/// and rounding one that is at least an integer gives at least that integer.
pub proof fn lemma_round_monotone(n: int, d: int, bound: int)
    requires
        0 <= n,
        0 < d,
    ensures
        n <= bound * d ==> round_half_even(n, d) <= bound,
        n >= bound * d ==> round_half_even(n, d) >= bound,
        n == bound * d ==> round_half_even(n, d) == bound,
{
    lemma_fundamental_div_mod(n, d);
    lemma_mod_bound(n, d);
    let whole = n / d;
    let rest = n % d;
    assert(n == d * whole + rest);
    if n <= bound * d {
        assert(whole <= bound && (whole == bound ==> rest == 0)) by (nonlinear_arith)
            requires
                n == d * whole + rest,
                0 <= rest < d,
                n <= bound * d,
        ;
    }
    if n >= bound * d {
        assert(whole >= bound) by (nonlinear_arith)
            requires
                n == d * whole + rest,
                0 <= rest < d,
                n >= bound * d,
        ;
    }
}

/// The value of a bit pattern that is made of an excess and a significand, as
/// rounding makes it.
pub proof fn lemma_pattern_value(excess: nat, significand: int)
    requires
        0 <= significand <= 0x100_0000,
        excess > 0 ==> significand >= 0x80_0000,
    ensures
        excess * 0x80_0000 + significand < 0x7F80_0000 ==> scaled(
            excess * 0x80_0000 + significand,
        ) == significand * pow2(excess),
        excess * 0x80_0000 + significand >= 0x7F80_0000 ==> significand * pow2(excess) >= pow2(277),
{
    let pattern = excess * 0x80_0000 + significand;
    lemma2_to64();
    lemma_pow2_pos(excess);
    if pattern < 0x7F80_0000 {
        if significand == 0x100_0000 {
            assert(pattern / 0x80_0000 == excess + 2 && pattern % 0x80_0000 == 0) by {
                lemma_fundamental_div_mod_converse(pattern, 0x80_0000, (excess + 2) as int, 0);
            }
            lemma_pow2_unfold(excess + 1);
            assert(0x80_0000 * pow2(excess + 1) == 0x100_0000 * pow2(excess)) by (nonlinear_arith)
                requires
                    pow2(excess + 1) == 2 * pow2(excess),
            ;
        } else if significand >= 0x80_0000 {
            assert(pattern / 0x80_0000 == excess + 1 && pattern % 0x80_0000 == significand
                - 0x80_0000) by {
                lemma_fundamental_div_mod_converse(
                    pattern,
                    0x80_0000,
                    (excess + 1) as int,
                    significand - 0x80_0000,
                );
            }
        } else {
            assert(excess == 0);
            assert(significand * pow2(0) == significand);
        }
    } else {
        // 254 * 2^23 + 2^23 <= excess * 2^23 + significand, and significand <= 2^24
        assert(excess >= 253);
        lemma_pow2_adds(23, 254);
        lemma_pow2_adds(24, 253);
        if excess == 253 {
            assert(significand == 0x100_0000);
        } else {
            if excess > 254 {
                lemma_pow2_strictly_increases(254, excess);
            }
            assert(significand * pow2(excess) >= 0x80_0000 * pow2(254)) by (nonlinear_arith)
                requires
                    significand >= 0x80_0000,
                    pow2(excess) >= pow2(254),
            ;
        }
    }
}

/// What a rounded fraction is worth: the excess of the fraction and its rounded
/// significand give the value of the nearest binary32 number.
pub proof fn lemma_nearest_value(n: int, d: int)
    requires
        0 <= n,
        0 < d,
    ensures
        ({
            let excess = excess_bits(n / d);
            let significand = round_half_even(n, d * pow2(excess));
            &&& 0 < d * pow2(excess)
            &&& 0 <= significand <= 0x100_0000
            &&& excess > 0 ==> significand >= 0x80_0000
            &&& 0 <= nearest_pattern(n, d) <= 0x7F80_0000
            &&& nearest_pattern(n, d) < 0x7F80_0000 ==> scaled(nearest_pattern(n, d))
                == significand * pow2(excess)
            &&& nearest_pattern(n, d) == 0x7F80_0000 ==> significand * pow2(excess) >= pow2(277)
        }),
{
    let excess = excess_bits(n / d);
    let spacing = pow2(excess) as int;
    let significand = round_half_even(n, d * spacing);
    lemma2_to64();
    lemma_pow2_pos(excess);
    lemma_mul_strictly_positive(d, spacing);
    lemma_fundamental_div_mod(n, d);
    lemma_mod_bound(n, d);
    assert(0 <= n / d) by (nonlinear_arith)
        requires
            0 <= n,
            0 < d,
    ;
    lemma_excess_bits_bounds(n / d);
    // the fraction has at most twenty-four digits at its spacing
    assert(n < 0x100_0000 * (d * spacing)) by {
        if excess == 0 {
            assert(spacing == 1);
            assert(d * spacing == d) by (nonlinear_arith)
                requires
                    spacing == 1,
            ;
            assert(n < d * (n / d) + d);
            assert(d * (n / d) + d <= d * 0x100_0000) by (nonlinear_arith)
                requires
                    n / d < 0x100_0000,
                    0 < d,
            ;
        } else {
            lemma_pow2_adds(24, excess);
            assert(n < d * (n / d) + d);
            assert(d * (n / d) + d <= d * (0x100_0000 * spacing)) by (nonlinear_arith)
                requires
                    n / d < 0x100_0000 * spacing,
                    0 < d,
            ;
            assert(d * (0x100_0000 * spacing) == 0x100_0000 * (d * spacing)) by (nonlinear_arith);
        }
    }
    lemma_round_monotone(n, d * spacing, 0x100_0000);
    lemma_round_monotone(n, d * spacing, 0);
    if excess > 0 {
        lemma_pow2_adds(23, excess);
        assert(n >= 0x80_0000 * (d * spacing)) by {
            assert(n >= d * (n / d));
            assert(d * (n / d) >= d * (0x80_0000 * spacing)) by (nonlinear_arith)
                requires
                    n / d >= 0x80_0000 * spacing,
                    0 < d,
            ;
            assert(d * (0x80_0000 * spacing) == 0x80_0000 * (d * spacing)) by (nonlinear_arith);
        }
        lemma_round_monotone(n, d * spacing, 0x80_0000);
    }
    lemma_pattern_value(excess, significand);
}

/// A binary32 number of at least `2^(23 + excess)` units is a whole multiple of
/// `2^excess` units.
pub proof fn lemma_grid(pattern: int, excess: nat) -> (multiple: int)
    requires
        0 <= pattern < 0x7F80_0000,
        scaled(pattern) >= pow2(23 + excess),
    ensures
        scaled(pattern) == multiple * pow2(excess),
        0 <= multiple,
{
    let exponent = pattern / 0x80_0000;
    let fraction = pattern % 0x80_0000;
    lemma2_to64();
    lemma_pow2_pos(excess);
    lemma_pow2_adds(23, excess);
    if exponent == 0 {
        // below 2^23
        assert(pow2(23 + excess) >= 0x80_0000) by (nonlinear_arith)
            requires
                pow2(23 + excess) == 0x80_0000 * pow2(excess),
                pow2(excess) >= 1,
        ;
        assert(false);
        0
    } else {
        let scale = (exponent - 1) as nat;
        let significand = 0x80_0000 + fraction;
        lemma_pow2_pos(scale);
        if scale < excess {
            // below 2^24 * 2^scale <= 2^23 * 2^excess
            lemma_pow2_unfold(scale + 1);
            if scale + 1 < excess {
                lemma_pow2_strictly_increases(scale + 1, excess);
            }
            assert(significand * pow2(scale) < 0x80_0000 * pow2(excess)) by (nonlinear_arith)
                requires
                    significand < 0x100_0000,
                    2 * pow2(scale) <= pow2(excess),
                    0 < pow2(scale),
            ;
            assert(false);
            0
        } else {
            let step = pow2((scale - excess) as nat) as int;
            lemma_pow2_pos((scale - excess) as nat);
            assert((scale - excess) as nat + excess == scale);
            lemma_pow2_adds((scale - excess) as nat, excess);
            assert(significand * pow2(scale) == (significand * step) * pow2(excess))
                by (nonlinear_arith)
                requires
                    pow2(scale) == step * pow2(excess),
            ;
            lemma_mul_nonnegative(significand, step);
            significand * step
        }
    }
}

/// Rounding keeps a fraction between the binary32 numbers that it lies
/// between: if the fraction is at least the number of the pattern `low` and at
/// most that of the pattern `high`, so is the nearest binary32 number.
pub proof fn lemma_nearest_between(n: int, d: int, low: int, high: int)
    requires
        0 <= n,
        0 < d,
        0 <= low <= 0x7F80_0000,
        0 <= high <= 0x7F80_0000,
        scaled(low) * d <= n <= scaled(high) * d,
    ensures
        low <= nearest_pattern(n, d) <= high,
{
    let excess = excess_bits(n / d);
    let spacing = pow2(excess) as int;
    let significand = round_half_even(n, d * spacing);
    let nearest = nearest_pattern(n, d);
    let value = significand * spacing;
    lemma_nearest_value(n, d);
    lemma_pow2_pos(excess);
    lemma2_to64();
    lemma_fundamental_div_mod(n, d);
    lemma_mod_bound(n, d);
    lemma_excess_bits_bounds(n / d);
    lemma_scaled_order(low, high);
    lemma_pow2_adds(23, 254);
    assert(scaled(0x7F80_0000) == pow2(277)) by {
        assert(0x7F80_0000int / 0x80_0000 == 255);
        assert(0x7F80_0000int % 0x80_0000 == 0);
    }
    // the nearest number is not above `high`
    if high < 0x7F80_0000 {
        let top = scaled(high);
        lemma_scaled_order(high, 0x7F80_0000);
        assert(value <= top) by {
            if excess == 0 {
                assert(spacing == 1);
                assert(d * spacing == d && significand * spacing == significand)
                    by (nonlinear_arith)
                    requires
                        spacing == 1,
                ;
                lemma_round_monotone(n, d, top);
            } else {
                // top >= n / d >= 2^(23 + excess), so it is a multiple of the spacing
                lemma_pow2_adds(23, excess);
                assert(top >= pow2(23 + excess)) by (nonlinear_arith)
                    requires
                        top * d >= n,
                        n >= d * (n / d),
                        n / d >= pow2(23 + excess),
                        0 < d,
                ;
                let multiple = lemma_grid(high, excess);
                assert(multiple * (d * spacing) == top * d) by (nonlinear_arith)
                    requires
                        top == multiple * spacing,
                ;
                lemma_round_monotone(n, d * spacing, multiple);
                assert(significand * spacing <= multiple * spacing) by (nonlinear_arith)
                    requires
                        significand <= multiple,
                        0 < spacing,
                ;
            }
        }
        assert(nearest < 0x7F80_0000);
        lemma_scaled_order(nearest, high);
    }
    // the nearest number is not below `low`
    if nearest < 0x7F80_0000 {
        let bottom = scaled(low);
        lemma_scaled_order(nearest, 0x7F80_0000);
        if low == 0x7F80_0000 {
            // then the fraction is at least 2^277, and so is what it rounds to
            lemma_pow2_adds(24, 253);
            assert(n / d >= pow2(277)) by (nonlinear_arith)
                requires
                    pow2(277) * d <= n,
                    0 < d,
            ;
            assert(excess >= 254) by {
                if excess < 254 {
                    if excess > 0 {
                        lemma_pow2_strictly_increases(24 + excess, 278);
                        lemma_pow2_unfold(278);
                        if 24 + excess < 277 {
                            lemma_pow2_strictly_increases(24 + excess, 277);
                        }
                    } else {
                        lemma_pow2_strictly_increases(24, 277);
                    }
                    assert(false);
                }
            }
            if excess > 254 {
                lemma_pow2_strictly_increases(254, excess);
            }
            assert(value >= 0x80_0000 * pow2(254)) by (nonlinear_arith)
                requires
                    value == significand * spacing,
                    significand >= 0x80_0000,
                    spacing >= pow2(254),
            ;
            assert(false);
        }
        lemma_scaled_order(low, 0x7F80_0000);
        assert(bottom <= value) by {
            if excess == 0 {
                assert(spacing == 1);
                assert(d * spacing == d && significand * spacing == significand)
                    by (nonlinear_arith)
                    requires
                        spacing == 1,
                ;
                lemma_round_monotone(n, d, bottom);
            } else {
                lemma_pow2_adds(23, excess);
                if bottom >= pow2(23 + excess) {
                    let multiple = lemma_grid(low, excess);
                    assert(multiple * (d * spacing) == bottom * d) by (nonlinear_arith)
                        requires
                            bottom == multiple * spacing,
                    ;
                    lemma_round_monotone(n, d * spacing, multiple);
                    assert(significand * spacing >= multiple * spacing) by (nonlinear_arith)
                        requires
                            significand >= multiple,
                            0 < spacing,
                    ;
                } else {
                    assert(significand * spacing >= 0x80_0000 * spacing) by (nonlinear_arith)
                        requires
                            significand >= 0x80_0000,
                            0 < spacing,
                    ;
                }
            }
        }
        lemma_scaled_order(low, nearest);
    }
}

/// A binary32 number below `2^(23 + excess)` units lies at least `2^(excess - 1)`
/// units below it.
pub proof fn lemma_grid_below(pattern: int, excess: nat)
    requires
        0 <= pattern < 0x7F80_0000,
        excess > 0,
        scaled(pattern) < pow2(23 + excess),
    ensures
        scaled(pattern) <= pow2(23 + excess) - pow2((excess - 1) as nat),
{
    let exponent = pattern / 0x80_0000;
    let fraction = pattern % 0x80_0000;
    let half = pow2((excess - 1) as nat) as int;
    lemma2_to64();
    lemma_pow2_pos((excess - 1) as nat);
    lemma_pow2_unfold(excess);
    lemma_pow2_adds(23, excess);
    // 2^(23 + excess) - 2^(excess - 1) == (2^24 - 1) * 2^(excess - 1)
    assert(pow2(23 + excess) - half == 0xFF_FFFF * half) by (nonlinear_arith)
        requires
            pow2(23 + excess) == 0x80_0000 * pow2(excess),
            pow2(excess) == 2 * half,
    ;
    if exponent == 0 {
        assert(fraction <= 0xFF_FFFF * half) by (nonlinear_arith)
            requires
                fraction < 0x80_0000,
                1 <= half,
        ;
    } else {
        let scale = (exponent - 1) as nat;
        let significand = 0x80_0000 + fraction;
        lemma_pow2_pos(scale);
        if scale >= excess {
            if scale > excess {
                lemma_pow2_strictly_increases(excess, scale);
            }
            assert(significand * pow2(scale) >= 0x80_0000 * pow2(excess)) by (nonlinear_arith)
                requires
                    significand >= 0x80_0000,
                    pow2(scale) >= pow2(excess),
                    0 < pow2(excess),
            ;
            assert(false);
        }
        if scale + 1 < excess {
            lemma_pow2_strictly_increases(scale, (excess - 1) as nat);
        }
        assert(significand * pow2(scale) <= 0xFF_FFFF * half) by (nonlinear_arith)
            requires
                significand <= 0xFF_FFFF,
                0 < pow2(scale) <= half,
        ;
    }
}

/// The distance, times `d`, between the number of a bit pattern and the
/// fraction `n / d`.
pub open spec fn distance(pattern: int, n: int, d: int) -> int {
    if scaled(pattern) * d >= n {
        scaled(pattern) * d - n
    } else {
        n - scaled(pattern) * d
    }
}

/// What rounding means: no binary32 number is nearer to the fraction than the
/// one that `nearest_pattern` gives, and where another is just as near, the one
/// given has the even significand.
pub proof fn lemma_nearest_is_nearest(n: int, d: int, other: int)
    requires
        0 <= n,
        0 < d,
        0 <= other < 0x7F80_0000,
        nearest_pattern(n, d) < 0x7F80_0000,
    ensures
        distance(nearest_pattern(n, d), n, d) <= distance(other, n, d),
        distance(nearest_pattern(n, d), n, d) == distance(other, n, d) && other != nearest_pattern(
            n,
            d,
        ) ==> nearest_pattern(n, d) % 2 == 0,
{
    let excess = excess_bits(n / d);
    let spacing = pow2(excess) as int;
    let significand = round_half_even(n, d * spacing);
    let nearest = nearest_pattern(n, d);
    let unit = d * spacing;
    lemma_nearest_value(n, d);
    lemma_pow2_pos(excess);
    lemma2_to64();
    lemma_fundamental_div_mod(n, unit);
    lemma_mod_bound(n, unit);
    lemma_fundamental_div_mod(n, d);
    lemma_mod_bound(n, d);
    lemma_excess_bits_bounds(n / d);
    lemma_scaled_order(other, nearest);
    lemma_scaled_order(nearest, other);
    let whole = n / unit;
    let rest = n % unit;
    assert(n == unit * whole + rest);
    let value = scaled(nearest);
    let there = scaled(other);
    assert(value * d == significand * unit) by (nonlinear_arith)
        requires
            value == significand * spacing,
            unit == d * spacing,
    ;
    // the nearest number is at most half a spacing away
    let near = distance(nearest, n, d);
    lemma_mul_strictly_positive(d, spacing);
    assert(significand == whole || significand == whole + 1);
    assert(2 * near <= unit && (2 * near == unit ==> 2 * rest == unit)) by (nonlinear_arith)
        requires
            n == unit * whole + rest,
            0 <= rest < unit,
            significand == whole || significand == whole + 1,
            significand == whole ==> 2 * rest <= unit,
            significand == whole + 1 ==> 2 * rest >= unit,
            near == if significand * unit >= n {
                significand * unit - n
            } else {
                n - significand * unit
            },
    ;
    assert(nearest % 2 == significand % 2) by {
        assert(nearest == excess * 0x80_0000 + significand);
        assert((excess * 0x80_0000) % 2 == 0) by (nonlinear_arith);
    }
    let on_grid = excess == 0 || there >= pow2(23 + excess);
    if on_grid {
        // the other number is a whole multiple of the spacing too
        let multiple = if excess == 0 {
            there
        } else {
            lemma_grid(other, excess)
        };
        assert(there == multiple * spacing) by {
            if excess == 0 {
                assert(spacing == 1);
                assert(there * spacing == there) by (nonlinear_arith)
                    requires
                        spacing == 1,
                ;
            }
        }
        assert(there * d == multiple * unit) by (nonlinear_arith)
            requires
                there == multiple * spacing,
                unit == d * spacing,
        ;
        let far = distance(other, n, d);
        if multiple != significand {
            assert(significand == whole || significand == whole + 1);
            // another multiple is at least a whole spacing from the nearest
            assert(2 * far >= unit && (2 * far == unit ==> 2 * rest == unit)) by (nonlinear_arith)
                requires
                    n == unit * whole + rest,
                    0 <= rest < unit,
                    multiple != significand,
                    significand == whole || significand == whole + 1,
                    significand == whole ==> 2 * rest <= unit,
                    significand == whole + 1 ==> 2 * rest >= unit,
                    far == if multiple * unit >= n {
                        multiple * unit - n
                    } else {
                        n - multiple * unit
                    },
            ;
        } else {
            assert(there == value);
        }
    } else {
        // the other number lies below the digits of the fraction, at least half
        // a spacing from where they begin
        lemma_grid_below(other, excess);
        lemma_pow2_unfold(excess);
        lemma_pow2_adds(23, excess);
        let half = pow2((excess - 1) as nat) as int;
        let far = distance(other, n, d);
        assert(n >= pow2(23 + excess) * d) by (nonlinear_arith)
            requires
                n >= d * (n / d),
                n / d >= pow2(23 + excess),
                0 < d,
        ;
        assert(2 * far >= unit && (2 * far == unit ==> n == pow2(23 + excess) * d))
            by (nonlinear_arith)
            requires
                n >= pow2(23 + excess) * d,
                there <= pow2(23 + excess) - half,
                spacing == 2 * half,
                unit == d * spacing,
                0 < d,
                far == if there * d >= n {
                    there * d - n
                } else {
                    n - there * d
                },
        ;
        if 2 * far == unit {
            // then the fraction is a binary32 number itself, and nothing is lost
            assert(pow2(23 + excess) == 0x80_0000 * spacing);
            assert(n == 0x80_0000 * unit) by (nonlinear_arith)
                requires
                    n == pow2(23 + excess) * d,
                    pow2(23 + excess) == 0x80_0000 * spacing,
                    unit == d * spacing,
            ;
            lemma_round_monotone(n, unit, 0x80_0000);
            assert(near == 0);
            assert(far > 0);
        }
    }
}

/// A fraction of at least 2^277 units lies beyond the largest finite number:
/// it rounds to infinity.
pub proof fn lemma_nearest_beyond(n: int, d: int)
    requires
        0 < d,
        n >= pow2(277) * d,
    ensures
        nearest_pattern(n, d) == 0x7F80_0000,
{
    let excess = excess_bits(n / d);
    lemma_pow2_pos(277);
    lemma_mul_strictly_positive(pow2(277) as int, d);
    lemma_nearest_value(n, d);
    lemma_excess_bits_bounds(n / d);
    lemma2_to64();
    assert(n / d >= pow2(277)) by (nonlinear_arith)
        requires
            pow2(277) * d <= n,
            0 < d,
    ;
    if excess < 254 {
        if excess > 0 {
            if 24 + excess < 277 {
                lemma_pow2_strictly_increases(24 + excess, 277);
            }
        } else {
            lemma_pow2_strictly_increases(24, 277);
        }
        assert(false);
    }
}

/// A fraction of less than half a unit rounds to zero.
pub proof fn lemma_nearest_of_little(n: int, d: int)
    requires
        0 <= n,
        0 < d,
        2 * n < d,
    ensures
        nearest_pattern(n, d) == 0,
{
    lemma2_to64();
    lemma_small_mod(n as nat, d as nat);
    lemma_whole_part(n, d, 0, 1);
    assert(excess_bits(0) == 0);
    assert(d * pow2(0) == d);
}

/// A binary32 number rounds to itself.
pub proof fn lemma_nearest_of_number(pattern: int, d: int)
    requires
        0 <= pattern <= 0x7F80_0000,
        0 < d,
    ensures
        nearest_pattern(scaled(pattern) * d, d) == pattern,
{
    lemma_scaled_order(pattern, pattern);
    lemma_mul_nonnegative(scaled(pattern), d);
    lemma_nearest_between(scaled(pattern) * d, d, pattern, pattern);
}

/// A whole number below 2^24 is a binary32 number: it rounds to a number of
/// exactly its value.
pub proof fn lemma_whole_number(value: int)
    requires
        0 <= value < 0x100_0000,
    ensures
        0 <= nearest_pattern(value * pow2(149), 1) < 0x7F80_0000,
        scaled(nearest_pattern(value * pow2(149), 1)) == value * pow2(149),
        (nearest_pattern(value * pow2(149), 1) == 0) == (value == 0),
{
    let n = value * pow2(149);
    lemma_pow2_pos(149);
    lemma_mul_nonnegative(value, pow2(149) as int);
    let excess = excess_bits(n / 1);
    let spacing = pow2(excess) as int;
    let significand = round_half_even(n, 1 * spacing);
    lemma_nearest_value(n, 1);
    lemma_excess_bits_bounds(n);
    lemma2_to64();
    lemma_pow2_pos(excess);
    lemma_pow2_adds(24, 149);
    assert(n < pow2(173)) by (nonlinear_arith)
        requires
            n == value * pow2(149),
            value < 0x100_0000,
            pow2(173) == 0x100_0000 * pow2(149),
            0 < pow2(149),
    ;
    // the spacing divides 2^149
    assert(excess <= 149) by {
        if excess > 149 {
            if 23 + excess > 173 {
                lemma_pow2_strictly_increases(173, 23 + excess);
            }
            assert(false);
        }
    }
    let step = pow2((149 - excess) as nat) as int;
    assert((149 - excess) as nat + excess == 149);
    lemma_pow2_adds((149 - excess) as nat, excess);
    lemma_pow2_pos((149 - excess) as nat);
    assert(n == (value * step) * (1 * spacing)) by (nonlinear_arith)
        requires
            n == value * pow2(149),
            pow2(149) == step * spacing,
    ;
    lemma_mul_nonnegative(value, step);
    lemma_round_monotone(n, 1 * spacing, value * step);
    assert(significand * spacing == n) by (nonlinear_arith)
        requires
            significand == value * step,
            n == (value * step) * (1 * spacing),
    ;
    // the value is far below 2^277
    lemma_pow2_strictly_increases(173, 277);
    // zero alone has the pattern of zero
    lemma_scaled_order(nearest_pattern(n, 1), 0);
    assert((n == 0) == (value == 0)) by (nonlinear_arith)
        requires
            n == value * pow2(149),
            0 < pow2(149),
            0 <= value,
    ;
}

} // verus!
