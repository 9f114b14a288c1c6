//! Natural numbers of any size, for the arithmetic that decimal notation needs.
//!
//! A number is held as its digits to the base 2^32, the least first. Zero digits
//! at the end do not change the number.
use vstd::arithmetic::div_mod::*;
use vstd::arithmetic::mul::*;
use vstd::arithmetic::power2::*;
use vstd::prelude::*;

verus! {

/// The number that the digits to the base 2^32 stand for, the least digit
/// first.
pub open spec fn limbs_value(limbs: Seq<u32>) -> int
    decreases limbs.len(),
{
    if limbs.len() == 0 {
        0
    } else {
        limbs_value(limbs.drop_last()) + limbs.last() * pow2((32 * (limbs.len() - 1)) as nat)
    }
}

/// The digit at `index`, zero beyond the last digit.
pub open spec fn limb_at(limbs: Seq<u32>, index: int) -> u32 {
    if 0 <= index < limbs.len() {
        limbs[index]
    } else {
        0
    }
}

/// The number that the first `count` digits stand for, where digits beyond the
/// last are zero.
pub open spec fn low_value(limbs: Seq<u32>, count: nat) -> int
    decreases count,
{
    if count == 0 {
        0
    } else {
        low_value(limbs, (count - 1) as nat) + limb_at(limbs, count - 1) * pow2(
            (32 * (count - 1)) as nat,
        )
    }
}

/// A natural number of any size.
pub struct Natural {
    /// The digits to the base 2^32, the least first.
    pub limbs: Vec<u32>,
}

impl View for Natural {
    type V = int;

    open spec fn view(&self) -> int {
        limbs_value(self.limbs@)
    }
}

/// The first digits of a number stand for less than the power of the base that
/// follows them.
pub proof fn lemma_low_value_bound(limbs: Seq<u32>, count: nat)
    ensures
        low_value(limbs, count) < pow2(32 * count),
    decreases count,
{
    lemma2_to64();
    if count > 0 {
        lemma_low_value_bound(limbs, (count - 1) as nat);
        let below = pow2((32 * (count - 1)) as nat);
        assert(32 * count == 32 + 32 * (count - 1));
        lemma_pow2_adds(32, (32 * (count - 1)) as nat);
        assert(limb_at(limbs, count - 1) * below + below <= 0x1_0000_0000 * below)
            by (nonlinear_arith)
            requires
                limb_at(limbs, count - 1) < 0x1_0000_0000,
        ;
    }
}

/// The first digits of a number are the number, once all its digits are
/// among them.
pub proof fn lemma_low_value_all(limbs: Seq<u32>, count: nat)
    requires
        count >= limbs.len(),
    ensures
        low_value(limbs, count) == limbs_value(limbs),
    decreases count,
{
    if count > limbs.len() {
        lemma_low_value_all(limbs, (count - 1) as nat);
        assert(limb_at(limbs, count - 1) == 0);
        assert(0 * pow2((32 * (count - 1)) as nat) == 0);
    } else if count > 0 {
        lemma_low_value_prefix(limbs, count);
        assert(limbs.take(count as int) == limbs);
    }
}

/// The first digits of a number are the number of its first digits.
pub proof fn lemma_low_value_prefix(limbs: Seq<u32>, count: nat)
    requires
        count <= limbs.len(),
    ensures
        low_value(limbs, count) == limbs_value(limbs.take(count as int)),
    decreases count,
{
    if count > 0 {
        lemma_low_value_prefix(limbs, (count - 1) as nat);
        assert(limbs.take(count as int).drop_last() == limbs.take(count - 1));
        assert(limbs.take(count as int).last() == limbs[count - 1]);
    }
}

/// A number with one more digit.
pub proof fn lemma_limbs_push(limbs: Seq<u32>, limb: u32)
    ensures
        limbs_value(limbs.push(limb)) == limbs_value(limbs) + limb * pow2(
            (32 * limbs.len()) as nat,
        ),
{
    assert(limbs.push(limb).drop_last() == limbs);
}

impl Natural {
    /// The natural number of a machine number.
    pub fn from_small(value: u32) -> (r: Natural)
        ensures
            r@ == value,
    {
        let mut limbs: Vec<u32> = Vec::new();
        limbs.push(value);
        proof {
            lemma2_to64();
            lemma_limbs_push(Seq::<u32>::empty(), value);
            assert(Seq::<u32>::empty().push(value) == limbs@);
            assert(value * pow2(0) == value);
        }
        Natural { limbs }
    }

    /// Tells whether the number is zero.
    pub fn is_zero(&self) -> (r: bool)
        ensures
            r == (self@ == 0),
    {
        let mut i: usize = 0;
        while i < self.limbs.len()
            invariant
                i <= self.limbs@.len(),
                low_value(self.limbs@, i as nat) == 0,
            decreases self.limbs@.len() - i,
        {
            if self.limbs[i] != 0 {
                proof {
                    let rest = self.limbs@;
                    lemma_low_value_all(rest, rest.len());
                    lemma_low_value_grows(rest, (i + 1) as nat, rest.len());
                    lemma_pow2_pos((32 * i) as nat);
                    assert(rest[i as int] * pow2((32 * i) as nat) > 0) by (nonlinear_arith)
                        requires
                            rest[i as int] > 0,
                            pow2((32 * i) as nat) > 0,
                    ;
                }
                return false;
            }
            proof {
                assert(0 * pow2((32 * i) as nat) == 0);
            }
            i += 1;
        }
        proof {
            lemma_low_value_all(self.limbs@, self.limbs@.len());
        }
        true
    }

    /// Multiplies by a machine number and adds another: `self * factor + addend`.
    pub fn times_plus(&self, factor: u32, addend: u32) -> (r: Natural)
        ensures
            r@ == self@ * factor + addend,
    {
        let mut limbs: Vec<u32> = Vec::new();
        let mut carry: u64 = addend as u64;
        let mut i: usize = 0;
        proof {
            lemma2_to64();
            assert(carry * pow2(0) == carry);
            assert(0 * factor == 0);
        }
        while i < self.limbs.len()
            invariant
                i <= self.limbs@.len(),
                limbs@.len() == i,
                carry < 0x1_0000_0000,
                limbs_value(limbs@) + carry * pow2((32 * i) as nat) == low_value(
                    self.limbs@,
                    i as nat,
                ) * factor + addend,
            decreases self.limbs@.len() - i,
        {
            let limb = self.limbs[i];
            proof {
                assert(limb * factor + carry <= 0xFFFF_FFFF * 0xFFFF_FFFF + 0xFFFF_FFFF)
                    by (nonlinear_arith)
                    requires
                        limb <= 0xFFFF_FFFF,
                        factor <= 0xFFFF_FFFF,
                        carry <= 0xFFFF_FFFF,
                ;
            }
            let total: u64 = (limb as u64) * (factor as u64) + carry;
            let low: u32 = (total % 0x1_0000_0000) as u32;
            let high: u64 = total / 0x1_0000_0000;
            proof {
                let place = pow2((32 * i) as nat) as int;
                let next = pow2((32 * (i + 1)) as nat) as int;
                lemma2_to64();
                assert(32 * (i + 1) == 32 + 32 * i);
                lemma_pow2_adds(32, (32 * i) as nat);
                lemma_limbs_push(limbs@, low);
                assert(total == 0x1_0000_0000 * high + low);
                // what was there, and the carry, become the new digit and the
                // new carry
                assert(low * place + high * next == (limb * factor + carry) * place)
                    by (nonlinear_arith)
                    requires
                        limb * factor + carry == 0x1_0000_0000 * high + low,
                        next == 0x1_0000_0000 * place,
                ;
                assert((low_value(self.limbs@, i as nat) + limb * place) * factor == low_value(
                    self.limbs@,
                    i as nat,
                ) * factor + (limb * factor) * place) by (nonlinear_arith);
                assert((limb * factor + carry) * place == (limb * factor) * place + carry * place)
                    by (nonlinear_arith);
            }
            limbs.push(low);
            carry = high;
            i += 1;
        }
        proof {
            lemma_low_value_all(self.limbs@, self.limbs@.len());
            lemma_limbs_push(limbs@, carry as u32);
        }
        if carry != 0 {
            limbs.push(carry as u32);
        } else {
            proof {
                assert(0 * pow2((32 * i) as nat) == 0);
            }
        }
        Natural { limbs }
    }

    /// Tells whether this number is at least the other.
    pub fn is_at_least(&self, other: &Natural) -> (r: bool)
        ensures
            r == (self@ >= other@),
    {
        let ours = self.limbs.len();
        let theirs = other.limbs.len();
        let mut i: usize = if ours >= theirs {
            ours
        } else {
            theirs
        };
        proof {
            lemma_low_value_all(self.limbs@, i as nat);
            lemma_low_value_all(other.limbs@, i as nat);
        }
        while i > 0
            invariant
                ours == self.limbs@.len(),
                theirs == other.limbs@.len(),
                (self@ >= other@) == (low_value(self.limbs@, i as nat) >= low_value(
                    other.limbs@,
                    i as nat,
                )),
            decreases i,
        {
            let a: u32 = if i - 1 < ours {
                self.limbs[i - 1]
            } else {
                0
            };
            let b: u32 = if i - 1 < theirs {
                other.limbs[i - 1]
            } else {
                0
            };
            proof {
                let place = pow2((32 * (i - 1)) as nat) as int;
                lemma_low_value_bound(self.limbs@, (i - 1) as nat);
                lemma_low_value_bound(other.limbs@, (i - 1) as nat);
                lemma_low_value_grows(self.limbs@, 0, (i - 1) as nat);
                lemma_low_value_grows(other.limbs@, 0, (i - 1) as nat);
                assert(a == limb_at(self.limbs@, i - 1));
                assert(b == limb_at(other.limbs@, i - 1));
                if a > b {
                    assert(a * place >= b * place + place) by (nonlinear_arith)
                        requires
                            a >= b + 1,
                            0 <= place,
                    ;
                }
                if a < b {
                    assert(b * place >= a * place + place) by (nonlinear_arith)
                        requires
                            b >= a + 1,
                            0 <= place,
                    ;
                }
            }
            if a > b {
                return true;
            }
            if a < b {
                return false;
            }
            i -= 1;
        }
        true
    }

    /// Takes the other number from this one.
    pub fn minus(&self, other: &Natural) -> (r: Natural)
        requires
            self@ >= other@,
        ensures
            r@ == self@ - other@,
    {
        let ours = self.limbs.len();
        let theirs = other.limbs.len();
        let mut limbs: Vec<u32> = Vec::new();
        let mut borrow: u64 = 0;
        let mut i: usize = 0;
        proof {
            lemma2_to64();
            assert(borrow * pow2(0) == 0);
        }
        while i < ours
            invariant
                i <= ours,
                ours == self.limbs@.len(),
                theirs == other.limbs@.len(),
                limbs@.len() == i,
                borrow <= 1,
                limbs_value(limbs@) + low_value(other.limbs@, i as nat) == low_value(
                    self.limbs@,
                    i as nat,
                ) + borrow * pow2((32 * i) as nat),
            decreases ours - i,
        {
            let a: u64 = self.limbs[i] as u64;
            let b: u64 = if i < theirs {
                other.limbs[i] as u64
            } else {
                0
            };
            let taken: u64 = b + borrow;
            let (digit, next_borrow): (u32, u64) = if a >= taken {
                ((a - taken) as u32, 0)
            } else {
                ((a + 0x1_0000_0000 - taken) as u32, 1)
            };
            proof {
                let place = pow2((32 * i) as nat) as int;
                let next = pow2((32 * (i + 1)) as nat) as int;
                lemma2_to64();
                assert(32 * (i + 1) == 32 + 32 * i);
                lemma_pow2_adds(32, (32 * i) as nat);
                lemma_limbs_push(limbs@, digit);
                assert(b == limb_at(other.limbs@, i as int));
                assert(digit + b + borrow == a + next_borrow * 0x1_0000_0000);
                assert(digit * place + b * place + borrow * place == a * place + next_borrow * next)
                    by (nonlinear_arith)
                    requires
                        digit + b + borrow == a + next_borrow * 0x1_0000_0000,
                        next == 0x1_0000_0000 * place,
                ;
            }
            limbs.push(digit);
            borrow = next_borrow;
            i += 1;
        }
        proof {
            // nothing is borrowed from beyond the last digit
            let place = pow2((32 * ours) as nat) as int;
            lemma_low_value_all(self.limbs@, ours as nat);
            lemma_low_value_bound(self.limbs@, ours as nat);
            lemma_low_value_bound(limbs@, ours as nat);
            lemma_low_value_all(limbs@, ours as nat);
            lemma_pow2_pos((32 * ours) as nat);
            lemma_low_value_grows(other.limbs@, 0, ours as nat);
            let beyond = if theirs <= ours {
                lemma_low_value_all(other.limbs@, ours as nat);
                0
            } else {
                lemma_low_value_all(other.limbs@, theirs as nat);
                lemma_low_value_split(other.limbs@, ours as nat, theirs as nat)
            };
            assert(other@ == low_value(other.limbs@, ours as nat) + beyond * place);
            assert(beyond >= 1 ==> beyond * place >= place) by (nonlinear_arith)
                requires
                    0 < place,
            ;
            assert(beyond == 0);
            assert(borrow == 0) by (nonlinear_arith)
                requires
                    limbs_value(limbs@) + low_value(other.limbs@, ours as nat) == self@ + borrow
                        * place,
                    low_value(other.limbs@, ours as nat) <= self@,
                    limbs_value(limbs@) < place,
                    borrow <= 1,
            ;
            assert(0 * place == 0);
        }
        Natural { limbs }
    }
}

/// What more digits stand for is what fewer stand for, and a multiple of the
/// power of the base beyond the fewer.
pub proof fn lemma_low_value_split(limbs: Seq<u32>, fewer: nat, more: nat) -> (multiple: int)
    requires
        fewer <= more,
    ensures
        0 <= multiple,
        0 <= low_value(limbs, fewer),
        low_value(limbs, more) == low_value(limbs, fewer) + multiple * pow2(32 * fewer),
    decreases more - fewer,
{
    lemma_low_value_grows(limbs, 0, fewer);
    if fewer == more {
        assert(0 * pow2(32 * fewer) == 0);
        0
    } else {
        let below = lemma_low_value_split(limbs, fewer, (more - 1) as nat);
        let step = pow2((32 * (more - 1 - fewer)) as nat) as int;
        let limb = limb_at(limbs, more - 1) as int;
        assert(32 * fewer + 32 * (more - 1 - fewer) == 32 * (more - 1));
        lemma_pow2_adds(32 * fewer, (32 * (more - 1 - fewer)) as nat);
        lemma_pow2_pos((32 * (more - 1 - fewer)) as nat);
        lemma_mul_nonnegative(limb, step);
        assert(limb * pow2((32 * (more - 1)) as nat) == (limb * step) * pow2(32 * fewer))
            by (nonlinear_arith)
            requires
                pow2((32 * (more - 1)) as nat) == pow2(32 * fewer) * step,
        ;
        assert((below + limb * step) * pow2(32 * fewer) == below * pow2(32 * fewer) + (limb
            * step) * pow2(32 * fewer)) by (nonlinear_arith);
        below + limb * step
    }
}

/// A natural number is not negative.
pub proof fn lemma_not_negative(limbs: Seq<u32>)
    ensures
        0 <= limbs_value(limbs),
{
    lemma_low_value_all(limbs, limbs.len());
    lemma_low_value_grows(limbs, 0, limbs.len());
}

/// More digits stand for no less.
pub proof fn lemma_low_value_grows(limbs: Seq<u32>, fewer: nat, more: nat)
    requires
        fewer <= more,
    ensures
        low_value(limbs, fewer) <= low_value(limbs, more),
    decreases more - fewer,
{
    if fewer < more {
        lemma_low_value_grows(limbs, fewer, (more - 1) as nat);
        lemma_pow2_pos((32 * (more - 1)) as nat);
        lemma_mul_nonnegative(
            limb_at(limbs, more - 1) as int,
            pow2((32 * (more - 1)) as nat) as int,
        );
    }
}

} // verus!
