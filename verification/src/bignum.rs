//! Natural numbers of any size, as far as the digits of a double need them.

use vstd::arithmetic::power2::{lemma_pow2_adds, lemma_pow2_pos, lemma2_to64, pow2};
use vstd::prelude::*;

verus! {

/// The base of the limbs of a natural number: two to the power 32.
pub const BASE: u64 = 0x1_0000_0000;

/// The number that limbs stand for, the lowest first.
pub open spec fn limbs_value(limbs: Seq<u32>) -> nat
    decreases limbs.len(),
{
    if limbs.len() == 0 {
        0
    } else {
        (limbs_value(limbs.drop_last()) + limbs.last() * pow2((32 * (limbs.len() - 1)) as nat)) as nat
    }
}

/// The weight of the limb at a place.
pub open spec fn weight(place: nat) -> nat {
    pow2(32 * place)
}

/// The weight of the next place is the base times the weight of a place.
pub proof fn lemma_weight_next(place: nat)
    ensures
        weight(place + 1) == BASE * weight(place),
        weight(place) >= 1,
        weight(0) == 1,
{
    lemma2_to64();
    lemma_pow2_adds(32, 32 * place);
    lemma_pow2_pos(32 * place);
    assert(32 * (place + 1) == 32 + 32 * place);
}

/// Limbs stand for less than the weight of the place after them.
pub proof fn lemma_limbs_bound(limbs: Seq<u32>)
    ensures
        limbs_value(limbs) < weight(limbs.len()),
    decreases limbs.len(),
{
    if limbs.len() == 0 {
        lemma_weight_next(0);
    } else {
        lemma_limbs_bound(limbs.drop_last());
        let place = (limbs.len() - 1) as nat;
        lemma_weight_next(place);
        assert(limbs.last() * weight(place) <= (BASE - 1) * weight(place)) by (nonlinear_arith)
            requires
                limbs.last() <= BASE - 1,
                weight(place) >= 1,
        ;
        assert((BASE - 1) * weight(place) + weight(place) == BASE * weight(place))
            by (nonlinear_arith);
    }
}

/// One more limb on top adds its value by its weight.
pub proof fn lemma_limbs_push(limbs: Seq<u32>, top: u32)
    ensures
        limbs_value(limbs.push(top)) == limbs_value(limbs) + top * weight(limbs.len()),
{
    assert(limbs.push(top).drop_last() =~= limbs);
}

/// The number that the limbs below a place stand for.
pub open spec fn low_value(limbs: Seq<u32>, place: int) -> nat {
    if place >= limbs.len() {
        limbs_value(limbs)
    } else if place <= 0 {
        0
    } else {
        limbs_value(limbs.subrange(0, place))
    }
}

/// The limb at a place; zero above the highest one.
pub open spec fn limb_at(limbs: Seq<u32>, place: int) -> nat {
    if 0 <= place < limbs.len() {
        limbs[place] as nat
    } else {
        0
    }
}

/// The limbs below the next place stand for those below a place and the limb
/// at the place by its weight.
pub proof fn lemma_low_value_next(limbs: Seq<u32>, place: nat)
    ensures
        low_value(limbs, place as int + 1) == low_value(limbs, place as int) + limb_at(
            limbs,
            place as int,
        ) * weight(place),
        low_value(limbs, place as int) < weight(place),
        low_value(limbs, 0) == 0,
{
    lemma_weight_next(place);
    if place < limbs.len() {
        let upper = limbs.subrange(0, place as int + 1);
        assert(upper.drop_last() =~= limbs.subrange(0, place as int));
        assert(upper.last() == limbs[place as int]);
        if place + 1 == limbs.len() {
            assert(upper =~= limbs);
        }
        if place == 0 {
            assert(limbs.subrange(0, 0) =~= Seq::<u32>::empty());
            assert(limbs_value(Seq::<u32>::empty()) == 0);
        }
        lemma_limbs_bound(limbs.subrange(0, place as int));
    } else {
        lemma_limbs_bound(limbs);
        assert(0 * weight(place) == 0) by (nonlinear_arith);
        if place > limbs.len() {
            vstd::arithmetic::power2::lemma_pow2_strictly_increases(
                32 * limbs.len(),
                32 * place,
            );
        }
    }
}

/// A natural number of any size.
pub struct Big {
    limbs: Vec<u32>,
}

impl View for Big {
    type V = nat;

    closed spec fn view(&self) -> nat {
        limbs_value(self.limbs@)
    }
}

impl Big {
    pub fn from_u64(x: u64) -> (r: Big)
        ensures
            r@ == x,
    {
        let mut limbs: Vec<u32> = Vec::new();
        let lower = (x % BASE) as u32;
        let upper = (x / BASE) as u32;
        limbs.push(lower);
        proof {
            lemma_limbs_push(Seq::empty(), lower);
            lemma_weight_next(0);
            assert(limbs_value(Seq::<u32>::empty()) == 0);
            assert(Seq::<u32>::empty().push(lower) =~= limbs@);
            assert(lower * weight(0) == lower) by (nonlinear_arith)
                requires
                    weight(0) == 1,
            ;
            assert(limbs_value(limbs@) == lower);
        }
        let ghost one = limbs@;
        limbs.push(upper);
        proof {
            lemma_limbs_push(one, upper);
            lemma_weight_next(0);
            assert(weight(1) == BASE);
            assert(upper * weight(1) == upper * BASE) by (nonlinear_arith)
                requires
                    weight(1) == BASE,
            ;
            assert(one.push(upper) =~= limbs@);
            assert(limbs_value(limbs@) == lower + upper * BASE);
        }
        Big { limbs }
    }

    /// The product of the number and a small factor.
    pub fn mul_small(&self, factor: u32) -> (r: Big)
        ensures
            r@ == self@ * factor,
    {
        let mut out: Vec<u32> = Vec::new();
        let mut carry: u64 = 0;
        let mut i: usize = 0;
        proof {
            lemma_low_value_next(self.limbs@, 0);
            assert(limbs_value(Seq::<u32>::empty()) == 0);
            lemma_weight_next(0);
            assert(0 * factor == 0) by (nonlinear_arith);
            assert(0 * weight(0) == 0) by (nonlinear_arith);
        }
        while i < self.limbs.len()
            invariant
                i <= self.limbs.len(),
                out.len() == i,
                carry < BASE,
                limbs_value(out@) + carry * weight(i as nat) == low_value(self.limbs@, i as int)
                    * factor,
            decreases self.limbs.len() - i,
        {
            let limb = self.limbs[i];
            assert(limb * factor + carry < BASE * BASE) by (nonlinear_arith)
                requires
                    limb < BASE,
                    factor < BASE,
                    carry < BASE,
                    BASE == 0x1_0000_0000,
            ;
            let total: u64 = limb as u64 * factor as u64 + carry;
            let lower = (total % BASE) as u32;
            let upper: u64 = total / BASE;
            proof {
                let w = weight(i as nat);
                lemma_limbs_push(out@, lower);
                lemma_low_value_next(self.limbs@, i as nat);
                lemma_weight_next(i as nat);
                let below = low_value(self.limbs@, i as int);
                assert(limbs_value(out@) + lower * w + upper * (BASE * w) == (below + limb * w)
                    * factor) by (nonlinear_arith)
                    requires
                        limbs_value(out@) + carry * w == below * factor,
                        limb * factor + carry == upper * BASE + lower,
                ;
            }
            out.push(lower);
            carry = upper;
            i = i + 1;
        }
        let top = carry as u32;
        proof {
            lemma_limbs_push(out@, top);
        }
        out.push(top);
        Big { limbs: out }
    }

    /// Whether the number is at least as large as another.
    pub fn ge(&self, other: &Big) -> (r: bool)
        ensures
            r == (self@ >= other@),
    {
        let count = if self.limbs.len() >= other.limbs.len() {
            self.limbs.len()
        } else {
            other.limbs.len()
        };
        let mut at_least = true;
        let mut i: usize = 0;
        proof {
            lemma_low_value_next(self.limbs@, 0);
            lemma_low_value_next(other.limbs@, 0);
        }
        while i < count
            invariant
                i <= count,
                count >= self.limbs.len(),
                count >= other.limbs.len(),
                at_least == (low_value(self.limbs@, i as int) >= low_value(
                    other.limbs@,
                    i as int,
                )),
            decreases count - i,
        {
            let mine: u32 = if i < self.limbs.len() {
                self.limbs[i]
            } else {
                0
            };
            let theirs: u32 = if i < other.limbs.len() {
                other.limbs[i]
            } else {
                0
            };
            proof {
                let w = weight(i as nat);
                lemma_low_value_next(self.limbs@, i as nat);
                lemma_low_value_next(other.limbs@, i as nat);
                if mine > theirs {
                    assert(mine * w >= theirs * w + w) by (nonlinear_arith)
                        requires
                            mine >= theirs + 1,
                            w >= 0,
                    ;
                }
                if mine < theirs {
                    assert(theirs * w >= mine * w + w) by (nonlinear_arith)
                        requires
                            theirs >= mine + 1,
                            w >= 0,
                    ;
                }
            }
            if mine > theirs {
                at_least = true;
            } else if mine < theirs {
                at_least = false;
            }
            i = i + 1;
        }
        at_least
    }

    /// The sum of the number and another.
    pub fn add(&self, other: &Big) -> (r: Big)
        ensures
            r@ == self@ + other@,
    {
        let count = if self.limbs.len() >= other.limbs.len() {
            self.limbs.len()
        } else {
            other.limbs.len()
        };
        let mut out: Vec<u32> = Vec::new();
        let mut carry: u64 = 0;
        let mut i: usize = 0;
        proof {
            lemma_low_value_next(self.limbs@, 0);
            lemma_low_value_next(other.limbs@, 0);
            assert(limbs_value(Seq::<u32>::empty()) == 0);
            assert(0 * weight(0) == 0) by (nonlinear_arith);
        }
        while i < count
            invariant
                i <= count,
                count >= self.limbs.len(),
                count >= other.limbs.len(),
                out.len() == i,
                carry <= 1,
                limbs_value(out@) + carry * weight(i as nat) == low_value(self.limbs@, i as int)
                    + low_value(other.limbs@, i as int),
            decreases count - i,
        {
            let mine: u32 = if i < self.limbs.len() {
                self.limbs[i]
            } else {
                0
            };
            let theirs: u32 = if i < other.limbs.len() {
                other.limbs[i]
            } else {
                0
            };
            let total: u64 = mine as u64 + theirs as u64 + carry;
            let lower = (total % BASE) as u32;
            let upper: u64 = total / BASE;
            proof {
                let w = weight(i as nat);
                lemma_limbs_push(out@, lower);
                lemma_low_value_next(self.limbs@, i as nat);
                lemma_low_value_next(other.limbs@, i as nat);
                lemma_weight_next(i as nat);
                let a = low_value(self.limbs@, i as int);
                let b = low_value(other.limbs@, i as int);
                assert(limbs_value(out@) + lower * w + upper * (BASE * w) == (a + mine * w) + (b
                    + theirs * w)) by (nonlinear_arith)
                    requires
                        limbs_value(out@) + carry * w == a + b,
                        mine + theirs + carry == upper * BASE + lower,
                ;
            }
            out.push(lower);
            carry = upper;
            i = i + 1;
        }
        let top = carry as u32;
        proof {
            lemma_limbs_push(out@, top);
        }
        out.push(top);
        Big { limbs: out }
    }

    /// The difference of the number and another that is no larger.
    pub fn sub(&self, other: &Big) -> (r: Big)
        requires
            self@ >= other@,
        ensures
            r@ == self@ - other@,
    {
        let count = if self.limbs.len() >= other.limbs.len() {
            self.limbs.len()
        } else {
            other.limbs.len()
        };
        let mut out: Vec<u32> = Vec::new();
        let mut borrow: u64 = 0;
        let mut i: usize = 0;
        proof {
            lemma_low_value_next(self.limbs@, 0);
            lemma_low_value_next(other.limbs@, 0);
            assert(limbs_value(Seq::<u32>::empty()) == 0);
            assert(0 * weight(0) == 0) by (nonlinear_arith);
        }
        while i < count
            invariant
                i <= count,
                count >= self.limbs.len(),
                count >= other.limbs.len(),
                out.len() == i,
                borrow <= 1,
                limbs_value(out@) + low_value(other.limbs@, i as int) == low_value(
                    self.limbs@,
                    i as int,
                ) + borrow * weight(i as nat),
            decreases count - i,
        {
            let mine: u32 = if i < self.limbs.len() {
                self.limbs[i]
            } else {
                0
            };
            let theirs: u32 = if i < other.limbs.len() {
                other.limbs[i]
            } else {
                0
            };
            let taken: u64 = theirs as u64 + borrow;
            let (lower, next): (u32, u64) = if mine as u64 >= taken {
                ((mine as u64 - taken) as u32, 0)
            } else {
                ((mine as u64 + BASE - taken) as u32, 1)
            };
            proof {
                let w = weight(i as nat);
                lemma_limbs_push(out@, lower);
                lemma_low_value_next(self.limbs@, i as nat);
                lemma_low_value_next(other.limbs@, i as nat);
                lemma_weight_next(i as nat);
                let a = low_value(self.limbs@, i as int);
                let b = low_value(other.limbs@, i as int);
                assert(limbs_value(out@) + lower * w + (b + theirs * w) == (a + mine * w) + next
                    * (BASE * w)) by (nonlinear_arith)
                    requires
                        limbs_value(out@) + b == a + borrow * w,
                        lower + theirs + borrow == mine + next * BASE,
                ;
            }
            out.push(lower);
            borrow = next;
            i = i + 1;
        }
        proof {
            lemma_limbs_bound(out@);
            let w = weight(count as nat);
            assert(borrow == 0) by {
                if borrow == 1 {
                    assert(1 * w == w) by (nonlinear_arith);
                }
            }
            assert(0 * w == 0) by (nonlinear_arith);
        }
        Big { limbs: out }
    }
}

} // verus!
