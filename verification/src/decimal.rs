//! The digits of the shortest decimal that is read back as a given number.

use crate::bignum::Big;
use crate::number::{digit, digit_char};
use vstd::arithmetic::div_mod::{
    lemma_fundamental_div_mod, lemma_fundamental_div_mod_converse, lemma_mod_bound,
};
use vstd::arithmetic::power::{lemma_pow0, lemma_pow1, lemma_pow_positive, pow};
use vstd::prelude::*;

verus! {

/// Whether what is left of a fraction lies within the margin below: the
/// digits so far, as they are, stand for a decimal close enough.
pub open spec fn low(rest: int, below: int, closed: bool) -> bool {
    if closed {
        rest <= below
    } else {
        rest < below
    }
}

/// Whether what is left of a fraction lies within the margin above of the
/// next decimal: the digits so far, with the last one raised by one, stand
/// for a decimal close enough.
pub open spec fn high(rest: int, above: int, den: int, closed: bool) -> bool {
    if closed {
        rest + above >= den
    } else {
        rest + above > den
    }
}

/// The digits after the point of the shortest decimal that lies within the
/// margins of the fraction `r / den`: no further from it than `below / den`
/// below and `above / den` above, the bounds counted in where `closed`.
/// Digit after digit is taken off the fraction until the decimal so far, or
/// the next one above it, lies within the margins; of the two the nearer one
/// is taken, the upper one where they are equally near.
pub open spec fn fraction_digits(r: int, below: int, above: int, den: int, closed: bool) -> Seq<int>
    decreases den - below,
{
    if den <= 0 || below < 1 {
        Seq::empty()
    } else {
        let digit = (10 * r) / den;
        let rest = (10 * r) % den;
        if low(rest, 10 * below, closed) || high(rest, 10 * above, den, closed) {
            if high(rest, 10 * above, den, closed) && (!low(rest, 10 * below, closed) || 2 * rest
                >= den) {
                seq![digit + 1]
            } else {
                seq![digit]
            }
        } else {
            proof {
                lemma_mod_bound(10 * r, den);
            }
            seq![digit] + fraction_digits(rest, 10 * below, 10 * above, den, closed)
        }
    }
}

/// The least number of places, from `places` on, at which a number with the
/// margin above it does not reach the power of ten: the number is `r / 4`,
/// the margin `above / 4`.
pub open spec fn places_from(r: int, above: int, closed: bool, places: nat) -> nat
    decreases
        if high(r, above, 4 * pow10(places), closed) {
            r + above - 4 * pow10(places) + 1
        } else {
            0
        },
{
    if high(r, above, 4 * pow10(places), closed) {
        proof {
            lemma_pow10_next(places);
        }
        places_from(r, above, closed, places + 1)
    } else {
        places
    }
}

/// A run of zeros.
pub open spec fn zeros(count: int) -> Seq<char> {
    Seq::new(
        if count < 0 {
            0
        } else {
            count as nat
        },
        |i: int| '0',
    )
}

/// The characters of a sequence of digits.
pub open spec fn digit_text(digits: Seq<int>) -> Seq<char> {
    Seq::new(digits.len(), |i: int| digit_char(digits[i]))
}

/// The number that a sequence of digits spells.
pub open spec fn digits_value(digits: Seq<int>) -> int
    decreases digits.len(),
{
    if digits.len() == 0 {
        0
    } else {
        10 * digits_value(digits.drop_last()) + digits.last()
    }
}

/// Ten to a power.
pub open spec fn pow10(places: nat) -> int {
    pow(10, places)
}

/// How far the decimal `numerator / 10^places` lies above the fraction
/// `r / den`, as a multiple of `1 / (den * 10^places)`.
pub open spec fn offset(numerator: int, places: nat, r: int, den: int) -> int {
    numerator * den - r * pow10(places)
}

/// Whether the decimal `numerator / 10^places` lies within the margins of the
/// fraction `r / den`.
pub open spec fn within(
    numerator: int,
    places: nat,
    r: int,
    below: int,
    above: int,
    den: int,
    closed: bool,
) -> bool {
    let off = offset(numerator, places, r, den);
    if closed {
        -below * pow10(places) <= off <= above * pow10(places)
    } else {
        -below * pow10(places) < off < above * pow10(places)
    }
}

/// The distance of a decimal from the fraction.
pub open spec fn distance(numerator: int, places: nat, r: int, den: int) -> int {
    if offset(numerator, places, r, den) < 0 {
        -offset(numerator, places, r, den)
    } else {
        offset(numerator, places, r, den)
    }
}

/// Ten to the next power is ten times ten to the power.
pub proof fn lemma_pow10_next(places: nat)
    ensures
        pow10(places + 1) == 10 * pow10(places),
        pow10(places) >= 1,
        pow10(0) == 1,
{
    reveal(pow);
    lemma_pow_positive(10, places);
    lemma_pow0(10);
}

/// With its first digit taken off, a decimal lies as far from what is left of
/// the fraction as it lay from the fraction.
proof fn lemma_shift(numerator: int, places: nat, r: int, den: int)
    requires
        den > 0,
    ensures
        offset(numerator, places + 1, r, den) == offset(
            numerator - ((10 * r) / den) * pow10(places),
            places,
            (10 * r) % den,
            den,
        ),
{
    let d = (10 * r) / den;
    let rest = (10 * r) % den;
    let p = pow10(places);
    lemma_fundamental_div_mod(10 * r, den);
    lemma_pow10_next(places);
    assert(numerator * den - r * (10 * p) == (numerator - d * p) * den - rest * p)
        by (nonlinear_arith)
        requires
            10 * r == den * d + rest,
    ;
}

/// A digit before a sequence of digits counts by its place.
proof fn lemma_digits_value_first(first: int, rest: Seq<int>)
    ensures
        digits_value(seq![first] + rest) == first * pow10(rest.len()) + digits_value(rest),
    decreases rest.len(),
{
    let all = seq![first] + rest;
    if rest.len() == 0 {
        assert(all.drop_last() =~= Seq::<int>::empty());
        lemma_pow10_next(0);
        assert(digits_value(all) == 10 * digits_value(all.drop_last()) + all.last());
    } else {
        assert(all.drop_last() =~= seq![first] + rest.drop_last());
        assert(all.last() == rest.last());
        lemma_digits_value_first(first, rest.drop_last());
        lemma_pow10_next((rest.len() - 1) as nat);
        assert(digits_value(all) == 10 * digits_value(all.drop_last()) + all.last());
        assert(10 * (first * pow10((rest.len() - 1) as nat)) == first * (10 * pow10(
            (rest.len() - 1) as nat,
        ))) by (nonlinear_arith);
    }
}

/// With its first digit taken off, a decimal lies within the margins of
/// what is left of the fraction exactly if it lay within those of the
/// fraction, and as far from it.
proof fn lemma_within_shift(
    numerator: int,
    places: nat,
    r: int,
    below: int,
    above: int,
    den: int,
    closed: bool,
)
    requires
        den > 0,
    ensures
        within(numerator, (places + 1) as nat, r, below, above, den, closed) == within(
            numerator - ((10 * r) / den) * pow10(places),
            places,
            (10 * r) % den,
            10 * below,
            10 * above,
            den,
            closed,
        ),
        distance(numerator, (places + 1) as nat, r, den) == distance(
            numerator - ((10 * r) / den) * pow10(places),
            places,
            (10 * r) % den,
            den,
        ),
{
    lemma_shift(numerator, places, r, den);
    lemma_pow10_next(places);
    assert(below * (10 * pow10(places)) == (10 * below) * pow10(places)) by (nonlinear_arith);
    assert(above * (10 * pow10(places)) == (10 * above) * pow10(places)) by (nonlinear_arith);
    assert((-below) * (10 * pow10(places)) == (-(10 * below)) * pow10(places))
        by (nonlinear_arith);
}

/// The one digit at which `fraction_digits` ends is well chosen.
proof fn lemma_last_digit(rest: int, below: int, above: int, den: int, closed: bool, choice: int)
    requires
        den > 0,
        0 <= rest < den,
        below >= 1,
        above >= 1,
        low(rest, below, closed) || high(rest, above, den, closed),
        choice == if high(rest, above, den, closed) && (!low(rest, below, closed) || 2 * rest
            >= den) {
            1int
        } else {
            0int
        },
    ensures
        within(choice, 0, rest, below, above, den, closed),
        forall|j: int| #[trigger]
            within(j, 0, rest, below, above, den, closed) ==> distance(choice, 0, rest, den)
                <= distance(j, 0, rest, den) && (distance(choice, 0, rest, den) == distance(
                j,
                0,
                rest,
                den,
            ) ==> j <= choice),
{
    lemma_pow10_next(0);
    assert(offset(choice, 0, rest, den) == choice * den - rest);
    assert(choice * den == if choice == 1 {
        den
    } else {
        0
    }) by (nonlinear_arith)
        requires
            choice == 0 || choice == 1,
    ;
    assert forall|j: int| #[trigger] within(j, 0, rest, below, above, den, closed) implies distance(
        choice,
        0,
        rest,
        den,
    ) <= distance(j, 0, rest, den) && (distance(choice, 0, rest, den) == distance(j, 0, rest, den)
        ==> j <= choice) by {
        assert(offset(j, 0, rest, den) == j * den - rest);
        if j <= 0 {
            assert(j * den <= 0 && (j < 0 ==> j * den <= -den)) by (nonlinear_arith)
                requires
                    j <= 0,
                    den > 0,
            ;
        } else {
            assert(j * den >= den && (j > 1 ==> j * den >= 2 * den)) by (nonlinear_arith)
                requires
                    j >= 1,
                    den > 0,
            ;
        }
    }
}

/// What the digits of `fraction_digits` are good for. They spell a decimal
/// that lies within the margins of the fraction; no decimal of fewer places
/// does; and of the decimals of as many places that do, none lies nearer to
/// the fraction, and none that lies as near lies above it.
pub proof fn lemma_fraction_digits(r: int, below: int, above: int, den: int, closed: bool)
    requires
        den > 0,
        0 <= r < den,
        below >= 1,
        above >= 1,
        !low(r, below, closed),
        !high(r, above, den, closed),
    ensures
        fraction_digits(r, below, above, den, closed).len() >= 1,
        within(
            digits_value(fraction_digits(r, below, above, den, closed)),
            fraction_digits(r, below, above, den, closed).len(),
            r,
            below,
            above,
            den,
            closed,
        ),
        forall|numerator: int, places: nat|
            places < fraction_digits(r, below, above, den, closed).len() ==> !#[trigger] within(
                numerator,
                places,
                r,
                below,
                above,
                den,
                closed,
            ),
        forall|numerator: int| #[trigger]
            within(
                numerator,
                fraction_digits(r, below, above, den, closed).len(),
                r,
                below,
                above,
                den,
                closed,
            ) ==> {
                let digits = fraction_digits(r, below, above, den, closed);
                let best = distance(digits_value(digits), digits.len(), r, den);
                let other = distance(numerator, digits.len(), r, den);
                best <= other && (best == other ==> numerator <= digits_value(digits))
            },
    decreases den - below,
{
    let digits = fraction_digits(r, below, above, den, closed);
    let d = (10 * r) / den;
    let rest = (10 * r) % den;
    lemma_fundamental_div_mod(10 * r, den);
    lemma_mod_bound(10 * r, den);
    lemma_pow10_next(0);
    // no whole number lies within the margins
    assert forall|numerator: int| !#[trigger] within(numerator, 0, r, below, above, den, closed) by {
        assert(offset(numerator, 0, r, den) == numerator * den - r);
        if numerator <= 0 {
            assert(numerator * den <= 0) by (nonlinear_arith)
                requires
                    numerator <= 0,
                    den > 0,
            ;
        } else {
            assert(numerator * den >= den) by (nonlinear_arith)
                requires
                    numerator >= 1,
                    den > 0,
            ;
        }
    }
    if low(rest, 10 * below, closed) || high(rest, 10 * above, den, closed) {
        let up = high(rest, 10 * above, den, closed) && (!low(rest, 10 * below, closed) || 2 * rest
            >= den);
        let choice = if up {
            1int
        } else {
            0int
        };
        let last = d + choice;
        assert(digits == seq![last]);
        assert(digits.drop_last() =~= Seq::<int>::empty());
        assert(digits_value(Seq::<int>::empty()) == 0);
        assert(digits.last() == last);
        assert(digits_value(digits) == last);
        lemma_last_digit(rest, 10 * below, 10 * above, den, closed, choice);
        assert(d * pow10(0) == d) by (nonlinear_arith)
            requires
                pow10(0) == 1,
        ;
        lemma_within_shift(last, 0, r, below, above, den, closed);
        assert forall|numerator: int, places: nat| places < digits.len() implies !#[trigger] within(
            numerator,
            places,
            r,
            below,
            above,
            den,
            closed,
        ) by {
            assert(places == 0);
            assert(!within(numerator, 0, r, below, above, den, closed));
        }
        assert forall|numerator: int| #[trigger]
            within(numerator, digits.len(), r, below, above, den, closed) implies {
            let best = distance(digits_value(digits), digits.len(), r, den);
            let other = distance(numerator, digits.len(), r, den);
            best <= other && (best == other ==> numerator <= digits_value(digits))
        } by {
            lemma_within_shift(numerator, 0, r, below, above, den, closed);
            assert(within(numerator - d, 0, rest, 10 * below, 10 * above, den, closed));
        }
    } else {
        let deeper = fraction_digits(rest, 10 * below, 10 * above, den, closed);
        assert(digits == seq![d] + deeper);
        lemma_fraction_digits(rest, 10 * below, 10 * above, den, closed);
        let places = deeper.len();
        lemma_digits_value_first(d, deeper);
        assert(digits.len() == places + 1);
        assert(digits_value(digits) - d * pow10(places) == digits_value(deeper));
        lemma_within_shift(digits_value(digits), places, r, below, above, den, closed);
        assert forall|numerator: int, p: nat| p < digits.len() implies !#[trigger] within(
            numerator,
            p,
            r,
            below,
            above,
            den,
            closed,
        ) by {
            if p > 0 {
                let q = (p - 1) as nat;
                lemma_within_shift(numerator, q, r, below, above, den, closed);
                assert(!within(
                    numerator - d * pow10(q),
                    q,
                    rest,
                    10 * below,
                    10 * above,
                    den,
                    closed,
                ));
            } else {
                assert(!within(numerator, 0, r, below, above, den, closed));
            }
        }
        assert forall|numerator: int| #[trigger]
            within(numerator, digits.len(), r, below, above, den, closed) implies {
            let best = distance(digits_value(digits), digits.len(), r, den);
            let other = distance(numerator, digits.len(), r, den);
            best <= other && (best == other ==> numerator <= digits_value(digits))
        } by {
            lemma_within_shift(numerator, places, r, below, above, den, closed);
            assert(within(
                numerator - d * pow10(places),
                places,
                rest,
                10 * below,
                10 * above,
                den,
                closed,
            ));
        }
    }
}

/// Appends to a text the digits after the point of the shortest decimal
/// that lies within the margins of a fraction, and says how many digits they
/// are.
pub fn push_fraction(
    text: &mut String,
    r: Big,
    below: Big,
    above: Big,
    den: &Big,
    closed: bool,
) -> (count: usize)
    requires
        0 < den@,
        r@ < den@,
        below@ >= 1,
        above@ >= 1,
        !low(r@ as int, below@ as int, closed),
        !high(r@ as int, above@ as int, den@ as int, closed),
    ensures
        final(text)@ == old(text)@ + digit_text(
            fraction_digits(r@ as int, below@ as int, above@ as int, den@ as int, closed),
        ),
        fraction_digits(r@ as int, below@ as int, above@ as int, den@ as int, closed).len()
            < usize::MAX ==> count == fraction_digits(
            r@ as int,
            below@ as int,
            above@ as int,
            den@ as int,
            closed,
        ).len(),
{
    let mut rest = r;
    let mut b = below;
    let mut a = above;
    let mut count: usize = 0;
    let ghost digits = fraction_digits(r@ as int, below@ as int, above@ as int, den@ as int, closed);
    let ghost all = digit_text(digits);
    loop
        invariant_except_break
            0 < den@,
            rest@ < den@,
            b@ >= 1,
            a@ >= 1,
            !low(rest@ as int, b@ as int, closed),
            !high(rest@ as int, a@ as int, den@ as int, closed),
            text@ + digit_text(
                fraction_digits(rest@ as int, b@ as int, a@ as int, den@ as int, closed),
            ) == old(text)@ + all,
            digits.len() < usize::MAX ==> count + fraction_digits(
                rest@ as int,
                b@ as int,
                a@ as int,
                den@ as int,
                closed,
            ).len() == digits.len(),
        ensures
            text@ == old(text)@ + all,
            digits.len() < usize::MAX ==> count == digits.len(),
        decreases den@ - b@,
    {
        let r10 = rest.mul_small(10);
        let b10 = b.mul_small(10);
        let a10 = a.mul_small(10);
        let mut d: u64 = 0;
        let mut rem = r10;
        while rem.ge(den)
            invariant
                0 < den@,
                10 * rest@ == d * den@ + rem@,
                rest@ < den@,
                d <= 9,
            decreases rem@,
        {
            proof {
                assert(d < 9) by (nonlinear_arith)
                    requires
                        10 * rest@ == d * den@ + rem@,
                        rem@ >= den@,
                        rest@ < den@,
                        0 < den@,
                ;
                assert((d + 1) * den@ == d * den@ + den@) by (nonlinear_arith);
            }
            rem = rem.sub(den);
            d = d + 1;
        }
        proof {
            lemma_fundamental_div_mod_converse(10 * rest@ as int, den@ as int, d as int, rem@ as int);
        }
        let is_low = if closed {
            b10.ge(&rem)
        } else {
            !rem.ge(&b10)
        };
        let reach = rem.add(&a10);
        let is_high = if closed {
            reach.ge(den)
        } else {
            !den.ge(&reach)
        };
        let ghost before = text@;
        let ghost tail = fraction_digits(rest@ as int, b@ as int, a@ as int, den@ as int, closed);
        if is_low || is_high {
            let twice = rem.mul_small(2);
            let up = is_high && (!is_low || twice.ge(den));
            proof {
                if up {
                    assert(d * den@ == den@ * d) by (nonlinear_arith);
                    assert(d + 1 <= 9) by (nonlinear_arith)
                        requires
                            10 * rest@ == den@ * d + rem@,
                            rem@ + 10 * a@ >= den@,
                            rest@ + a@ <= den@,
                            closed ==> rest@ + a@ < den@,
                            !closed ==> rem@ + 10 * a@ > den@,
                            0 < den@,
                    ;
                }
            }
            let last: u64 = if up {
                d + 1
            } else {
                d
            };
            text.push(digit(last));
            proof {
                assert(tail == seq![last as int]);
                assert(digit_text(tail) =~= seq![digit_char(last as int)]);
                assert(text@ =~= before + digit_text(tail));
            }
            if count < usize::MAX {
                count = count + 1;
            }
            break ;
        }
        text.push(digit(d));
        proof {
            let deeper = fraction_digits(rem@ as int, b10@ as int, a10@ as int, den@ as int, closed);
            assert(tail == seq![d as int] + deeper);
            assert(digit_text(tail) =~= seq![digit_char(d as int)] + digit_text(deeper));
            assert(text@ + digit_text(deeper) =~= before + digit_text(tail));
        }
        if count < usize::MAX {
            count = count + 1;
        }
        rest = rem;
        b = b10;
        a = a10;
    }
    count
}

} // verus!
