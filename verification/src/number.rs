//! Script numbers: doubles held as bit patterns, their conversion to and from
//! integers, and their decimal text, all in integer arithmetic.

use vstd::arithmetic::div_mod::{
    lemma_basic_div, lemma_div_by_multiple, lemma_div_denominator, lemma_div_is_ordered,
    lemma_mod_multiples_basic,
};
use crate::bignum::Big;
use crate::decimal::{
    digit_text, digits_value, distance, fraction_digits, high, lemma_fraction_digits,
    lemma_pow10_next, low, places_from, pow10, push_fraction, within, zeros,
};
use vstd::arithmetic::power2::{
    lemma2_to64, lemma2_to64_rest, lemma_pow2_adds, lemma_pow2_pos,
    lemma_pow2_strictly_increases, lemma_pow2_unfold, pow2,
};
use vstd::prelude::*;
use vstd::string::StringExecFns;

verus! {

/// The sign bit of a binary64 pattern.
pub const SIGN_BIT: u64 = 0x8000_0000_0000_0000;

/// Two to the power 52: the implicit leading bit of a normal significand.
pub const HIDDEN_BIT: u64 = 0x0010_0000_0000_0000;

/// The pattern of positive infinity; every larger magnitude is a NaN.
pub const INFINITY_BITS: u64 = 0x7ff0_0000_0000_0000;

/// Two to the power 53: below it every integer is a double, and is told from
/// its neighbours by its own digits alone.
pub const EXACT_LIMIT: u64 = 0x0020_0000_0000_0000;

/// A small number times a power of two.
fn shifted(x: u64, k: u64) -> (r: Big)
    ensures
        r@ == x * pow2(k as nat),
{
    let mut big = Big::from_u64(x);
    let mut done: u64 = 0;
    proof {
        lemma2_to64();
        assert(x * pow2(0) == x) by (nonlinear_arith)
            requires
                pow2(0) == 1,
        ;
    }
    while done < k
        invariant
            done <= k,
            big@ == x * pow2(done as nat),
        decreases k - done,
    {
        proof {
            lemma_pow2_unfold((done + 1) as nat);
            assert((x * pow2(done as nat)) * 2 == x * (2 * pow2(done as nat)))
                by (nonlinear_arith);
        }
        big = big.mul_small(2);
        done = done + 1;
    }
    big
}

/// Two to a power of 52 at most.
fn small_power(k: u64) -> (r: u64)
    requires
        k <= 52,
    ensures
        r == pow2(k as nat),
        1 <= r <= HIDDEN_BIT,
{
    let mut power: u64 = 1;
    let mut done: u64 = 0;
    proof {
        lemma2_to64();
        lemma2_to64_rest();
    }
    while done < k
        invariant
            done <= k <= 52,
            power == pow2(done as nat),
            1 <= power <= HIDDEN_BIT,
        decreases k - done,
    {
        proof {
            lemma2_to64_rest();
            lemma_pow2_unfold((done + 1) as nat);
            if done + 1 < 52 {
                lemma_pow2_strictly_increases((done + 1) as nat, 52);
            }
        }
        power = power * 2;
        done = done + 1;
    }
    power
}

/// Ten to a power is no less than two to the power.
proof fn lemma_pow10_above_pow2(k: nat)
    ensures
        pow10(k) >= pow2(k),
    decreases k,
{
    lemma_pow10_next(0);
    lemma2_to64();
    if k > 0 {
        lemma_pow10_above_pow2((k - 1) as nat);
        lemma_pow10_next((k - 1) as nat);
        lemma_pow2_unfold(k);
    }
}

/// `String::push` appends one character to the text.
pub assume_specification[ String::push ](text: &mut String, ch: char)
    ensures
        final(text)@ == old(text)@.push(ch),
;

/// The character of one decimal digit.
pub open spec fn digit_char(d: int) -> char {
    if d == 0 {
        '0'
    } else if d == 1 {
        '1'
    } else if d == 2 {
        '2'
    } else if d == 3 {
        '3'
    } else if d == 4 {
        '4'
    } else if d == 5 {
        '5'
    } else if d == 6 {
        '6'
    } else if d == 7 {
        '7'
    } else if d == 8 {
        '8'
    } else {
        '9'
    }
}

/// The decimal digits of a natural number, most significant first, without
/// leading zeros.
pub open spec fn decimal_digits(n: nat) -> Seq<char>
    decreases n,
{
    if n < 10 {
        seq![digit_char(n as int)]
    } else {
        decimal_digits(n / 10).push(digit_char((n % 10) as int))
    }
}

pub fn digit(d: u64) -> (r: char)
    requires
        d < 10,
    ensures
        r == digit_char(d as int),
{
    if d == 0 {
        '0'
    } else if d == 1 {
        '1'
    } else if d == 2 {
        '2'
    } else if d == 3 {
        '3'
    } else if d == 4 {
        '4'
    } else if d == 5 {
        '5'
    } else if d == 6 {
        '6'
    } else if d == 7 {
        '7'
    } else if d == 8 {
        '8'
    } else {
        '9'
    }
}

/// Appends the decimal digits of `n` to `text`.
pub fn push_decimal(text: &mut String, n: u64)
    ensures
        final(text)@ == old(text)@ + decimal_digits(n as nat),
{
    let mut reversed: Vec<char> = Vec::new();
    let mut rest: u64 = n;
    loop
        invariant_except_break
            rest > 0 || reversed.len() == 0,
            rest > 0 ==> decimal_digits(n as nat) == decimal_digits(rest as nat) + reversed@.reverse(),
            rest == 0 ==> n == 0,
        ensures
            decimal_digits(n as nat) == reversed@.reverse(),
        decreases rest,
    {
        let ghost before = reversed@;
        reversed.push(digit(rest % 10));
        proof {
            let d = digit_char((rest % 10) as int);
            assert(reversed@.reverse() =~= seq![d] + before.reverse());
            if rest >= 10 {
                assert(decimal_digits(rest as nat) + before.reverse() =~= decimal_digits(
                    (rest / 10) as nat,
                ) + reversed@.reverse());
            } else {
                assert(decimal_digits(rest as nat) == seq![d]);
                if rest == 0 {
                    assert(before.reverse() =~= Seq::<char>::empty());
                    assert(reversed@.reverse() =~= seq![d]);
                }
            }
        }
        if rest < 10 {
            break ;
        }
        rest = rest / 10;
    }
    let mut i: usize = reversed.len();
    let ghost start = text@;
    while i > 0
        invariant
            i <= reversed.len(),
            text@ == start + reversed@.reverse().subrange(0, reversed.len() - i),
        decreases i,
    {
        i = i - 1;
        let ghost before = text@;
        text.push(reversed[i]);
        proof {
            let digits = reversed@.reverse();
            let k = reversed.len() - i - 1;
            assert(digits[k] == reversed@[i as int]);
            assert(digits.subrange(0, k + 1) =~= digits.subrange(0, k).push(digits[k]));
            assert(text@ =~= start + digits.subrange(0, k + 1));
        }
    }
    proof {
        let digits = reversed@.reverse();
        assert(digits.subrange(0, reversed.len() as int) =~= digits);
    }
}

/// A script number: a double-precision float, held as its IEEE 754 binary64
/// bit pattern. Two numbers are equal when their patterns are.
#[derive(Clone, Copy, Debug, PartialEq, Eq, Structural)]
pub struct Number {
    pub bits: u64,
}

impl Number {
    pub open spec fn negative(self) -> bool {
        self.bits >= SIGN_BIT
    }

    /// The pattern without its sign bit.
    pub open spec fn magnitude_bits(self) -> int {
        if self.bits >= SIGN_BIT {
            self.bits - SIGN_BIT
        } else {
            self.bits as int
        }
    }

    pub open spec fn exponent_field(self) -> int {
        self.magnitude_bits() / (HIDDEN_BIT as int)
    }

    pub open spec fn fraction_field(self) -> int {
        self.magnitude_bits() % (HIDDEN_BIT as int)
    }

    pub open spec fn is_nan(self) -> bool {
        self.magnitude_bits() > INFINITY_BITS
    }

    pub open spec fn is_infinite(self) -> bool {
        self.magnitude_bits() == INFINITY_BITS
    }

    pub open spec fn is_finite(self) -> bool {
        self.magnitude_bits() < INFINITY_BITS
    }

    /// The integer that the binary exponent scales: the fraction, with the
    /// implicit leading bit unless the number is zero or subnormal.
    pub open spec fn significand(self) -> int {
        if self.exponent_field() == 0 {
            self.fraction_field()
        } else {
            self.fraction_field() + HIDDEN_BIT
        }
    }

    /// The binary exponent: the magnitude is `significand * 2^scale`.
    pub open spec fn scale(self) -> int {
        if self.exponent_field() == 0 {
            -1074
        } else {
            self.exponent_field() - 1075
        }
    }

    /// The magnitude of a finite number, rounded down to an integer.
    pub open spec fn floor_magnitude(self) -> int {
        if self.scale() >= 0 {
            self.significand() * pow2(self.scale() as nat)
        } else {
            self.significand() / (pow2((-self.scale()) as nat) as int)
        }
    }

    /// A finite number without a fractional part.
    pub open spec fn is_integer(self) -> bool {
        &&& self.is_finite()
        &&& self.scale() < 0 ==> self.significand() % (pow2((-self.scale()) as nat) as int) == 0
    }

    /// A finite number rounded toward zero.
    pub open spec fn truncated(self) -> int {
        if self.negative() {
            -self.floor_magnitude()
        } else {
            self.floor_magnitude()
        }
    }

    /// What a cast of the number to `i32` gives: zero for a NaN, the nearest
    /// bound where the number lies outside the range, else the number rounded
    /// toward zero.
    pub open spec fn saturated_i32(self) -> int {
        if self.is_nan() {
            0
        } else if self.is_infinite() {
            if self.negative() { i32::MIN as int } else { i32::MAX as int }
        } else if self.truncated() < i32::MIN {
            i32::MIN as int
        } else if self.truncated() > i32::MAX {
            i32::MAX as int
        } else {
            self.truncated()
        }
    }

    /// The number that equals `src`. Every `i32` is a double without loss.
    pub fn from_i32(src: i32) -> (r: Number)
        ensures
            r.is_integer(),
            r.truncated() == src,
            src == 0 ==> r.bits == 0,
    {
        if src == 0 {
            proof {
                lemma_pow2_pos(1074);
                lemma_basic_div(0, pow2(1074) as int);
                vstd::arithmetic::div_mod::lemma_small_mod(0, pow2(1074));
            }
            return Number { bits: 0 };
        }
        let negative = src < 0;
        let magnitude: u64 = if negative {
            (-(src as i64)) as u64
        } else {
            src as u64
        };
        let mut significand: u64 = magnitude;
        let mut shift: u64 = 0;
        proof {
            lemma2_to64();
        }
        while significand < HIDDEN_BIT
            invariant
                1 <= magnitude <= 0x8000_0000,
                significand == magnitude * pow2(shift as nat),
                1 <= significand < 2 * HIDDEN_BIT,
                shift <= 52,
            decreases 52 - shift,
        {
            proof {
                lemma_pow2_unfold((shift + 1) as nat);
                lemma2_to64_rest();
                if shift >= 52 {
                    if shift > 52 {
                        lemma_pow2_strictly_increases(52, shift as nat);
                    }
                    assert(magnitude * pow2(shift as nat) >= pow2(shift as nat)) by (nonlinear_arith)
                        requires
                            magnitude >= 1,
                    ;
                }
                assert(magnitude * (2 * pow2(shift as nat)) == 2 * (magnitude * pow2(
                    shift as nat,
                ))) by (nonlinear_arith);
            }
            significand = significand * 2;
            shift = shift + 1;
        }
        let exponent: u64 = 1075 - shift;
        let magnitude_bits: u64 = exponent * HIDDEN_BIT + (significand - HIDDEN_BIT);
        let r = Number {
            bits: if negative {
                magnitude_bits + SIGN_BIT
            } else {
                magnitude_bits
            },
        };
        proof {
            let p = pow2(shift as nat) as int;
            lemma_pow2_pos(shift as nat);
            assert(r.magnitude_bits() == magnitude_bits);
            assert(r.exponent_field() == exponent);
            assert(r.fraction_field() == significand - HIDDEN_BIT);
            assert(r.significand() == significand);
            assert(r.scale() == -(shift as int));
            lemma_mod_multiples_basic(magnitude as int, p);
            lemma_div_by_multiple(magnitude as int, p);
            if shift == 0 {
                assert(significand * pow2(0) == significand) by (nonlinear_arith)
                    requires
                        pow2(0) == 1,
                ;
            }
            assert(r.floor_magnitude() == magnitude);
        }
        r
    }

    /// The number as an `i32`, as a cast of a double gives it.
    pub fn to_i32(&self) -> (r: i32)
        ensures
            r == self.saturated_i32(),
    {
        let negative = self.bits >= SIGN_BIT;
        let magnitude_bits: u64 = if negative {
            self.bits - SIGN_BIT
        } else {
            self.bits
        };
        if magnitude_bits > INFINITY_BITS {
            return 0;
        }
        if magnitude_bits == INFINITY_BITS {
            return if negative {
                i32::MIN
            } else {
                i32::MAX
            };
        }
        let exponent: u64 = magnitude_bits / HIDDEN_BIT;
        let fraction: u64 = magnitude_bits % HIDDEN_BIT;
        proof {
            lemma2_to64();
            lemma2_to64_rest();
        }
        if exponent < 1023 {
            proof {
                let shift = (-self.scale()) as nat;
                assert(shift >= 53);
                if shift > 53 {
                    lemma_pow2_strictly_increases(53, shift);
                }
                lemma_basic_div(self.significand(), pow2(shift) as int);
            }
            return 0;
        }
        if exponent >= 1054 {
            proof {
                let significand = self.significand();
                if exponent >= 1075 {
                    let scale = self.scale() as nat;
                    lemma_pow2_pos(scale);
                    assert(significand * pow2(scale) >= significand) by (nonlinear_arith)
                        requires
                            pow2(scale) >= 1,
                            significand >= 0,
                    ;
                } else {
                    let shift = (-self.scale()) as nat;
                    assert(1 <= shift <= 21);
                    if shift < 21 {
                        lemma_pow2_strictly_increases(shift, 21);
                    }
                    let p = pow2(shift) as int;
                    lemma_pow2_pos(shift);
                    assert(0x8000_0000 * p <= significand) by (nonlinear_arith)
                        requires
                            0 < p <= 0x20_0000,
                            significand >= 0x10_0000_0000_0000,
                    ;
                    lemma_div_is_ordered(0x8000_0000 * p, significand, p);
                    lemma_div_by_multiple(0x8000_0000, p);
                }
                assert(self.floor_magnitude() >= 0x8000_0000);
            }
            return if negative {
                i32::MIN
            } else {
                i32::MAX
            };
        }
        let shift: u64 = 1075 - exponent;
        let mut value: u64 = fraction + HIDDEN_BIT;
        let mut done: u64 = 0;
        while done < shift
            invariant
                done <= shift <= 52,
                value == (fraction + HIDDEN_BIT) / (pow2(done as nat) as int),
            decreases shift - done,
        {
            proof {
                lemma_pow2_unfold((done + 1) as nat);
                lemma_pow2_pos(done as nat);
                lemma_div_denominator((fraction + HIDDEN_BIT) as int, pow2(done as nat) as int, 2);
            }
            value = value / 2;
            done = done + 1;
        }
        proof {
            assert(self.floor_magnitude() == value);
            let p = pow2(shift as nat) as int;
            lemma_pow2_pos(shift as nat);
            if shift > 22 {
                lemma_pow2_strictly_increases(22, shift as nat);
            }
            assert(p >= 0x40_0000);
            let significand = self.significand();
            assert(significand < 0x8000_0000 * p) by (nonlinear_arith)
                requires
                    p >= 0x40_0000,
                    significand < 0x20_0000_0000_0000,
            ;
            if value >= 0x8000_0000 {
                vstd::arithmetic::div_mod::lemma_fundamental_div_mod(significand, p);
                assert(p * (significand / p) >= p * 0x8000_0000) by (nonlinear_arith)
                    requires
                        significand / p >= 0x8000_0000,
                        p > 0,
                ;
                vstd::arithmetic::div_mod::lemma_mod_bound(significand, p);
            }
            assert(value < 0x8000_0000);
        }
        if negative {
            -(value as i32)
        } else {
            value as i32
        }
    }

    /// An integer whose magnitude lies below two to the power 53.
    pub open spec fn is_exact_integer(self) -> bool {
        self.is_integer() && self.floor_magnitude() < EXACT_LIMIT
    }

    /// How many binary places after the point the number has.
    pub open spec fn places(self) -> int {
        -self.scale()
    }

    /// A finite number that is no integer.
    pub open spec fn is_fraction(self) -> bool {
        self.is_finite() && !self.is_integer()
    }

    /// An integer at or above two to the power 53: from there on not every
    /// integer is a double.
    pub open spec fn is_large_integer(self) -> bool {
        self.is_integer() && self.floor_magnitude() >= EXACT_LIMIT
    }

    /// The fraction of the magnitude is `fraction_num / fraction_den`: both
    /// are counted in quarters of the last binary place, the unit of the
    /// margins.
    pub open spec fn fraction_den(self) -> int {
        4 * (pow2(self.places() as nat) as int)
    }

    pub open spec fn fraction_num(self) -> int {
        4 * (self.significand() % (pow2(self.places() as nat) as int))
    }

    /// Whether the number stands at the bottom of a binade, where the double
    /// below is half as far away as the double above.
    pub open spec fn at_binade_bottom(self) -> bool {
        self.fraction_field() == 0 && self.exponent_field() > 1
    }

    /// How far below the number a decimal may lie and still be nearer to it
    /// than to the double below: half the way to that double, counted in
    /// quarters of the last binary place.
    pub open spec fn margin_below(self) -> int {
        if self.at_binade_bottom() {
            1
        } else {
            2
        }
    }

    /// How far above the number a decimal may lie and still be nearer to it
    /// than to the double above.
    pub open spec fn margin_above(self) -> int {
        2
    }

    /// Whether a decimal half way to a neighbour is still read as this
    /// number: ties go to the double with the even significand.
    pub open spec fn margins_closed(self) -> bool {
        self.significand() % 2 == 0
    }

    /// The digits after the point of a fraction: those of the shortest
    /// decimal that is read back as this number, the one nearest to it.
    pub open spec fn fraction_text(self) -> Seq<char> {
        digit_text(
            fraction_digits(
                self.fraction_num(),
                self.margin_below(),
                self.margin_above(),
                self.fraction_den(),
                self.margins_closed(),
            ),
        )
    }

    /// Four times the magnitude of a large integer.
    pub open spec fn integer_num(self) -> int {
        4 * self.significand() * (pow2(self.scale() as nat) as int)
    }

    /// The margins of a large integer, counted in quarters.
    pub open spec fn integer_above(self) -> int {
        2 * (pow2(self.scale() as nat) as int)
    }

    pub open spec fn integer_below(self) -> int {
        if self.at_binade_bottom() {
            pow2(self.scale() as nat) as int
        } else {
            2 * (pow2(self.scale() as nat) as int)
        }
    }

    /// How many digits a large integer is written with: the least number
    /// that the integer with its margin above does not reach the power of
    /// ten of.
    pub open spec fn integer_places(self) -> nat {
        places_from(self.integer_num(), self.integer_above(), self.margins_closed(), 0)
    }

    /// The digits that a large integer begins with: those of the shortest
    /// decimal that, taken as so many tenths, hundredths and so on of the
    /// power of ten, is read back as this number.
    pub open spec fn integer_digits(self) -> Seq<int> {
        fraction_digits(
            self.integer_num(),
            self.integer_below(),
            self.integer_above(),
            4 * pow10(self.integer_places()),
            self.margins_closed(),
        )
    }

    /// The digits of a large integer: those it begins with, and zeros up to
    /// its length.
    pub open spec fn integer_text(self) -> Seq<char> {
        digit_text(self.integer_digits()) + zeros(
            self.integer_places() - self.integer_digits().len(),
        )
    }

    /// The decimal text of the number: `NaN`, `inf` or `-inf`; for an integer
    /// below two to the power 53 its digits; for a larger one the digits of
    /// `integer_text`; for a fraction the digits of its whole part, a point,
    /// and the digits of `fraction_text`; each after `-` where the sign bit
    /// is set (so `-0` for the negative zero).
    pub open spec fn text(self) -> Seq<char> {
        if self.is_nan() {
            "NaN"@
        } else if self.is_infinite() {
            if self.negative() {
                "-inf"@
            } else {
                "inf"@
            }
        } else {
            let sign = if self.negative() {
                "-"@
            } else {
                Seq::<char>::empty()
            };
            if self.is_exact_integer() {
                sign + decimal_digits(self.floor_magnitude() as nat)
            } else if self.is_integer() {
                sign + self.integer_text()
            } else {
                sign + decimal_digits(self.floor_magnitude() as nat) + "."@ + self.fraction_text()
            }
        }
    }

    /// The magnitude of the number, if it is an integer below two to the
    /// power 53.
    pub fn exact_magnitude(&self) -> (r: Option<u64>)
        ensures
            r is Some <==> self.is_exact_integer(),
            r matches Some(m) ==> m == self.floor_magnitude(),
    {
        let magnitude_bits: u64 = if self.bits >= SIGN_BIT {
            self.bits - SIGN_BIT
        } else {
            self.bits
        };
        if magnitude_bits >= INFINITY_BITS {
            return None;
        }
        let exponent: u64 = magnitude_bits / HIDDEN_BIT;
        let fraction: u64 = magnitude_bits % HIDDEN_BIT;
        proof {
            lemma2_to64();
            lemma2_to64_rest();
        }
        if exponent == 0 {
            proof {
                lemma_pow2_strictly_increases(52, 1074);
                lemma_basic_div(fraction as int, pow2(1074) as int);
                vstd::arithmetic::div_mod::lemma_small_mod(fraction as nat, pow2(1074));
            }
            return if fraction == 0 {
                Some(0)
            } else {
                None
            };
        }
        let significand: u64 = fraction + HIDDEN_BIT;
        if exponent < 1023 {
            proof {
                let shift = (1075 - exponent) as nat;
                if shift > 53 {
                    lemma_pow2_strictly_increases(53, shift);
                }
                vstd::arithmetic::div_mod::lemma_small_mod(significand as nat, pow2(shift));
            }
            return None;
        }
        if exponent > 1075 {
            proof {
                let scale = (exponent - 1075) as nat;
                lemma_pow2_unfold(scale);
                lemma_pow2_pos((scale - 1) as nat);
                assert(significand * pow2(scale) >= 2 * significand) by (nonlinear_arith)
                    requires
                        pow2(scale) >= 2,
                        significand >= 0,
                ;
            }
            return None;
        }
        let shift: u64 = 1075 - exponent;
        let divisor = small_power(shift);
        proof {
            lemma2_to64();
            assert(self.significand() == significand);
            assert(self.scale() == -(shift as int));
            if shift == 0 {
                assert(divisor == 1);
                assert(significand * pow2(0) == significand) by (nonlinear_arith)
                    requires
                        pow2(0) == 1,
                ;
                assert(self.floor_magnitude() == significand);
                assert(significand / divisor == significand);
            } else {
                assert(self.floor_magnitude() == significand / divisor);
            }
        }
        if significand % divisor == 0 {
            Some(significand / divisor)
        } else {
            None
        }
    }

    /// The decimal text of the number.
    #[verifier::rlimit(50)]
    pub fn to_text(&self) -> (r: String)
        ensures
            r@ == self.text(),
    {
        let negative = self.bits >= SIGN_BIT;
        let magnitude_bits: u64 = if negative {
            self.bits - SIGN_BIT
        } else {
            self.bits
        };
        if magnitude_bits > INFINITY_BITS {
            return String::from_str("NaN");
        }
        if magnitude_bits == INFINITY_BITS {
            return if negative {
                String::from_str("-inf")
            } else {
                String::from_str("inf")
            };
        }
        let mut text = if negative {
            String::from_str("-")
        } else {
            String::new()
        };
        let ghost sign = text@;
        match self.exact_magnitude() {
            Some(magnitude) => {
                push_decimal(&mut text, magnitude);
                return text;
            },
            None => {},
        }
        let exponent: u64 = magnitude_bits / HIDDEN_BIT;
        let fraction: u64 = magnitude_bits % HIDDEN_BIT;
        let significand: u64 = if exponent == 0 {
            fraction
        } else {
            fraction + HIDDEN_BIT
        };
        let closed = significand % 2 == 0;
        let at_bottom = fraction == 0 && exponent > 1;
        proof {
            lemma2_to64();
            lemma2_to64_rest();
            assert(self.significand() == significand);
        }
        if exponent >= 1075 {
            self.push_integer(&mut text, significand, exponent - 1075, closed, at_bottom);
        } else {
            let places: u64 = if exponent == 0 {
                1074
            } else {
                1075 - exponent
            };
            let (whole, part): (u64, u64) = if places <= 52 {
                let power = small_power(places);
                (significand / power, significand % power)
            } else {
                proof {
                    if places > 53 {
                        lemma_pow2_strictly_increases(53, places as nat);
                    }
                    lemma_basic_div(significand as int, pow2(places as nat) as int);
                    vstd::arithmetic::div_mod::lemma_small_mod(
                        significand as nat,
                        pow2(places as nat),
                    );
                }
                (0, significand)
            };
            proof {
                assert(self.places() == places);
                assert(self.floor_magnitude() == whole);
                assert(part == self.significand() % (pow2(places as nat) as int));
                assert(part != 0);
                assert(self.is_fraction());
                lemma_pow2_pos(places as nat);
                vstd::arithmetic::div_mod::lemma_mod_bound(
                    significand as int,
                    pow2(places as nat) as int,
                );
            }
            let below = Big::from_u64(
                if at_bottom {
                    1
                } else {
                    2
                },
            );
            let den = shifted(4, places);
            push_decimal(&mut text, whole);
            text.push('.');
            let _ = push_fraction(
                &mut text,
                Big::from_u64(4 * part),
                below,
                Big::from_u64(2),
                &den,
                closed,
            );
            proof {
                assert("."@ =~= seq!['.']) by {
                    reveal_strlit(".");
                }
                assert(text@ =~= sign + decimal_digits(whole as nat) + "."@
                    + self.fraction_text());
            }
        }
        text
    }

    /// Appends the digits of a large integer.
    fn push_integer(
        &self,
        text: &mut String,
        significand: u64,
        scale: u64,
        closed: bool,
        at_bottom: bool,
    )
        requires
            self.is_finite(),
            self.is_large_integer(),
            significand == self.significand(),
            scale == self.scale(),
            closed == self.margins_closed(),
            at_bottom == self.at_binade_bottom(),
        ensures
            final(text)@ == old(text)@ + self.integer_text(),
    {
        proof {
            lemma2_to64();
            lemma2_to64_rest();
        }
        let ghost power = pow2(scale as nat) as int;
        let num = shifted(4 * significand, scale);
        let above = shifted(2, scale);
        let below = if at_bottom {
            shifted(1, scale)
        } else {
            shifted(2, scale)
        };
        proof {
            lemma_pow2_pos(scale as nat);
            assert(num@ == self.integer_num()) by (nonlinear_arith)
                requires
                    num@ == (4 * significand) * power,
                    self.integer_num() == 4 * significand * power,
            ;
            assert(1 * power == power) by (nonlinear_arith);
            assert(above@ == self.integer_above());
            assert(below@ == self.integer_below());
            assert(significand >= 1);
            assert((4 * significand) * power >= 4 * power) by (nonlinear_arith)
                requires
                    significand >= 1,
                    power >= 1,
            ;
            // the number with its margin lies below two to the power 1027
            lemma_pow2_strictly_increases(scale as nat, 972);
            lemma_pow2_adds(55, 972);
            assert((4 * significand + 2) * power < pow2(55) * pow2(972)) by (nonlinear_arith)
                requires
                    4 * significand + 2 < pow2(55),
                    0 < power < pow2(972),
            ;
            assert(num@ + above@ == (4 * significand + 2) * power) by (nonlinear_arith)
                requires
                    num@ == (4 * significand) * power,
                    above@ == 2 * power,
            ;
        }
        let reach = num.add(&above);
        let mut den = Big::from_u64(4);
        let mut places: usize = 0;
        proof {
            lemma_pow10_next(0);
        }
        loop
            invariant_except_break
                den@ == 4 * pow10(places as nat),
                places_from(num@ as int, above@ as int, closed, places as nat)
                    == self.integer_places(),
                places <= 1027,
                reach@ == num@ + above@,
                reach@ < pow2(1027),
            ensures
                den@ == 4 * pow10(places as nat),
                places == self.integer_places(),
                places <= 1027,
                !high(num@ as int, above@ as int, den@ as int, closed),
            decreases 1027 - places,
        {
            let is_high = if closed {
                reach.ge(&den)
            } else {
                !den.ge(&reach)
            };
            if !is_high {
                break ;
            }
            proof {
                lemma_pow10_next(places as nat);
                lemma_pow10_above_pow2(places as nat);
                if places >= 1027 {
                    if places > 1027 {
                        lemma_pow2_strictly_increases(1027, places as nat);
                    }
                }
                assert(4 * (10 * pow10(places as nat)) == (4 * pow10(places as nat)) * 10)
                    by (nonlinear_arith);
            }
            den = den.mul_small(10);
            places = places + 1;
        }
        proof {
            lemma_integer_text(*self);
        }
        let ghost digits = fraction_digits(
            num@ as int,
            below@ as int,
            above@ as int,
            den@ as int,
            closed,
        );
        proof {
            assert(digits == self.integer_digits());
            assert(digits.len() <= places);
        }
        let count = push_fraction(text, num, below, above, &den, closed);
        let ghost shown = text@;
        let mut padded: usize = count;
        proof {
            assert(count == digits.len());
            assert(zeros(0) =~= Seq::<char>::empty());
            assert(text@ =~= shown + zeros(0));
        }
        while padded < places
            invariant
                count <= padded <= places,
                count == digits.len(),
                shown == old(text)@ + digit_text(digits),
                text@ == shown + zeros(padded - count),
            decreases places - padded,
        {
            text.push('0');
            proof {
                assert(zeros(padded + 1 - count) =~= zeros(padded - count).push('0'));
            }
            padded = padded + 1;
        }
        proof {
            assert(text@ =~= old(text)@ + (digit_text(digits) + zeros(places - digits.len())));
        }
    }

    pub fn from_bits(bits: u64) -> (r: Number)
        ensures
            r.bits == bits,
    {
        Number { bits }
    }

    pub fn to_bits(&self) -> (r: u64)
        ensures
            r == self.bits,
    {
        self.bits
    }
}

/// Where the search for the places of a large integer ends, the integer with
/// its margin above does not reach the power of ten.
pub proof fn lemma_places_from(r: int, above: int, closed: bool, places: nat)
    ensures
        places_from(r, above, closed, places) >= places,
        !high(r, above, 4 * pow10(places_from(r, above, closed, places)), closed),
    decreases
        if high(r, above, 4 * pow10(places), closed) {
            r + above - 4 * pow10(places) + 1
        } else {
            0
        },
{
    if high(r, above, 4 * pow10(places), closed) {
        lemma_pow10_next(places);
        lemma_places_from(r, above, closed, places + 1);
    }
}

/// The digits of a large integer spell the shortest decimal that, taken as a
/// part of the power of ten of the integer's length, is read back as the
/// number, and of the decimals of that length the one nearest to it: the
/// decimal lies within the margins of the number; no decimal of fewer digits
/// does; none of as many digits lies nearer, and none as near lies above it.
/// The digits are no more than the integer is long, so the zeros after them
/// fill it up.
pub proof fn lemma_integer_text(n: Number)
    requires
        n.is_large_integer(),
    ensures
        ({
            let r = n.integer_num();
            let below = n.integer_below();
            let above = n.integer_above();
            let den = 4 * pow10(n.integer_places());
            let closed = n.margins_closed();
            let digits = n.integer_digits();
            &&& 0 < r < den
            &&& 1 <= digits.len() <= n.integer_places()
            &&& within(digits_value(digits), digits.len(), r, below, above, den, closed)
            &&& forall|numerator: int, places: nat|
                places < digits.len() ==> !#[trigger] within(
                    numerator,
                    places,
                    r,
                    below,
                    above,
                    den,
                    closed,
                )
            &&& forall|numerator: int| #[trigger]
                within(numerator, digits.len(), r, below, above, den, closed) ==> distance(
                    digits_value(digits),
                    digits.len(),
                    r,
                    den,
                ) <= distance(numerator, digits.len(), r, den) && (distance(
                    digits_value(digits),
                    digits.len(),
                    r,
                    den,
                ) == distance(numerator, digits.len(), r, den) ==> numerator <= digits_value(
                    digits,
                ))
        }),
{
    lemma2_to64();
    lemma2_to64_rest();
    let significand = n.significand();
    if n.scale() < 0 {
        let shift = (-n.scale()) as nat;
        lemma_pow2_pos(shift);
        vstd::arithmetic::div_mod::lemma_div_is_ordered_by_denominator(
            significand,
            1,
            pow2(shift) as int,
        );
        assert(significand / 1 == significand);
    }
    assert(n.scale() >= 0);
    let power = pow2(n.scale() as nat) as int;
    lemma_pow2_pos(n.scale() as nat);
    let r = n.integer_num();
    let below = n.integer_below();
    let above = n.integer_above();
    let closed = n.margins_closed();
    let places = n.integer_places();
    let den = 4 * pow10(places);
    lemma_places_from(r, above, closed, 0);
    lemma_pow10_next(places);
    assert(significand >= 1) by {
        if significand <= 0 {
            assert(significand * power <= 0) by (nonlinear_arith)
                requires
                    significand <= 0,
                    power >= 0,
            ;
        }
    }
    assert(r >= 4 * power) by (nonlinear_arith)
        requires
            r == 4 * significand * power,
            significand >= 1,
            power >= 1,
    ;
    lemma_fraction_digits(r, below, above, den, closed);
    let value = significand * power;
    assert(value * (4 * pow10(places)) - (4 * value) * pow10(places) == 0) by (nonlinear_arith);
    assert(r == 4 * value) by (nonlinear_arith)
        requires
            r == 4 * significand * power,
            value == significand * power,
    ;
    assert(-below * pow10(places) < 0 < above * pow10(places)) by (nonlinear_arith)
        requires
            below >= 1,
            above >= 1,
            pow10(places) >= 1,
    ;
    assert(within(value, places, r, below, above, den, closed));
}

/// The digits after the point of a fraction spell the shortest decimal
/// that is read back as the number, and of the decimals of that length the
/// one nearest to it. The margins of the number reach half the way to the
/// doubles next to it, so a decimal within them is nearer to this number than
/// to any other double; where it lies on a bound, it is read as the double
/// with the even significand. So: the decimal that the digits spell lies
/// within the margins; no decimal of fewer places does; none of as many
/// places lies nearer to the number, and none as near lies above it.
pub proof fn lemma_fraction_text(n: Number)
    requires
        n.is_fraction(),
    ensures
        n.fraction_den() > 0,
        0 < n.fraction_num() < n.fraction_den(),
        ({
            let r = n.fraction_num();
            let below = n.margin_below();
            let above = n.margin_above();
            let den = n.fraction_den();
            let closed = n.margins_closed();
            let digits = fraction_digits(r, below, above, den, closed);
            &&& digits.len() >= 1
            &&& within(digits_value(digits), digits.len(), r, below, above, den, closed)
            &&& forall|numerator: int, places: nat|
                places < digits.len() ==> !#[trigger] within(
                    numerator,
                    places,
                    r,
                    below,
                    above,
                    den,
                    closed,
                )
            &&& forall|numerator: int| #[trigger]
                within(numerator, digits.len(), r, below, above, den, closed) ==> distance(
                    digits_value(digits),
                    digits.len(),
                    r,
                    den,
                ) <= distance(numerator, digits.len(), r, den) && (distance(
                    digits_value(digits),
                    digits.len(),
                    r,
                    den,
                ) == distance(numerator, digits.len(), r, den) ==> numerator <= digits_value(
                    digits,
                ))
        }),
{
    let places = n.places() as nat;
    let power = pow2(places) as int;
    lemma_pow2_pos(places);
    vstd::arithmetic::div_mod::lemma_mod_bound(n.significand(), power);
    let r = n.fraction_num();
    let den = n.fraction_den();
    assert(!low(r, n.margin_below(), n.margins_closed()));
    assert(!high(r, n.margin_above(), den, n.margins_closed()));
    lemma_fraction_digits(r, n.margin_below(), n.margin_above(), den, n.margins_closed());
}

/// A whole number that went into a double comes out of it unchanged.
pub proof fn lemma_i32_is_kept(n: Number, x: i32)
    requires
        n.is_integer(),
        n.truncated() == x,
    ensures
        n.saturated_i32() == x,
{
}

} // verus!
