//! Exact integers and fractions, held as plain digits; the arithmetic on them is done by
//! `num-bigint`, `num-rational` and `num-traits`.

use num_bigint::{BigInt, Sign, Sign::Minus, Sign::Plus};
use num_rational::{BigRational, Ratio};
use num_traits::ToPrimitive;
use vstd::arithmetic::power::pow;
use vstd::prelude::*;

verus! {

/// The value of base-2^32 digits, least significant first.
pub open spec fn limbs_val(s: Seq<u32>) -> nat
    decreases s.len(),
{
    if s.len() == 0 {
        0
    } else {
        s[0] as nat + 0x1_0000_0000 * limbs_val(s.subrange(1, s.len() as int))
    }
}

/// The absolute value.
pub open spec fn abs(a: int) -> int {
    if a < 0 {
        -a
    } else {
        a
    }
}

/// Division rounding toward zero, as Rust's integer division does.
pub open spec fn trunc_div(a: int, b: int) -> int {
    let q = abs(a) / abs(b);
    if (a < 0) == (b < 0) {
        q
    } else {
        -q
    }
}

/// The remainder that goes with `trunc_div`: it takes the sign of `a`.
pub open spec fn trunc_rem(a: int, b: int) -> int {
    a - b * trunc_div(a, b)
}

/// `k` divides `a`.
pub open spec fn divides(k: int, a: int) -> bool {
    a % k == 0
}

/// No integer greater than one divides both `a` and `b`.
pub open spec fn coprime(a: int, b: int) -> bool {
    forall|k: int| k > 1 ==> !(#[trigger] divides(k, a) && divides(k, b))
}

/// The value of a string of ASCII decimal digits.
pub open spec fn decimal_value(s: Seq<char>) -> nat
    decreases s.len(),
{
    if s.len() == 0 {
        0
    } else {
        decimal_value(s.drop_last()) * 10 + ((s.last() as nat) - ('0' as nat)) as nat
    }
}

/// The decimal digits of `n`, most significant first, with no leading zero.
pub open spec fn decimal_digits(n: nat) -> Seq<char>
    decreases n,
{
    let d = ((n % 10) + ('0' as nat)) as u32 as char;
    if n < 10 {
        seq![d]
    } else {
        decimal_digits(n / 10).push(d)
    }
}

/// How an integer is written in decimal: a minus sign for a negative one, then its digits.
pub open spec fn decimal_string(a: int) -> Seq<char> {
    if a < 0 {
        seq!['-'] + decimal_digits((-a) as nat)
    } else {
        decimal_digits(a as nat)
    }
}

/// Every character is an ASCII decimal digit.
pub open spec fn all_digits(s: Seq<char>) -> bool {
    forall|i: int| 0 <= i < s.len() ==> '0' <= #[trigger] s[i] && s[i] <= '9'
}

/// An integer of any size: a sign and base-2^32 digits, least significant first, with no
/// leading zero digit and no sign on zero.
#[derive(Debug, PartialEq, Eq)]
pub struct Int {
    neg: bool,
    mag: Vec<u32>,
}

impl Int {
    #[verifier::type_invariant]
    spec fn well_formed(&self) -> bool {
        &&& self.mag@.len() > 0 ==> self.mag@.last() != 0
        &&& self.neg ==> self.mag@.len() > 0
    }

    /// The value of this integer.
    pub closed spec fn view(&self) -> int {
        if self.neg {
            -(limbs_val(self.mag@) as int)
        } else {
            limbs_val(self.mag@) as int
        }
    }

    /// Zero.
    pub fn zero() -> (r: Int)
        ensures
            r@ == 0,
    {
        Int { neg: false, mag: Vec::new() }
    }

    /// One.
    pub fn one() -> (r: Int)
        ensures
            r@ == 1,
    {
        let mut mag = Vec::new();
        mag.push(1u32);
        proof {
            assert(mag@.subrange(1, 1) =~= Seq::<u32>::empty());
            reveal_with_fuel(limbs_val, 2);
        }
        Int { neg: false, mag }
    }

    /// A copy of this integer.
    pub fn copy(&self) -> (r: Int)
        ensures
            r@ == self@,
    {
        proof {
            use_type_invariant(self);
        }
        let mag = self.mag.clone();
        proof {
            assert(mag@ =~= self.mag@);
        }
        Int { neg: self.neg, mag }
    }

    /// Returns true if this integer is zero.
    pub fn is_zero(&self) -> (r: bool)
        ensures
            r == (self@ == 0),
    {
        proof {
            use_type_invariant(self);
            lemma_limbs_val_zero(self.mag@);
        }
        self.mag.len() == 0
    }

    /// Returns true if this integer is below zero.
    pub fn is_negative(&self) -> (r: bool)
        ensures
            r == (self@ < 0),
    {
        proof {
            use_type_invariant(self);
            lemma_limbs_val_zero(self.mag@);
        }
        self.neg
    }

    /// The negation of this integer.
    pub fn neg(&self) -> (r: Int)
        ensures
            r@ == -self@,
    {
        proof {
            use_type_invariant(self);
            lemma_limbs_val_zero(self.mag@);
        }
        let mag = self.mag.clone();
        proof {
            assert(mag@ =~= self.mag@);
        }
        if mag.len() == 0 {
            Int { neg: false, mag }
        } else {
            Int { neg: !self.neg, mag }
        }
    }

    /// `BigInt::from(i64)` read back as digits: the integer with the value `x`.
    #[verifier::external_body]
    fn big_from_i64(x: i64) -> (r: Int)
        ensures
            r@ == x as int,
    {
        let (sign, mag) = BigInt::from(x).to_u32_digits();
        Int { neg: sign == Sign::Minus, mag }
    }

    /// The integer with the value `x`.
    pub fn from_i64(x: i64) -> (r: Int)
        ensures
            r@ == x as int,
    {
        Int::big_from_i64(x)
    }

    /// `BigInt::from(u64)` read back as digits: the integer with the value `x`.
    #[verifier::external_body]
    fn big_from_u64(x: u64) -> (r: Int)
        ensures
            r@ == x as int,
    {
        let (sign, mag) = BigInt::from(x).to_u32_digits();
        Int { neg: sign == Sign::Minus, mag }
    }

    /// The integer with the value `x`.
    pub fn from_u64(x: u64) -> (r: Int)
        ensures
            r@ == x as int,
    {
        Int::big_from_u64(x)
    }

    /// `BigInt + BigInt`: the exact sum.
    #[verifier::external_body]
    fn big_add(&self, other: &Int) -> (r: Int)
        ensures
            r@ == self@ + other@,
    {
        let a = BigInt::from_slice(if self.neg { Sign::Minus } else { Sign::Plus }, &self.mag);
        let b = BigInt::from_slice(if other.neg { Sign::Minus } else { Sign::Plus }, &other.mag);
        let (sign, mag) = (a + b).to_u32_digits();
        Int { neg: sign == Sign::Minus, mag }
    }

    /// The sum of two integers.
    pub fn add(&self, other: &Int) -> (r: Int)
        ensures
            r@ == self@ + other@,
    {
        self.big_add(other)
    }

    /// `BigInt - BigInt`: the exact difference.
    #[verifier::external_body]
    fn big_sub(&self, other: &Int) -> (r: Int)
        ensures
            r@ == self@ - other@,
    {
        let a = BigInt::from_slice(if self.neg { Sign::Minus } else { Sign::Plus }, &self.mag);
        let b = BigInt::from_slice(if other.neg { Sign::Minus } else { Sign::Plus }, &other.mag);
        let (sign, mag) = (a - b).to_u32_digits();
        Int { neg: sign == Sign::Minus, mag }
    }

    /// The difference of two integers.
    pub fn sub(&self, other: &Int) -> (r: Int)
        ensures
            r@ == self@ - other@,
    {
        self.big_sub(other)
    }

    /// `BigInt * BigInt`: the exact product.
    #[verifier::external_body]
    fn big_mul(&self, other: &Int) -> (r: Int)
        ensures
            r@ == self@ * other@,
    {
        let a = BigInt::from_slice(if self.neg { Sign::Minus } else { Sign::Plus }, &self.mag);
        let b = BigInt::from_slice(if other.neg { Sign::Minus } else { Sign::Plus }, &other.mag);
        let (sign, mag) = (a * b).to_u32_digits();
        Int { neg: sign == Sign::Minus, mag }
    }

    /// The product of two integers.
    pub fn mul(&self, other: &Int) -> (r: Int)
        ensures
            r@ == self@ * other@,
    {
        self.big_mul(other)
    }

    /// `BigInt % BigInt`: the remainder of division rounding toward zero; it has the sign of
    /// `self`. `num-bigint` panics when `other` is zero.
    #[verifier::external_body]
    fn big_rem(&self, other: &Int) -> (r: Int)
        requires
            other@ != 0,
        ensures
            r@ == trunc_rem(self@, other@),
    {
        let a = BigInt::from_slice(if self.neg { Sign::Minus } else { Sign::Plus }, &self.mag);
        let b = BigInt::from_slice(if other.neg { Sign::Minus } else { Sign::Plus }, &other.mag);
        let (sign, mag) = (a % b).to_u32_digits();
        Int { neg: sign == Sign::Minus, mag }
    }

    /// The remainder of dividing by `other`, rounding toward zero; it has the sign of `self`.
    pub fn rem(&self, other: &Int) -> (r: Int)
        requires
            other@ != 0,
        ensures
            r@ == trunc_rem(self@, other@),
    {
        self.big_rem(other)
    }

    /// `ToPrimitive::to_usize` on a `BigInt`: the value as a `usize` when it fits.
    #[verifier::external_body]
    fn big_to_usize(&self) -> (r: Option<usize>)
        ensures
            r == (if 0 <= self@ <= usize::MAX {
                Some(self@ as usize)
            } else {
                None
            }),
    {
        BigInt::from_slice(if self.neg { Sign::Minus } else { Sign::Plus }, &self.mag).to_usize()
    }

    /// The value as a `usize`, when it fits.
    pub fn to_usize(&self) -> (r: Option<usize>)
        ensures
            r == (if 0 <= self@ <= usize::MAX {
                Some(self@ as usize)
            } else {
                None
            }),
    {
        self.big_to_usize()
    }

    /// `ToPrimitive::to_i64` on a `BigInt`: the value as an `i64` when it fits.
    #[verifier::external_body]
    fn big_to_i64(&self) -> (r: Option<i64>)
        ensures
            r == (if i64::MIN <= self@ <= i64::MAX {
                Some(self@ as i64)
            } else {
                None
            }),
    {
        BigInt::from_slice(if self.neg { Sign::Minus } else { Sign::Plus }, &self.mag).to_i64()
    }

    /// The value as an `i64`, when it fits.
    pub fn to_i64(&self) -> (r: Option<i64>)
        ensures
            r == (if i64::MIN <= self@ <= i64::MAX {
                Some(self@ as i64)
            } else {
                None
            }),
    {
        self.big_to_i64()
    }

    /// `ToString::to_string` on a `BigInt`, through its `Display`: the value in decimal.
    #[verifier::external_body]
    fn big_to_decimal_string(&self) -> (r: String)
        ensures
            r@ == decimal_string(self@),
    {
        BigInt::from_slice(if self.neg { Sign::Minus } else { Sign::Plus }, &self.mag).to_string()
    }

    /// The value written in decimal.
    pub fn to_decimal_string(&self) -> (r: String)
        ensures
            r@ == decimal_string(self@),
    {
        self.big_to_decimal_string()
    }

    /// `PartialEq::eq` on two `BigInt`s: whether the two integers are equal.
    #[verifier::external_body]
    fn big_equals(&self, other: &Int) -> (r: bool)
        ensures
            r == (self@ == other@),
    {
        BigInt::from_slice(if self.neg { Sign::Minus } else { Sign::Plus }, &self.mag)
            == BigInt::from_slice(if other.neg { Sign::Minus } else { Sign::Plus }, &other.mag)
    }

    /// Whether the two integers are equal.
    pub fn equals(&self, other: &Int) -> (r: bool)
        ensures
            r == (self@ == other@),
    {
        self.big_equals(other)
    }

    /// `str::parse::<BigInt>` on a non-empty string of ASCII digits: its decimal value.
    #[verifier::external_body]
    fn big_from_decimal(digits: &str) -> (r: Int)
        requires
            digits@.len() > 0,
            all_digits(digits@),
        ensures
            r@ == decimal_value(digits@) as int,
    {
        let (sign, mag) = digits.parse::<BigInt>().unwrap().to_u32_digits();
        Int { neg: sign == Sign::Minus, mag }
    }

    /// The integer written by a non-empty string of decimal digits.
    pub fn from_decimal(digits: &str) -> (r: Int)
        requires
            digits@.len() > 0,
            all_digits(digits@),
        ensures
            r@ == decimal_value(digits@) as int,
    {
        Int::big_from_decimal(digits)
    }

    /// `num_traits::pow` of the `BigInt` ten: ten to the power `exp`.
    #[verifier::external_body]
    fn big_pow10(exp: usize) -> (r: Int)
        ensures
            r@ == pow(10, exp as nat),
    {
        let (sign, mag) = num_traits::pow(BigInt::from(10u8), exp).to_u32_digits();
        Int { neg: sign == Sign::Minus, mag }
    }

    /// Ten to the power `exp`.
    pub fn pow10(exp: usize) -> (r: Int)
        ensures
            r@ == pow(10, exp as nat),
    {
        Int::big_pow10(exp)
    }
}

/// A fraction in lowest terms: the denominator is positive and shares no factor greater than
/// one with the numerator.
#[derive(Debug, PartialEq, Eq)]
pub struct Frac {
    num: Int,
    den: Int,
}

impl Frac {
    #[verifier::type_invariant]
    spec fn well_formed(&self) -> bool {
        &&& self.den@ > 0
        &&& coprime(self.num@, self.den@)
    }

    /// The numerator and the denominator.
    pub closed spec fn view(&self) -> (int, int) {
        (self.num@, self.den@)
    }

    /// The numerator.
    pub fn numer(&self) -> (r: Int)
        ensures
            r@ == self@.0,
    {
        self.num.copy()
    }

    /// The denominator.
    pub fn denom(&self) -> (r: Int)
        ensures
            r@ == self@.1,
            r@ > 0,
    {
        proof {
            use_type_invariant(self);
        }
        self.den.copy()
    }

    /// A copy of this fraction.
    pub fn copy(&self) -> (r: Frac)
        ensures
            r@ == self@,
    {
        proof {
            use_type_invariant(self);
        }
        Frac { num: self.num.copy(), den: self.den.copy() }
    }

    /// Whether the two fractions are equal. Both are in lowest terms with a positive
    /// denominator, so they are equal exactly when numerators and denominators are.
    pub fn equals(&self, other: &Frac) -> (r: bool)
        ensures
            r == (self@ == other@),
    {
        self.num.equals(&other.num) && self.den.equals(&other.den)
    }

    /// Returns true if this fraction is zero.
    pub fn is_zero(&self) -> (r: bool)
        ensures
            r == (self@.0 == 0),
    {
        self.num.is_zero()
    }

    /// The negation of this fraction.
    pub fn neg(&self) -> (r: Frac)
        ensures
            r@ == (-self@.0, self@.1),
    {
        proof {
            use_type_invariant(self);
            let (n, d) = self@;
            assert forall|k: int| k > 1 implies !(#[trigger] divides(k, -n) && divides(k, d)) by {
                if divides(k, -n) && divides(k, d) {
                    lemma_divides_neg(k, -n);
                    assert(-(-n) == n);
                    assert(divides(k, n) && divides(k, d));
                }
            }
        }
        Frac { num: self.num.neg(), den: self.den.copy() }
    }

    /// `BigRational::new`: the fraction `numer / denom` in lowest terms. `num-rational`
    /// panics when `denom` is zero.
    #[verifier::external_body]
    fn ratio_new(numer: &Int, denom: &Int) -> (r: Frac)
        requires
            denom@ != 0,
        ensures
            r@.0 * denom@ == numer@ * r@.1,
            r@.1 > 0,
            coprime(r@.0, r@.1),
    {
        let n = BigInt::from_slice(if numer.neg { Sign::Minus } else { Sign::Plus }, &numer.mag);
        let d = BigInt::from_slice(if denom.neg { Sign::Minus } else { Sign::Plus }, &denom.mag);
        let (n, d) = BigRational::new(n, d).into_raw();
        let ((ns, nm), (_, dm)) = (n.to_u32_digits(), d.to_u32_digits());
        Frac { num: Int { neg: ns == Sign::Minus, mag: nm }, den: Int { neg: false, mag: dm } }
    }

    /// The fraction `numer / denom` in lowest terms.
    pub fn new(numer: &Int, denom: &Int) -> (r: Frac)
        requires
            denom@ != 0,
        ensures
            r@.0 * denom@ == numer@ * r@.1,
            r@.1 > 0,
            coprime(r@.0, r@.1),
    {
        Frac::ratio_new(numer, denom)
    }

    /// The integer `i` as a fraction over one.
    pub fn from_int(i: &Int) -> (r: Frac)
        ensures
            r@ == (i@, 1int),
    {
        let one = Int::one();
        let r = Frac::new(i, &one);
        proof {
            let (n, d) = r@;
            assert(n * one@ == n) by (nonlinear_arith)
                requires
                    one@ == 1,
            ;
            if d > 1 {
                assert(n == i@ * d);
                assert(divides(d, n)) by {
                    vstd::arithmetic::div_mod::lemma_mod_multiples_basic(i@, d);
                }
                vstd::arithmetic::div_mod::lemma_mod_self_0(d);
                assert(divides(d, d));
                assert(false);
            }
            assert(d == 1);
            assert(i@ * d == i@) by (nonlinear_arith)
                requires
                    d == 1,
            ;
        }
        r
    }

    /// `BigRational + BigRational`: the exact sum, in lowest terms.
    #[verifier::external_body]
    fn ratio_add(&self, other: &Frac) -> (r: Frac)
        ensures
            r@.0 * (self@.1 * other@.1) == (self@.0 * other@.1 + other@.0 * self@.1) * r@.1,
            r@.1 > 0,
            coprime(r@.0, r@.1),
    {
        let a = Ratio::new_raw(BigInt::from_slice(if self.num.neg { Minus } else { Plus }, &self.num.mag), BigInt::from_slice(Plus, &self.den.mag));
        let b = Ratio::new_raw(BigInt::from_slice(if other.num.neg { Minus } else { Plus }, &other.num.mag), BigInt::from_slice(Plus, &other.den.mag));
        let (n, d) = (a + b).into_raw();
        let ((ns, nm), (_, dm)) = (n.to_u32_digits(), d.to_u32_digits());
        Frac { num: Int { neg: ns == Sign::Minus, mag: nm }, den: Int { neg: false, mag: dm } }
    }

    /// The sum of two fractions, in lowest terms.
    pub fn add(&self, other: &Frac) -> (r: Frac)
        ensures
            r@.0 * (self@.1 * other@.1) == (self@.0 * other@.1 + other@.0 * self@.1) * r@.1,
            r@.1 > 0,
            coprime(r@.0, r@.1),
    {
        self.ratio_add(other)
    }

    /// `BigRational - BigRational`: the exact difference, in lowest terms.
    #[verifier::external_body]
    fn ratio_sub(&self, other: &Frac) -> (r: Frac)
        ensures
            r@.0 * (self@.1 * other@.1) == (self@.0 * other@.1 - other@.0 * self@.1) * r@.1,
            r@.1 > 0,
            coprime(r@.0, r@.1),
    {
        let a = Ratio::new_raw(BigInt::from_slice(if self.num.neg { Minus } else { Plus }, &self.num.mag), BigInt::from_slice(Plus, &self.den.mag));
        let b = Ratio::new_raw(BigInt::from_slice(if other.num.neg { Minus } else { Plus }, &other.num.mag), BigInt::from_slice(Plus, &other.den.mag));
        let (n, d) = (a - b).into_raw();
        let ((ns, nm), (_, dm)) = (n.to_u32_digits(), d.to_u32_digits());
        Frac { num: Int { neg: ns == Sign::Minus, mag: nm }, den: Int { neg: false, mag: dm } }
    }

    /// The difference of two fractions, in lowest terms.
    pub fn sub(&self, other: &Frac) -> (r: Frac)
        ensures
            r@.0 * (self@.1 * other@.1) == (self@.0 * other@.1 - other@.0 * self@.1) * r@.1,
            r@.1 > 0,
            coprime(r@.0, r@.1),
    {
        self.ratio_sub(other)
    }

    /// `BigRational * BigRational`: the exact product, in lowest terms.
    #[verifier::external_body]
    fn ratio_mul(&self, other: &Frac) -> (r: Frac)
        ensures
            r@.0 * (self@.1 * other@.1) == (self@.0 * other@.0) * r@.1,
            r@.1 > 0,
            coprime(r@.0, r@.1),
    {
        let a = Ratio::new_raw(BigInt::from_slice(if self.num.neg { Minus } else { Plus }, &self.num.mag), BigInt::from_slice(Plus, &self.den.mag));
        let b = Ratio::new_raw(BigInt::from_slice(if other.num.neg { Minus } else { Plus }, &other.num.mag), BigInt::from_slice(Plus, &other.den.mag));
        let (n, d) = (a * b).into_raw();
        let ((ns, nm), (_, dm)) = (n.to_u32_digits(), d.to_u32_digits());
        Frac { num: Int { neg: ns == Sign::Minus, mag: nm }, den: Int { neg: false, mag: dm } }
    }

    /// The product of two fractions, in lowest terms.
    pub fn mul(&self, other: &Frac) -> (r: Frac)
        ensures
            r@.0 * (self@.1 * other@.1) == (self@.0 * other@.0) * r@.1,
            r@.1 > 0,
            coprime(r@.0, r@.1),
    {
        self.ratio_mul(other)
    }

    /// `BigRational / BigRational`: the exact quotient, in lowest terms. `num-rational`
    /// panics when `other` is zero.
    #[verifier::external_body]
    fn ratio_div(&self, other: &Frac) -> (r: Frac)
        requires
            other@.0 != 0,
        ensures
            r@.0 * (self@.1 * other@.0) == (self@.0 * other@.1) * r@.1,
            r@.1 > 0,
            coprime(r@.0, r@.1),
    {
        let a = Ratio::new_raw(BigInt::from_slice(if self.num.neg { Minus } else { Plus }, &self.num.mag), BigInt::from_slice(Plus, &self.den.mag));
        let b = Ratio::new_raw(BigInt::from_slice(if other.num.neg { Minus } else { Plus }, &other.num.mag), BigInt::from_slice(Plus, &other.den.mag));
        let (n, d) = (a / b).into_raw();
        let ((ns, nm), (_, dm)) = (n.to_u32_digits(), d.to_u32_digits());
        Frac { num: Int { neg: ns == Sign::Minus, mag: nm }, den: Int { neg: false, mag: dm } }
    }

    /// The quotient of two fractions, in lowest terms.
    pub fn div(&self, other: &Frac) -> (r: Frac)
        requires
            other@.0 != 0,
        ensures
            r@.0 * (self@.1 * other@.0) == (self@.0 * other@.1) * r@.1,
            r@.1 > 0,
            coprime(r@.0, r@.1),
    {
        self.ratio_div(other)
    }
}

/// If `k` divides `a`, it divides `-a`.
pub proof fn lemma_divides_neg(k: int, a: int)
    requires
        k > 1,
        divides(k, a),
    ensures
        divides(k, -a),
{
    vstd::arithmetic::div_mod::lemma_fundamental_div_mod(a, k);
    let q = a / k;
    assert(a == k * q);
    assert(-a == k * (-q)) by (nonlinear_arith)
        requires
            a == k * q,
    ;
    vstd::arithmetic::div_mod::lemma_mod_multiples_basic(-q, k);
    assert((-q) * k == k * (-q)) by (nonlinear_arith);
}

/// Digits with a non-zero most significant digit have a non-zero value.
pub proof fn lemma_limbs_val_zero(s: Seq<u32>)
    requires
        s.len() > 0 ==> s.last() != 0,
    ensures
        (limbs_val(s) == 0) == (s.len() == 0),
    decreases s.len(),
{
    if s.len() > 1 {
        let t = s.subrange(1, s.len() as int);
        assert(t.last() == s.last());
        lemma_limbs_val_zero(t);
    }
}

} // verus!
