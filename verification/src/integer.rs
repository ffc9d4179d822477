use vstd::prelude::*;
use num_bigint::{BigInt, ParseBigIntError, Sign};

verus! {

#[verifier::external_type_specification]
#[verifier::external_body]
pub struct ExParseBigIntError(ParseBigIntError);

/// The value of base-2^32 digits, least significant first.
pub open spec fn magnitude_value(d: Seq<u32>) -> nat
    decreases d.len(),
{
    if d.len() == 0 {
        0
    } else {
        d[0] as nat + 4294967296 * magnitude_value(d.drop_first())
    }
}

pub open spec fn abs(a: int) -> nat {
    if a < 0 { (-a) as nat } else { a as nat }
}

/// Quotient of `a / b` rounded toward zero.
pub open spec fn trunc_quotient(a: int, b: int) -> int {
    let q = abs(a) / abs(b);
    if (a < 0) == (b < 0) { q as int } else { -q }
}

/// Remainder of `a / b` rounded toward zero: it has the sign of `a`.
pub open spec fn trunc_remainder(a: int, b: int) -> int {
    let r = abs(a) % abs(b);
    if a < 0 { -r } else { r as int }
}

/// The character of a decimal digit.
pub open spec fn digit_char(d: nat) -> char {
    (48 + d) as char
}

/// The decimal digits of `n`, without leading zeros ("0" for zero).
pub open spec fn nat_decimal(n: nat) -> Seq<char>
    decreases n,
{
    if n < 10 {
        seq![digit_char(n)]
    } else {
        nat_decimal(n / 10).push(digit_char(n % 10))
    }
}

/// The decimal text of `v`: its digits, after a '-' when it is negative.
pub open spec fn decimal_text(v: int) -> Seq<char> {
    if v < 0 { seq!['-'] + nat_decimal(abs(v)) } else { nat_decimal(abs(v)) }
}

pub open spec fn is_digit(c: char) -> bool {
    '0' <= c && c <= '9'
}

pub open spec fn all_digits(s: Seq<char>) -> bool {
    forall|i: int| 0 <= i < s.len() ==> is_digit(#[trigger] s[i])
}

/// The value of a string of decimal digits.
pub open spec fn decimal_value(s: Seq<char>) -> nat
    decreases s.len(),
{
    if s.len() == 0 {
        0
    } else {
        10 * decimal_value(s.drop_last()) + (s.last() as nat - 48) as nat
    }
}

/// The value of unsigned decimal text in which `_` may stand between and
/// after digits; `None` for empty text, text that starts with `_`, or text
/// with any other character.
pub open spec fn unsigned_decimal(t: Seq<char>) -> Option<nat> {
    if t.len() == 0 || t[0] == '_' || !(forall|i: int| 0 <= i < t.len() ==> is_digit(#[trigger] t[i]) || t[i] == '_') {
        None
    } else {
        Some(decimal_value(t.filter(|c: char| c != '_')))
    }
}

/// What `BigInt::from_str` gives on a text: an optional `-` (not followed by
/// `+`), then an optional `+` (not followed by another `+`), then unsigned
/// decimal text; `None` when the text is refused.
pub open spec fn parsed_decimal(s: Seq<char>) -> Option<int> {
    let negative = s.len() > 0 && s[0] == '-' && !(s.len() > 1 && s[1] == '+');
    let rest = if negative { s.drop_first() } else { s };
    let digits = if rest.len() > 0 && rest[0] == '+' && !(rest.len() > 1 && rest[1] == '+') {
        rest.drop_first()
    } else {
        rest
    };
    match unsigned_decimal(digits) {
        Some(v) => Some(if negative { -(v as int) } else { v as int }),
        None => None,
    }
}

/// Whether `a` is made of one bit repeated without end in two's
/// complement: `0` or `-1`.
pub open spec fn is_sign_only(a: int) -> bool {
    a == 0 || a == -1
}

/// The result of `&` on two's complement integers of unbounded width: bit
/// by bit from the lowest, until only sign bits are left.
pub open spec fn integer_and(a: int, b: int) -> int
    decreases abs(a) + abs(b),
{
    if is_sign_only(a) && is_sign_only(b) {
        if a == -1 && b == -1 { -1 } else { 0 }
    } else {
        2 * integer_and(a / 2, b / 2) + (if a % 2 == 1 && b % 2 == 1 { 1int } else { 0 })
    }
}

/// The result of `^` on two's complement integers of unbounded width.
pub open spec fn integer_xor(a: int, b: int) -> int
    decreases abs(a) + abs(b),
{
    if is_sign_only(a) && is_sign_only(b) {
        if a != b { -1 } else { 0 }
    } else {
        2 * integer_xor(a / 2, b / 2) + (if a % 2 != b % 2 { 1int } else { 0 })
    }
}

/// The result of `|` on two's complement integers of unbounded width.
pub open spec fn integer_or(a: int, b: int) -> int
    decreases abs(a) + abs(b),
{
    if is_sign_only(a) && is_sign_only(b) {
        if a == -1 || b == -1 { -1 } else { 0 }
    } else {
        2 * integer_or(a / 2, b / 2) + (if a % 2 == 1 || b % 2 == 1 { 1int } else { 0 })
    }
}


/// An integer of unbounded size: a sign and a magnitude in base-2^32
/// digits, least significant first.
#[derive(Clone, Debug, PartialEq, Eq)]
pub struct BigInteger {
    negative: bool,
    magnitude: Vec<u32>,
}

impl View for BigInteger {
    type V = int;

    closed spec fn view(&self) -> int {
        if self.negative {
            -magnitude_value(self.magnitude@)
        } else {
            magnitude_value(self.magnitude@) as int
        }
    }
}

impl BigInteger {
    /// The integer 0.
    pub fn zero() -> (r: BigInteger)
        ensures
            r@ == 0,
    {
        BigInteger { negative: false, magnitude: Vec::new() }
    }

    /// The integer `n`.
    pub fn from_u64(n: u64) -> (r: BigInteger)
        ensures
            r@ == n as int,
    {
        let lo = (n & 0xffff_ffff) as u32;
        let hi = (n >> 32) as u32;
        assert(n == lo + hi * 4294967296) by (bit_vector)
            requires
                lo == (n & 0xffff_ffff) as u32,
                hi == (n >> 32) as u32,
        ;
        let mut magnitude: Vec<u32> = Vec::new();
        if hi != 0 {
            magnitude.push(lo);
            magnitude.push(hi);
            proof {
                reveal_with_fuel(magnitude_value, 3);
                assert(magnitude@.drop_first().drop_first() =~= Seq::<u32>::empty());
            }
        } else if lo != 0 {
            magnitude.push(lo);
            proof {
                reveal_with_fuel(magnitude_value, 2);
                assert(magnitude@.drop_first() =~= Seq::<u32>::empty());
            }
        }
        BigInteger { negative: false, magnitude }
    }

    /// `BigInt::from_str`: parses decimal text, with an optional sign and `_`
    /// between digits, as `parsed_decimal` states (`None` for an error); on a
    /// non-empty string of decimal digits it succeeds with the value of the
    /// digits.
    #[verifier::external_body]
    pub(crate) fn parse_decimal(s: &str) -> (r: Result<BigInteger, ParseBigIntError>)
        ensures
            parsed_decimal(s@) == (match r {
                Ok(v) => Some(v@),
                Err(_) => None,
            }),
            s@.len() > 0 && all_digits(s@) ==> (match r {
                Ok(v) => v@ == decimal_value(s@),
                Err(_) => false,
            }),
    {
        let v: BigInt = s.parse()?;
        let (sign, magnitude) = v.to_u32_digits();
        Ok(BigInteger { negative: sign == Sign::Minus, magnitude })
    }

    /// `BigInt`'s `Display`: the decimal text of the value.
    #[verifier::external_body]
    pub(crate) fn to_decimal(&self) -> (r: String)
        ensures
            r@ == decimal_text(self@),
    {
        let sign = if self.negative { Sign::Minus } else { Sign::Plus };
        BigInt::from_slice(sign, &self.magnitude).to_string()
    }

    /// `BigInt + BigInt`: the sum.
    #[verifier::external_body]
    pub(crate) fn add(&self, other: &BigInteger) -> (r: BigInteger)
        ensures
            r@ == self@ + other@,
    {
        let a = BigInt::from_slice(if self.negative { Sign::Minus } else { Sign::Plus }, &self.magnitude);
        let b = BigInt::from_slice(if other.negative { Sign::Minus } else { Sign::Plus }, &other.magnitude);
        let (sign, magnitude) = (a + b).to_u32_digits();
        BigInteger { negative: sign == Sign::Minus, magnitude }
    }

    /// `BigInt - BigInt`: the difference.
    #[verifier::external_body]
    pub(crate) fn sub(&self, other: &BigInteger) -> (r: BigInteger)
        ensures
            r@ == self@ - other@,
    {
        let a = BigInt::from_slice(if self.negative { Sign::Minus } else { Sign::Plus }, &self.magnitude);
        let b = BigInt::from_slice(if other.negative { Sign::Minus } else { Sign::Plus }, &other.magnitude);
        let (sign, magnitude) = (a - b).to_u32_digits();
        BigInteger { negative: sign == Sign::Minus, magnitude }
    }

    /// `BigInt * BigInt`: the product.
    #[verifier::external_body]
    pub(crate) fn mul(&self, other: &BigInteger) -> (r: BigInteger)
        ensures
            r@ == self@ * other@,
    {
        let a = BigInt::from_slice(if self.negative { Sign::Minus } else { Sign::Plus }, &self.magnitude);
        let b = BigInt::from_slice(if other.negative { Sign::Minus } else { Sign::Plus }, &other.magnitude);
        let (sign, magnitude) = (a * b).to_u32_digits();
        BigInteger { negative: sign == Sign::Minus, magnitude }
    }

    /// `BigInt / BigInt`: the quotient rounded toward zero. It panics on a
    /// zero divisor, which `requires` leaves out.
    #[verifier::external_body]
    pub(crate) fn div(&self, other: &BigInteger) -> (r: BigInteger)
        requires
            other@ != 0,
        ensures
            r@ == trunc_quotient(self@, other@),
    {
        let a = BigInt::from_slice(if self.negative { Sign::Minus } else { Sign::Plus }, &self.magnitude);
        let b = BigInt::from_slice(if other.negative { Sign::Minus } else { Sign::Plus }, &other.magnitude);
        let (sign, magnitude) = (a / b).to_u32_digits();
        BigInteger { negative: sign == Sign::Minus, magnitude }
    }

    /// `BigInt % BigInt`: the remainder of the division rounded toward
    /// zero, with the sign of `self`. It panics on a zero divisor, which
    /// `requires` leaves out.
    #[verifier::external_body]
    pub(crate) fn rem(&self, other: &BigInteger) -> (r: BigInteger)
        requires
            other@ != 0,
        ensures
            r@ == trunc_remainder(self@, other@),
    {
        let a = BigInt::from_slice(if self.negative { Sign::Minus } else { Sign::Plus }, &self.magnitude);
        let b = BigInt::from_slice(if other.negative { Sign::Minus } else { Sign::Plus }, &other.magnitude);
        let (sign, magnitude) = (a % b).to_u32_digits();
        BigInteger { negative: sign == Sign::Minus, magnitude }
    }

    /// The negation: the same digits with the other sign (zero stays
    /// non-negative).
    pub fn neg(&self) -> (r: BigInteger)
        ensures
            r@ == -self@,
    {
        let magnitude = self.duplicate().magnitude;
        let negative = if self.magnitude.len() == 0 {
            false
        } else {
            !self.negative
        };
        proof {
            if self.magnitude@.len() == 0 {
                assert(magnitude_value(self.magnitude@) == 0);
            }
        }
        BigInteger { negative, magnitude }
    }

    /// `!BigInt`: the bitwise complement, which is `-x - 1`.
    #[verifier::external_body]
    pub(crate) fn not(&self) -> (r: BigInteger)
        ensures
            r@ == -self@ - 1,
    {
        let a = BigInt::from_slice(if self.negative { Sign::Minus } else { Sign::Plus }, &self.magnitude);
        let (sign, magnitude) = (!a).to_u32_digits();
        BigInteger { negative: sign == Sign::Minus, magnitude }
    }

    /// `BigInt & BigInt`: bitwise and in two's complement.
    #[verifier::external_body]
    pub(crate) fn bitand(&self, other: &BigInteger) -> (r: BigInteger)
        ensures
            r@ == integer_and(self@, other@),
    {
        let a = BigInt::from_slice(if self.negative { Sign::Minus } else { Sign::Plus }, &self.magnitude);
        let b = BigInt::from_slice(if other.negative { Sign::Minus } else { Sign::Plus }, &other.magnitude);
        let (sign, magnitude) = (a & b).to_u32_digits();
        BigInteger { negative: sign == Sign::Minus, magnitude }
    }

    /// `BigInt ^ BigInt`: bitwise exclusive or in two's complement.
    #[verifier::external_body]
    pub(crate) fn bitxor(&self, other: &BigInteger) -> (r: BigInteger)
        ensures
            r@ == integer_xor(self@, other@),
    {
        let a = BigInt::from_slice(if self.negative { Sign::Minus } else { Sign::Plus }, &self.magnitude);
        let b = BigInt::from_slice(if other.negative { Sign::Minus } else { Sign::Plus }, &other.magnitude);
        let (sign, magnitude) = (a ^ b).to_u32_digits();
        BigInteger { negative: sign == Sign::Minus, magnitude }
    }

    /// `BigInt | BigInt`: bitwise or in two's complement.
    #[verifier::external_body]
    pub(crate) fn bitor(&self, other: &BigInteger) -> (r: BigInteger)
        ensures
            r@ == integer_or(self@, other@),
    {
        let a = BigInt::from_slice(if self.negative { Sign::Minus } else { Sign::Plus }, &self.magnitude);
        let b = BigInt::from_slice(if other.negative { Sign::Minus } else { Sign::Plus }, &other.magnitude);
        let (sign, magnitude) = (a | b).to_u32_digits();
        BigInteger { negative: sign == Sign::Minus, magnitude }
    }

    /// `BigInt < BigInt`: whether `self` is less than `other`.
    #[verifier::external_body]
    pub(crate) fn less_than(&self, other: &BigInteger) -> (r: bool)
        ensures
            r == (self@ < other@),
    {
        let a = BigInt::from_slice(if self.negative { Sign::Minus } else { Sign::Plus }, &self.magnitude);
        let b = BigInt::from_slice(if other.negative { Sign::Minus } else { Sign::Plus }, &other.magnitude);
        a < b
    }

    /// `BigInt == BigInt`: whether the two values are equal.
    #[verifier::external_body]
    pub(crate) fn equals(&self, other: &BigInteger) -> (r: bool)
        ensures
            r == (self@ == other@),
    {
        let a = BigInt::from_slice(if self.negative { Sign::Minus } else { Sign::Plus }, &self.magnitude);
        let b = BigInt::from_slice(if other.negative { Sign::Minus } else { Sign::Plus }, &other.magnitude);
        a == b
    }

    /// A copy of the value.
    pub fn duplicate(&self) -> (r: BigInteger)
        ensures
            r@ == self@,
    {
        let mut magnitude: Vec<u32> = Vec::new();
        let mut i: usize = 0;
        while i < self.magnitude.len()
            invariant
                i <= self.magnitude@.len(),
                magnitude@ == self.magnitude@.take(i as int),
            decreases self.magnitude@.len() - i,
        {
            magnitude.push(self.magnitude[i]);
            i = i + 1;
        }
        assert(magnitude@ =~= self.magnitude@);
        BigInteger { negative: self.negative, magnitude }
    }
}

} // verus!
