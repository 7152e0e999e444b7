//! Arbitrary-precision integers: sign and magnitude as plain data, with the
//! arithmetic done by `num_bigint`.

use crate::lexer::digit;
use num_bigint::{BigInt, Sign};
use vstd::prelude::*;
use vstd::std_specs::cmp::PartialEqSpecImpl;

verus! {

/// An integer of any size: a sign and a magnitude in base 2^32, least
/// significant limb first. Every pair of fields stands for an integer; zero
/// limbs at the high end and a sign on zero change nothing.
#[derive(Debug)]
pub struct Integer {
    pub negative: bool,
    pub limbs: Vec<u32>,
}

/// The natural number that `limbs` spell in base 2^32, least significant
/// limb first.
pub open spec fn limbs_value(limbs: Seq<u32>) -> nat
    decreases limbs.len(),
{
    if limbs.len() == 0 {
        0
    } else {
        limbs[0] as nat + 0x1_0000_0000 * limbs_value(limbs.drop_first())
    }
}

/// The natural number that the decimal digits `digits` spell, most
/// significant digit first.
pub open spec fn decimal_value(digits: Seq<char>) -> nat
    decreases digits.len(),
{
    if digits.len() == 0 {
        0
    } else {
        (10 * decimal_value(digits.drop_last()) + (digits.last() as nat - '0' as nat)) as nat
    }
}

/// Whether `text` is a decimal literal: one digit or more, and nothing else.
pub open spec fn is_decimal(text: Seq<char>) -> bool {
    text.len() > 0 && forall|i: int| 0 <= i < text.len() ==> digit(#[trigger] text[i])
}

impl View for Integer {
    type V = int;

    /// The integer that the value stands for.
    open spec fn view(&self) -> int {
        if self.negative {
            -(limbs_value(self.limbs@) as int)
        } else {
            limbs_value(self.limbs@) as int
        }
    }
}

// -------------------------------------------------------------------------- //
// Calls into num_bigint                                                      //
// -------------------------------------------------------------------------- //

/// `BigInt::from_str` on a decimal literal: the digits are read in base ten,
/// and the result is handed back as sign and limbs (`BigInt::to_u32_digits`).
#[verifier::external_body]
fn parse_decimal(digits: &str) -> (n: Integer)
    requires
        is_decimal(digits@),
    ensures
        n@ == decimal_value(digits@),
{
    let big: BigInt = digits.parse().unwrap();
    let (sign, limbs) = big.to_u32_digits();
    Integer { negative: sign == Sign::Minus, limbs }
}

/// `BigInt + BigInt`: both operands are built with `BigInt::from_slice`, and
/// the sum is handed back as sign and limbs.
#[verifier::external_body]
pub(crate) fn big_sum(a: &Integer, b: &Integer) -> (sum: Integer)
    ensures
        sum@ == a@ + b@,
{
    let x = BigInt::from_slice(if a.negative { Sign::Minus } else { Sign::Plus }, &a.limbs);
    let y = BigInt::from_slice(if b.negative { Sign::Minus } else { Sign::Plus }, &b.limbs);
    let (sign, limbs) = (x + y).to_u32_digits();
    Integer { negative: sign == Sign::Minus, limbs }
}

/// `BigInt * BigInt`: both operands are built with `BigInt::from_slice`, and
/// the product is handed back as sign and limbs.
#[verifier::external_body]
pub(crate) fn big_product(a: &Integer, b: &Integer) -> (product: Integer)
    ensures
        product@ == a@ * b@,
{
    let x = BigInt::from_slice(if a.negative { Sign::Minus } else { Sign::Plus }, &a.limbs);
    let y = BigInt::from_slice(if b.negative { Sign::Minus } else { Sign::Plus }, &b.limbs);
    let (sign, limbs) = (x * y).to_u32_digits();
    Integer { negative: sign == Sign::Minus, limbs }
}

/// `BigInt == BigInt`: whether the two operands stand for the same integer.
#[verifier::external_body]
fn big_equal(a: &Integer, b: &Integer) -> (same: bool)
    ensures
        same == (a@ == b@),
{
    let x = BigInt::from_slice(if a.negative { Sign::Minus } else { Sign::Plus }, &a.limbs);
    let y = BigInt::from_slice(if b.negative { Sign::Minus } else { Sign::Plus }, &b.limbs);
    x == y
}

/// `BigInt < BigInt`: whether the first operand is the smaller integer.
#[verifier::external_body]
pub(crate) fn big_less(a: &Integer, b: &Integer) -> (less: bool)
    ensures
        less == (a@ < b@),
{
    let x = BigInt::from_slice(if a.negative { Sign::Minus } else { Sign::Plus }, &a.limbs);
    let y = BigInt::from_slice(if b.negative { Sign::Minus } else { Sign::Plus }, &b.limbs);
    x < y
}

/// `usize::try_from(&BigInt)`: the integer as a `usize` where it is one.
#[verifier::external_body]
pub(crate) fn big_to_usize(a: &Integer) -> (count: Option<usize>)
    ensures
        count == if 0 <= a@ <= usize::MAX {
            Some(a@ as usize)
        } else {
            None
        },
{
    let x = BigInt::from_slice(if a.negative { Sign::Minus } else { Sign::Plus }, &a.limbs);
    usize::try_from(&x).ok()
}

// -------------------------------------------------------------------------- //
// The integer's own operations                                               //
// -------------------------------------------------------------------------- //

impl Integer {
    /// The integer that the decimal literal `text` spells; `None` where
    /// `text` is empty or holds anything but ASCII digits.
    pub fn from_decimal(text: &str) -> (n: Option<Integer>)
        ensures
            n is Some <==> is_decimal(text@),
            n matches Some(value) ==> value@ == decimal_value(text@),
    {
        let mut empty = true;
        for c in it: text.chars()
            invariant
                empty == (it.index() == 0),
                it.seq() == text@,
                forall|i: int| 0 <= i < it.index() ==> digit(#[trigger] text@[i]),
        {
            if !(c >= '0' && c <= '9') {
                assert(!digit(text@[it.index() as int]));
                return None;
            }
            empty = false;
        }
        if empty {
            None
        } else {
            Some(parse_decimal(text))
        }
    }

    /// The integer `value`.
    pub fn from_i64(value: i64) -> (n: Integer)
        ensures
            n@ == value,
    {
        let negative = value < 0;
        let magnitude: u64 = if negative {
            ((-(value + 1)) as u64) + 1
        } else {
            value as u64
        };
        let low: u32 = (magnitude & 0xffff_ffff) as u32;
        let high: u32 = (magnitude >> 32) as u32;
        assert(low + 0x1_0000_0000 * high == magnitude) by (bit_vector)
            requires
                low == (magnitude & 0xffff_ffff) as u32,
                high == (magnitude >> 32) as u32,
        ;
        let mut limbs: Vec<u32> = Vec::new();
        limbs.push(low);
        limbs.push(high);
        proof {
            reveal_with_fuel(limbs_value, 3);
            assert(limbs@.drop_first() =~= seq![high]);
            assert(limbs@.drop_first().drop_first() =~= Seq::<u32>::empty());
        }
        Integer { negative, limbs }
    }
}

impl Clone for Integer {
    fn clone(&self) -> (copy: Self)
        ensures
            copy.negative == self.negative,
            copy.limbs@ == self.limbs@,
    {
        Integer { negative: self.negative, limbs: self.limbs.clone() }
    }
}

impl PartialEq for Integer {
    /// Two integers are equal where they stand for the same number.
    fn eq(&self, other: &Self) -> (same: bool) {
        big_equal(self, other)
    }
}

impl PartialEqSpecImpl for Integer {
    open spec fn obeys_eq_spec() -> bool {
        true
    }

    open spec fn eq_spec(&self, other: &Self) -> bool {
        self@ == other@
    }
}

} // verus!
