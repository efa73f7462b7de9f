//! Decimal amounts (prices, quantities, cash balances).
//!
//! An `Amount` holds exactly what a `rust_decimal::Decimal` holds: a signed
//! mantissa of at most 96 bits and a scale (number of fractional digits) of
//! at most 28. Its numeric value is `mantissa / 10^scale`. Arithmetic and
//! comparison are carried out by `rust_decimal` itself, behind the trusted
//! wrappers at the end of this file.
use vstd::prelude::*;
use rust_decimal::Decimal;
use std::cmp::Ordering;
use vstd::std_specs::cmp::PartialEqSpecImpl;

verus! {

/// Largest magnitude of a mantissa: 2^96 - 1.
pub const MAX_MANTISSA: i128 = 79228162514264337593543950335i128;

/// Largest scale (number of fractional digits).
pub const MAX_SCALE: u32 = 28u32;

/// `10^n`.
pub open spec fn pow10(n: nat) -> int
    decreases n,
{
    if n == 0 {
        1
    } else {
        10 * pow10((n - 1) as nat)
    }
}

pub proof fn lemma_pow10_positive(n: nat)
    ensures
        pow10(n) > 0,
    decreases n,
{
    if n > 0 {
        lemma_pow10_positive((n - 1) as nat);
    }
}

pub proof fn lemma_pow10_add(a: nat, b: nat)
    ensures
        pow10(a + b) == pow10(a) * pow10(b),
    decreases b,
{
    if b > 0 {
        lemma_pow10_add(a, (b - 1) as nat);
        assert(pow10(a + b) == 10 * pow10((a + b - 1) as nat));
        assert(pow10(b) == 10 * pow10((b - 1) as nat));
        assert(pow10((a + b - 1) as nat) == pow10(a) * pow10((b - 1) as nat));
        vstd::arithmetic::mul::lemma_mul_is_associative(10, pow10(a), pow10((b - 1) as nat));
        vstd::arithmetic::mul::lemma_mul_is_commutative(10, pow10(a));
        vstd::arithmetic::mul::lemma_mul_is_associative(pow10(a), 10, pow10((b - 1) as nat));
    }
}

/// The outcome of comparing two amounts by value.
#[derive(Clone, Copy, Debug, PartialEq, Eq, Structural)]
pub enum Comparison {
    Less,
    Equal,
    Greater,
}

/// A decimal number `mantissa / 10^scale`, as `rust_decimal::Decimal` holds it.
#[derive(Clone, Copy, Debug)]
pub struct Amount {
    mantissa: i128,
    scale: u32,
}

/// An amount is seen as its (mantissa, scale) pair.
impl View for Amount {
    type V = (int, int);

    closed spec fn view(&self) -> (int, int) {
        (self.mantissa as int, self.scale as int)
    }
}

/// Whether a (mantissa, scale) pair is one that a decimal can hold.
pub open spec fn valid_parts(m: int, s: int) -> bool {
    -MAX_MANTISSA <= m <= MAX_MANTISSA && 0 <= s <= MAX_SCALE
}

/// The value of `m / 10^s`, counted in units of 10^-28.
pub open spec fn parts_value(m: int, s: int) -> int {
    m * pow10((MAX_SCALE - s) as nat)
}

/// The mantissa that a pair takes when it is written at the finer scale `t`.
pub open spec fn aligned_mantissa(p: (int, int), t: int) -> int {
    p.0 * pow10((t - p.1) as nat)
}

pub open spec fn max_int(a: int, b: int) -> int {
    if a >= b {
        a
    } else {
        b
    }
}

/// The result that `rust_decimal` computes for `a + b` (sign `+1`) or
/// `a - b` (sign `-1`) whenever it is exact: an operand of mantissa zero
/// hands back the other operand (negated when it is subtracted); otherwise
/// both operands are written at the larger scale and the mantissas are
/// added, which is exact when the sum fits in 96 bits.
pub open spec fn exact_add_sub(a: (int, int), b: (int, int), sign: int) -> Option<(int, int)> {
    if a.0 == 0 {
        Some((sign * b.0, b.1))
    } else if b.0 == 0 {
        Some(a)
    } else {
        let t = max_int(a.1, b.1);
        let m = aligned_mantissa(a, t) + sign * aligned_mantissa(b, t);
        if -MAX_MANTISSA <= m <= MAX_MANTISSA {
            Some((m, t))
        } else {
            None
        }
    }
}

/// The result that `rust_decimal` computes for `a * b` whenever it is exact:
/// zero when an operand is zero; otherwise the product of the mantissas at
/// the sum of the scales, when that fits.
pub open spec fn exact_product(a: (int, int), b: (int, int)) -> Option<(int, int)> {
    if a.0 == 0 || b.0 == 0 {
        Some((0, 0))
    } else if a.1 + b.1 <= MAX_SCALE && -MAX_MANTISSA <= a.0 * b.0 <= MAX_MANTISSA {
        Some((a.0 * b.0, a.1 + b.1))
    } else {
        None
    }
}

/// What `Decimal::saturating_add` returns for two decimals (the amounts
/// below consult it only where the sum is not exact).
pub uninterp spec fn decimal_saturating_add(a: (int, int), b: (int, int)) -> (int, int);

/// What `Decimal::saturating_sub` returns for two decimals (the amounts
/// below consult it only where the difference is not exact).
pub uninterp spec fn decimal_saturating_sub(a: (int, int), b: (int, int)) -> (int, int);

/// What `Decimal::saturating_mul` returns for two decimals (the amounts
/// below consult it only where the product is not exact).
pub uninterp spec fn decimal_saturating_mul(a: (int, int), b: (int, int)) -> (int, int);

impl Amount {
    /// Every amount is one that a decimal can hold.
    #[verifier::type_invariant]
    pub open spec fn is_valid(self) -> bool {
        valid_parts(self@.0, self@.1)
    }

    /// The numeric value, in units of 10^-28.
    pub open spec fn value(self) -> int {
        parts_value(self@.0, self@.1)
    }

    /// The amount with the given parts (meaningful for valid parts).
    pub closed spec fn from_parts(p: (int, int)) -> Amount {
        Amount { mantissa: p.0 as i128, scale: p.1 as u32 }
    }

    /// `a + b` as `rust_decimal` computes it.
    pub open spec fn spec_add(a: Amount, b: Amount) -> Amount {
        match exact_add_sub(a@, b@, 1) {
            Some(e) => Amount::from_parts(e),
            None => Amount::from_parts(decimal_saturating_add(a@, b@)),
        }
    }

    /// `a - b` as `rust_decimal` computes it.
    pub open spec fn spec_sub(a: Amount, b: Amount) -> Amount {
        match exact_add_sub(a@, b@, -1) {
            Some(e) => Amount::from_parts(e),
            None => Amount::from_parts(decimal_saturating_sub(a@, b@)),
        }
    }

    /// `a * b` as `rust_decimal` computes it.
    pub open spec fn spec_mul(a: Amount, b: Amount) -> Amount {
        match exact_product(a@, b@) {
            Some(e) => Amount::from_parts(e),
            None => Amount::from_parts(decimal_saturating_mul(a@, b@)),
        }
    }

    /// `min` as `Ord::min` defines it: the first argument unless the second
    /// is strictly smaller.
    pub open spec fn spec_min(a: Amount, b: Amount) -> Amount {
        if b.value() < a.value() {
            b
        } else {
            a
        }
    }

    pub proof fn lemma_from_parts(p: (int, int))
        requires
            valid_parts(p.0, p.1),
        ensures
            Amount::from_parts(p)@ == p,
            Amount::from_parts(p).is_valid(),
    {
    }

    pub proof fn lemma_from_view(a: Amount)
        ensures
            Amount::from_parts(a@) == a,
    {
    }

    /// The sign of the value is the sign of the mantissa.
    pub proof fn lemma_parts_value_sign(m: int, s: int)
        ensures
            m > 0 <==> parts_value(m, s) > 0,
            m == 0 <==> parts_value(m, s) == 0,
            m < 0 <==> parts_value(m, s) < 0,
    {
        let p = pow10((MAX_SCALE - s) as nat);
        lemma_pow10_positive((MAX_SCALE - s) as nat);
        assert((m > 0 <==> m * p > 0) && (m == 0 <==> m * p == 0) && (m < 0 <==> m * p < 0))
            by (nonlinear_arith)
            requires
                p > 0,
        ;
    }

    pub proof fn lemma_value_sign(a: Amount)
        ensures
            a@.0 > 0 <==> a.value() > 0,
            a@.0 == 0 <==> a.value() == 0,
            a@.0 < 0 <==> a.value() < 0,
    {
        Amount::lemma_parts_value_sign(a@.0, a@.1);
    }

    /// A mantissa written at a finer scale keeps the value.
    pub proof fn lemma_aligned_value(p: (int, int), t: int)
        requires
            0 <= p.1 <= t <= MAX_SCALE,
        ensures
            parts_value(aligned_mantissa(p, t), t) == parts_value(p.0, p.1),
    {
        let d = (t - p.1) as nat;
        let e = (MAX_SCALE - t) as nat;
        lemma_pow10_add(d, e);
        assert((d + e) as nat == (MAX_SCALE - p.1) as nat);
        vstd::arithmetic::mul::lemma_mul_is_associative(p.0, pow10(d), pow10(e));
    }

    /// An exact sum or difference is a valid decimal with the exact value.
    pub proof fn lemma_exact_add_sub_value(a: (int, int), b: (int, int), sign: int)
        requires
            valid_parts(a.0, a.1),
            valid_parts(b.0, b.1),
            sign == 1 || sign == -1,
            exact_add_sub(a, b, sign) is Some,
        ensures
            ({
                let r = exact_add_sub(a, b, sign).unwrap();
                &&& valid_parts(r.0, r.1)
                &&& parts_value(r.0, r.1) == parts_value(a.0, a.1) + sign * parts_value(b.0, b.1)
            }),
    {
        if a.0 == 0 {
            Amount::lemma_parts_value_sign(a.0, a.1);
            vstd::arithmetic::mul::lemma_mul_is_associative(sign, b.0, pow10((MAX_SCALE - b.1) as nat));
        } else if b.0 == 0 {
            Amount::lemma_parts_value_sign(b.0, b.1);
        } else {
            let t = max_int(a.1, b.1);
            Amount::lemma_aligned_value(a, t);
            Amount::lemma_aligned_value(b, t);
            let ma = aligned_mantissa(a, t);
            let mb = aligned_mantissa(b, t);
            let p = pow10((MAX_SCALE - t) as nat);
            vstd::arithmetic::mul::lemma_mul_is_distributive_add_other_way(p, ma, sign * mb);
            vstd::arithmetic::mul::lemma_mul_is_associative(sign, mb, p);
        }
    }

    /// When `a + b` is exact, its value is the sum of the values.
    pub proof fn lemma_add_exact(a: Amount, b: Amount)
        requires
            a.is_valid(),
            b.is_valid(),
            exact_add_sub(a@, b@, 1) is Some,
        ensures
            Amount::spec_add(a, b).is_valid(),
            Amount::spec_add(a, b).value() == a.value() + b.value(),
    {
        Amount::lemma_exact_add_sub_value(a@, b@, 1);
        Amount::lemma_from_parts(exact_add_sub(a@, b@, 1).unwrap());
    }

    /// When `a - b` is exact, its value is the difference of the values.
    pub proof fn lemma_sub_exact(a: Amount, b: Amount)
        requires
            a.is_valid(),
            b.is_valid(),
            exact_add_sub(a@, b@, -1) is Some,
        ensures
            Amount::spec_sub(a, b).is_valid(),
            Amount::spec_sub(a, b).value() == a.value() - b.value(),
    {
        Amount::lemma_exact_add_sub_value(a@, b@, -1);
        Amount::lemma_from_parts(exact_add_sub(a@, b@, -1).unwrap());
    }

    /// `a - a` is computed exactly, and is zero.
    pub proof fn lemma_sub_self(a: Amount)
        ensures
            exact_add_sub(a@, a@, -1) is Some,
            Amount::spec_sub(a, a).value() == 0,
            Amount::spec_sub(a, a)@.0 == 0,
    {
        let r = Amount::spec_sub(a, a);
        assert(r@ == (0int, a@.1));
        Amount::lemma_value_sign(r);
    }
}

impl Amount {
    /// The amount `mantissa / 10^scale`, or `None` when a decimal cannot hold it.
    pub fn new(mantissa: i128, scale: u32) -> (r: Option<Amount>)
        ensures
            r is Some <==> valid_parts(mantissa as int, scale as int),
            r matches Some(a) ==> a@ == (mantissa as int, scale as int),
    {
        if -MAX_MANTISSA <= mantissa && mantissa <= MAX_MANTISSA && scale <= MAX_SCALE {
            Some(Amount { mantissa, scale })
        } else {
            None
        }
    }

    /// The whole number `n`.
    pub fn from_int(n: i64) -> (r: Amount)
        ensures
            r@ == (n as int, 0int),
    {
        Amount { mantissa: n as i128, scale: 0 }
    }

    /// Zero, as `Decimal::ZERO` holds it.
    pub fn zero() -> (r: Amount)
        ensures
            r@ == (0int, 0int),
            r.value() == 0,
    {
        Amount { mantissa: 0, scale: 0 }
    }

    pub fn mantissa(&self) -> (r: i128)
        ensures
            r as int == self@.0,
    {
        self.mantissa
    }

    pub fn scale(&self) -> (r: u32)
        ensures
            r as int == self@.1,
    {
        self.scale
    }

    /// Compares the two values.
    pub fn compare(&self, other: &Amount) -> (r: Comparison)
        ensures
            r == Comparison::Less <==> self.value() < other.value(),
            r == Comparison::Equal <==> self.value() == other.value(),
            r == Comparison::Greater <==> self.value() > other.value(),
    {
        decimal_compare(*self, *other)
    }

    pub fn lt(&self, other: &Amount) -> (r: bool)
        ensures
            r == (self.value() < other.value()),
    {
        match decimal_compare(*self, *other) {
            Comparison::Less => true,
            _ => false,
        }
    }

    pub fn le(&self, other: &Amount) -> (r: bool)
        ensures
            r == (self.value() <= other.value()),
    {
        match decimal_compare(*self, *other) {
            Comparison::Greater => false,
            _ => true,
        }
    }

    /// Whether the value is strictly above zero.
    pub fn is_positive(&self) -> (r: bool)
        ensures
            r == (self.value() > 0),
    {
        let z = Amount::zero();
        z.lt(self)
    }

    /// The smaller of the two; the first when they are equal.
    pub fn min(self, other: Amount) -> (r: Amount)
        ensures
            r == Amount::spec_min(self, other),
    {
        if other.lt(&self) {
            other
        } else {
            self
        }
    }

    /// The sum, as `rust_decimal` computes it (saturating at the bounds);
    /// it has the sign of the exact sum.
    pub fn plus(self, other: Amount) -> (r: Amount)
        ensures
            r == Amount::spec_add(self, other),
            r.value() > 0 <==> self.value() + other.value() > 0,
            r.value() == 0 <==> self.value() + other.value() == 0,
            r.value() < 0 <==> self.value() + other.value() < 0,
    {
        let r = decimal_add(self, other);
        proof {
            Amount::lemma_from_view(r);
        }
        r
    }

    /// The difference, as `rust_decimal` computes it (saturating at the
    /// bounds); it has the sign of the exact difference.
    pub fn minus(self, other: Amount) -> (r: Amount)
        ensures
            r == Amount::spec_sub(self, other),
            r.value() > 0 <==> self.value() - other.value() > 0,
            r.value() == 0 <==> self.value() - other.value() == 0,
            r.value() < 0 <==> self.value() - other.value() < 0,
    {
        let r = decimal_sub(self, other);
        proof {
            Amount::lemma_from_view(r);
        }
        r
    }

    /// The product, as `rust_decimal` computes it (saturating at the bounds).
    pub fn times(self, other: Amount) -> (r: Amount)
        ensures
            r == Amount::spec_mul(self, other),
    {
        let r = decimal_mul(self, other);
        proof {
            Amount::lemma_from_view(r);
        }
        r
    }
}

/// Amounts are equal when their values are, as decimals are.
impl PartialEq for Amount {
    fn eq(&self, other: &Amount) -> (r: bool) {
        match decimal_compare(*self, *other) {
            Comparison::Equal => true,
            _ => false,
        }
    }
}

impl PartialEqSpecImpl for Amount {
    open spec fn obeys_eq_spec() -> bool {
        true
    }

    open spec fn eq_spec(&self, other: &Amount) -> bool {
        self.value() == other.value()
    }
}

/// `Ord::cmp` of `rust_decimal::Decimal`, which compares the numeric values
/// (it rescales the operand of smaller scale before comparing mantissas).
/// Claimed: the outcome orders `a.value()` and `b.value()`.
#[verifier::external_body]
fn decimal_compare(a: Amount, b: Amount) -> (r: Comparison)
    ensures
        r == Comparison::Less <==> a.value() < b.value(),
        r == Comparison::Equal <==> a.value() == b.value(),
        r == Comparison::Greater <==> a.value() > b.value(),
{
    let x = Decimal::from_i128_with_scale(a.mantissa, a.scale);
    let y = Decimal::from_i128_with_scale(b.mantissa, b.scale);
    match x.cmp(&y) {
        Ordering::Less => Comparison::Less,
        Ordering::Equal => Comparison::Equal,
        Ordering::Greater => Comparison::Greater,
    }
}

/// `Decimal::saturating_add`. Claimed: the result is the decimal that the
/// name `decimal_saturating_add` gives for the two operands, and, where
/// `exact_add_sub` says the sum is exact, it is that exact sum. The claim
/// rests on `add_sub_internal` in ops/add.rs: a zero operand hands back the
/// other one; otherwise the operand of smaller scale is rescaled and the
/// mantissas are added without loss whenever the sum fits in 96 bits (the
/// fast paths, `aligned_add`, and `unaligned_add`). Rounding and saturation
/// (what the name covers) happen only when it does not fit. The result has
/// the sign of the exact sum: rounding (`reduce_scale`, `Buf24::rescale`)
/// only divides a mantissa that exceeds 96 bits, so it never reaches zero,
/// and saturation (`if_a_is_positive_then_max`) picks the bound of the sign
/// of `a`, which an overflowing sum shares.
#[verifier::external_body]
fn decimal_add(a: Amount, b: Amount) -> (r: Amount)
    ensures
        r@ == decimal_saturating_add(a@, b@),
        exact_add_sub(a@, b@, 1) matches Some(e) ==> r@ == e,
        r.value() > 0 <==> a.value() + b.value() > 0,
        r.value() == 0 <==> a.value() + b.value() == 0,
        r.value() < 0 <==> a.value() + b.value() < 0,
{
    let x = Decimal::from_i128_with_scale(a.mantissa, a.scale);
    let y = Decimal::from_i128_with_scale(b.mantissa, b.scale);
    let z = x.saturating_add(y);
    Amount { mantissa: z.mantissa(), scale: z.scale() }
}

/// `Decimal::saturating_sub`. Claimed as for `decimal_add`, with the second
/// operand negated: `0 - b` gives `-b` at the scale of `b`, `a - 0` gives `a`,
/// and otherwise the difference of the aligned mantissas whenever it fits in
/// 96 bits. As for `decimal_add`, the result has the sign of the exact
/// difference.
#[verifier::external_body]
fn decimal_sub(a: Amount, b: Amount) -> (r: Amount)
    ensures
        r@ == decimal_saturating_sub(a@, b@),
        exact_add_sub(a@, b@, -1) matches Some(e) ==> r@ == e,
        r.value() > 0 <==> a.value() - b.value() > 0,
        r.value() == 0 <==> a.value() - b.value() == 0,
        r.value() < 0 <==> a.value() - b.value() < 0,
{
    let x = Decimal::from_i128_with_scale(a.mantissa, a.scale);
    let y = Decimal::from_i128_with_scale(b.mantissa, b.scale);
    let z = x.saturating_sub(y);
    Amount { mantissa: z.mantissa(), scale: z.scale() }
}

/// `Decimal::saturating_mul`. Claimed: the result is the decimal that the
/// name `decimal_saturating_mul` gives, and, where `exact_product` says the
/// product is exact, it is that product. The claim rests on `mul_impl` in
/// ops/mul.rs: a zero operand gives `Decimal::ZERO`; otherwise the scale is
/// the sum of the scales and the mantissa the product of the mantissas,
/// rescaled (rounded) only when the scale exceeds 28 or the product exceeds
/// 96 bits.
#[verifier::external_body]
fn decimal_mul(a: Amount, b: Amount) -> (r: Amount)
    ensures
        r@ == decimal_saturating_mul(a@, b@),
        exact_product(a@, b@) matches Some(e) ==> r@ == e,
{
    let x = Decimal::from_i128_with_scale(a.mantissa, a.scale);
    let y = Decimal::from_i128_with_scale(b.mantissa, b.scale);
    let z = x.saturating_mul(y);
    Amount { mantissa: z.mantissa(), scale: z.scale() }
}

} // verus!
