//! Fixed-point amounts.
//!
//! Every amount, rate and payment of the staking engine is a [`Decimal`]: a
//! signed number with eighteen fractional digits whose count of `10^-18`
//! subunits fits in 192 bits. The arithmetic itself is done by the ledger's
//! own `Decimal`; this module holds the value, its mathematical reading, the
//! order on it, and the statements of what the ledger's arithmetic returns.

use vstd::prelude::*;
use scrypto::math::{CheckedAdd, CheckedDiv, CheckedMul, CheckedSub};

verus! {

/// `2^64`, the weight of the middle limb.
pub open spec fn limb_base() -> int {
    0x1_0000_0000_0000_0000int
}

/// `2^128`, the weight of the high limb.
pub open spec fn limb_base_squared() -> int {
    0x1_0000_0000_0000_0000_0000_0000_0000_0000int
}

/// `2^191`: the subunit counts that a `Decimal` can hold are
/// `-2^191 ..= 2^191 - 1`.
pub open spec fn subunit_limit() -> int {
    0x8000_0000_0000_0000_0000_0000_0000_0000_0000_0000_0000_0000int
}

/// The number of subunits in one whole unit, `10^18`.
pub open spec fn one_unit() -> int {
    1_000_000_000_000_000_000int
}

/// The signed number that three limbs spell in two's complement.
pub open spec fn limbs_value(lo: u64, mid: u64, hi: u64) -> int {
    lo + mid * limb_base() + hi * limb_base_squared() - if hi >= 0x8000_0000_0000_0000u64 {
        2 * subunit_limit()
    } else {
        0
    }
}

/// Whether a subunit count can be held.
pub open spec fn representable(v: int) -> bool {
    -subunit_limit() <= v < subunit_limit()
}

/// Whether a subunit count survives the narrowing from the 256-bit
/// intermediate of a product or quotient: the narrowing keeps magnitudes
/// below `2^191` only, so the most negative count is refused.
pub open spec fn narrowable(v: int) -> bool {
    -subunit_limit() < v < subunit_limit()
}

/// Quotient rounded toward zero; `0` for a zero divisor.
pub open spec fn trunc_div(n: int, d: int) -> int {
    if d == 0 {
        0
    } else if n >= 0 && d > 0 {
        n / d
    } else if n >= 0 {
        -(n / (-d))
    } else if d > 0 {
        -((-n) / d)
    } else {
        (-n) / (-d)
    }
}

/// Subunits of the fixed-point product of two subunit counts.
pub open spec fn product_subunits(a: int, b: int) -> int {
    trunc_div(a * b, one_unit())
}

/// Subunits of the fixed-point quotient of two subunit counts.
pub open spec fn quotient_subunits(a: int, b: int) -> int {
    trunc_div(a * one_unit(), b)
}

/// A fixed-point number: `lo`, `mid`, `hi` are the 64-bit limbs, least
/// significant first, of the two's-complement subunit count.
#[derive(Clone, Copy, Debug, PartialEq, Eq, Structural)]
pub struct Decimal {
    pub lo: u64,
    pub mid: u64,
    pub hi: u64,
}

impl View for Decimal {
    type V = int;

    /// The subunit count.
    open spec fn view(&self) -> int {
        limbs_value(self.lo, self.mid, self.hi)
    }
}

/// Every `Decimal` holds a representable count, and distinct limbs hold
/// distinct counts.
pub proof fn lemma_decimal_value(a: Decimal, b: Decimal)
    ensures
        representable(a@),
        a@ == b@ <==> a == b,
{
    if a@ == b@ {
        let base: int = limb_base();
        assert((a.hi >= 0x8000_0000_0000_0000u64) == (b.hi >= 0x8000_0000_0000_0000u64));
        let upper: int = (b.mid - a.mid) + (b.hi - a.hi) * base;
        assert(a.lo - b.lo == upper * base);
        assert(upper == 0) by {
            if upper >= 1 {
                assert(upper * base >= base);
            } else if upper <= -1 {
                assert(upper * base <= -base);
            }
        }
        let top: int = b.hi - a.hi;
        assert(a.mid - b.mid == top * base);
        assert(top == 0) by {
            if top >= 1 {
                assert(top * base >= base);
            } else if top <= -1 {
                assert(top * base <= -base);
            }
        }
    }
}

/// The number zero, as a value of specifications.
pub open spec fn decimal_zero() -> Decimal {
    Decimal { lo: 0, mid: 0, hi: 0 }
}

/// The `Decimal` that holds the subunit count `v`, for representable `v`.
pub open spec fn decimal_of(v: int) -> Decimal {
    let unsigned = if v < 0 {
        v + 2 * subunit_limit()
    } else {
        v
    };
    Decimal {
        lo: (unsigned % limb_base()) as u64,
        mid: ((unsigned / limb_base()) % limb_base()) as u64,
        hi: (unsigned / limb_base_squared()) as u64,
    }
}

/// `decimal_of` is the inverse of the view on the representable counts.
pub proof fn lemma_decimal_of(v: int)
    requires
        representable(v),
    ensures
        decimal_of(v)@ == v,
{
    let unsigned = if v < 0 {
        v + 2 * subunit_limit()
    } else {
        v
    };
    assert(0 <= unsigned < 2 * subunit_limit());
    let high = unsigned / limb_base_squared();
    let rest = unsigned / limb_base();
    assert(0 <= high < 0x1_0000_0000_0000_0000int);
    assert(rest / limb_base() == high);
    assert(unsigned == (unsigned % limb_base()) + (rest % limb_base()) * limb_base() + high
        * limb_base_squared());
    assert(v < 0 <==> high >= 0x8000_0000_0000_0000int);
}

/// `decimal_of` gives back the `Decimal` whose count it is handed.
pub proof fn lemma_decimal_of_view(d: Decimal)
    ensures
        decimal_of(d@) == d,
{
    lemma_decimal_of(d@);
    lemma_decimal_value(decimal_of(d@), d);
}

impl Decimal {
    /// The number zero.
    pub fn zero() -> (z: Decimal)
        ensures
            z == decimal_zero(),
            z@ == 0,
    {
        Decimal { lo: 0, mid: 0, hi: 0 }
    }

    /// The number with the given limbs, least significant first.
    pub fn from_digits(digits: [u64; 3]) -> (d: Decimal)
        ensures
            d.lo == digits[0],
            d.mid == digits[1],
            d.hi == digits[2],
    {
        Decimal { lo: digits[0], mid: digits[1], hi: digits[2] }
    }

    /// The limbs, least significant first.
    pub fn to_digits(&self) -> (digits: [u64; 3])
        ensures
            digits[0] == self.lo,
            digits[1] == self.mid,
            digits[2] == self.hi,
    {
        [self.lo, self.mid, self.hi]
    }

    /// Whether the number is below zero.
    pub fn is_negative(&self) -> (b: bool)
        ensures
            b == (self@ < 0),
    {
        self.hi >= 0x8000_0000_0000_0000u64
    }

    /// Whether the number is above zero.
    pub fn is_positive(&self) -> (b: bool)
        ensures
            b == (self@ > 0),
    {
        self.hi < 0x8000_0000_0000_0000u64 && (self.hi != 0 || self.mid != 0 || self.lo != 0)
    }

    /// Whether `self < other`.
    pub fn less_than(&self, other: &Decimal) -> (b: bool)
        ensures
            b == (self@ < other@),
    {
        let self_negative = self.is_negative();
        if self_negative != other.is_negative() {
            self_negative
        } else if self.hi != other.hi {
            self.hi < other.hi
        } else if self.mid != other.mid {
            self.mid < other.mid
        } else {
            self.lo < other.lo
        }
    }

    /// Whether `self <= other`.
    pub fn at_most(&self, other: &Decimal) -> (b: bool)
        ensures
            b == (self@ <= other@),
    {
        !other.less_than(self)
    }
}

/// Addition as the ledger's `Decimal::checked_add` does it: the exact sum
/// of the subunit counts, or nothing when the sum cannot be held.
#[verifier::external_body]
pub(crate) fn checked_add(a: Decimal, b: Decimal) -> (r: Option<Decimal>)
    ensures
        match r {
            Some(c) => c@ == a@ + b@,
            None => !representable(a@ + b@),
        },
{
    let x = scrypto::math::Decimal::from_attos(scrypto::math::I192::from_digits([a.lo, a.mid, a.hi]));
    let y = scrypto::math::Decimal::from_attos(scrypto::math::I192::from_digits([b.lo, b.mid, b.hi]));
    x.checked_add(y).map(|z| Decimal::from_digits(z.attos().to_digits()))
}

/// Subtraction as the ledger's `Decimal::checked_sub` does it: the exact
/// difference of the subunit counts, or nothing when it cannot be held.
#[verifier::external_body]
pub(crate) fn checked_sub(a: Decimal, b: Decimal) -> (r: Option<Decimal>)
    ensures
        match r {
            Some(c) => c@ == a@ - b@,
            None => !representable(a@ - b@),
        },
{
    let x = scrypto::math::Decimal::from_attos(scrypto::math::I192::from_digits([a.lo, a.mid, a.hi]));
    let y = scrypto::math::Decimal::from_attos(scrypto::math::I192::from_digits([b.lo, b.mid, b.hi]));
    x.checked_sub(y).map(|z| Decimal::from_digits(z.attos().to_digits()))
}

/// Multiplication as the ledger's `Decimal::checked_mul` does it: the
/// product of the subunit counts divided by `10^18` and rounded toward zero,
/// or nothing when that count does not survive the narrowing to 192 bits.
/// The ledger forms the product in 256 bits and gives nothing when it does
/// not fit there; such a product divided by `10^18` is beyond `2^191` too,
/// so the one condition covers both.
#[verifier::external_body]
pub(crate) fn checked_mul(a: Decimal, b: Decimal) -> (r: Option<Decimal>)
    ensures
        match r {
            Some(c) => c@ == product_subunits(a@, b@) && narrowable(c@),
            None => !narrowable(product_subunits(a@, b@)),
        },
{
    let x = scrypto::math::Decimal::from_attos(scrypto::math::I192::from_digits([a.lo, a.mid, a.hi]));
    let y = scrypto::math::Decimal::from_attos(scrypto::math::I192::from_digits([b.lo, b.mid, b.hi]));
    x.checked_mul(y).map(|z| Decimal::from_digits(z.attos().to_digits()))
}

/// Division as the ledger's `Decimal::checked_div` does it: the dividend's
/// subunit count times `10^18`, divided by the divisor's count and rounded
/// toward zero; nothing for a zero divisor or when the result does not
/// survive the narrowing to 192 bits. The ledger scales the dividend in 256
/// bits, where every 192-bit count times `10^18` fits.
#[verifier::external_body]
pub(crate) fn checked_div(a: Decimal, b: Decimal) -> (r: Option<Decimal>)
    ensures
        match r {
            Some(c) => b@ != 0 && c@ == quotient_subunits(a@, b@) && narrowable(c@),
            None => b@ == 0 || !narrowable(quotient_subunits(a@, b@)),
        },
{
    let x = scrypto::math::Decimal::from_attos(scrypto::math::I192::from_digits([a.lo, a.mid, a.hi]));
    let y = scrypto::math::Decimal::from_attos(scrypto::math::I192::from_digits([b.lo, b.mid, b.hi]));
    x.checked_div(y).map(|z| Decimal::from_digits(z.attos().to_digits()))
}

} // verus!
