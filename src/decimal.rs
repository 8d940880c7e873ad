use core::cmp::Ordering;
use rust_decimal::Decimal;
use vstd::prelude::*;

verus! {

/// Largest magnitude of a mantissa: 2^96 - 1.
pub const MAX_MANTISSA: i128 = 79228162514264337593543950335;

/// Largest number of fractional digits.
pub const MAX_SCALE: u32 = 28;

/// 10^n.
pub open spec fn pow10(n: nat) -> int
    decreases n,
{
    if n == 0 {
        1
    } else {
        10 * pow10((n - 1) as nat)
    }
}

pub open spec fn abs(x: int) -> int {
    if x < 0 {
        -x
    } else {
        x
    }
}

pub proof fn lemma_pow10_positive(n: nat)
    ensures
        pow10(n) >= 1,
    decreases n,
{
    if n > 0 {
        lemma_pow10_positive((n - 1) as nat);
    }
}

pub proof fn lemma_pow10_add(a: nat, b: nat)
    ensures
        pow10(a + b) == pow10(a) * pow10(b),
    decreases b,
{
    if b > 0 {
        lemma_pow10_add(a, (b - 1) as nat);
        assert(pow10(a + b) == 10 * pow10((a + b - 1) as nat));
        assert(pow10(a) * pow10(b) == pow10(a) * (10 * pow10((b - 1) as nat)));
        assert(pow10(a) * (10 * pow10((b - 1) as nat)) == 10 * (pow10(a) * pow10(
            (b - 1) as nat,
        ))) by (nonlinear_arith);
    }
}

pub proof fn lemma_pow10_monotone(a: nat, b: nat)
    requires
        a <= b,
    ensures
        pow10(a) <= pow10(b),
    decreases b,
{
    if a < b {
        lemma_pow10_monotone(a, (b - 1) as nat);
        lemma_pow10_positive((b - 1) as nat);
    }
}

pub proof fn lemma_pow10_succ(n: nat)
    ensures
        pow10(n + 1) == 10 * pow10(n),
{
    assert(((n + 1) as nat - 1) as nat == n);
}

pub proof fn lemma_pow10_28()
    ensures
        pow10(28) == 10000000000000000000000000000int,
{
    reveal_with_fuel(pow10, 29);
}

/// A decimal number: `mantissa / 10^scale`, with a mantissa of at most 96 bits and at most
/// 28 fractional digits. The same number can have several representations (`1.0` and
/// `1.00`): `==` compares representations, while `same_value` and the ordering methods
/// compare values.
#[derive(Clone, Copy, Debug, PartialEq, Eq, Structural)]
pub struct PriceScalar {
    pub mantissa: i128,
    pub scale: u32,
}

impl PriceScalar {
    /// The representation is within the range of a 96-bit decimal.
    pub open spec fn wf(self) -> bool {
        &&& -MAX_MANTISSA <= self.mantissa <= MAX_MANTISSA
        &&& self.scale <= MAX_SCALE
    }

    /// The value in units of 10^-28: exact for every well-formed representation.
    pub open spec fn units(self) -> int {
        self.mantissa * pow10((MAX_SCALE - self.scale) as nat)
    }

    /// The value of `mantissa / 10^scale`.
    pub fn new(mantissa: i64, scale: u32) -> (r: PriceScalar)
        requires
            scale <= MAX_SCALE,
        ensures
            r.wf(),
            r.mantissa == mantissa,
            r.scale == scale,
    {
        PriceScalar { mantissa: mantissa as i128, scale }
    }

    /// The integer `n`.
    pub fn from_int(n: i64) -> (r: PriceScalar)
        ensures
            r.wf(),
            r.mantissa == n,
            r.scale == 0,
            r.units() == n * pow10(28),
    {
        PriceScalar { mantissa: n as i128, scale: 0 }
    }

    pub fn zero() -> (r: PriceScalar)
        ensures
            r.wf(),
            r == (PriceScalar { mantissa: 0, scale: 0 }),
            r.units() == 0,
    {
        PriceScalar { mantissa: 0, scale: 0 }
    }

    pub fn one() -> (r: PriceScalar)
        ensures
            r.wf(),
            r == (PriceScalar { mantissa: 1, scale: 0 }),
            r.units() == pow10(28),
    {
        PriceScalar { mantissa: 1, scale: 0 }
    }

    pub fn is_zero(&self) -> (r: bool)
        ensures
            r == (self.units() == 0),
    {
        proof {
            lemma_pow10_positive((MAX_SCALE - self.scale) as nat);
            lemma_mul_zero_iff(self.mantissa as int, pow10((MAX_SCALE - self.scale) as nat));
        }
        self.mantissa == 0
    }

    pub fn is_positive(&self) -> (r: bool)
        ensures
            r == (self.units() > 0),
    {
        proof {
            lemma_units_sign(*self);
        }
        self.mantissa > 0
    }

    pub fn is_negative(&self) -> (r: bool)
        ensures
            r == (self.units() < 0),
    {
        proof {
            lemma_units_sign(*self);
        }
        self.mantissa < 0
    }

    /// `-self`, exactly.
    pub fn neg(&self) -> (r: PriceScalar)
        requires
            self.wf(),
        ensures
            r.wf(),
            r == spec_neg(*self),
            r.units() == -self.units(),
    {
        proof {
            assert((-self.mantissa) * pow10((MAX_SCALE - self.scale) as nat) == -(self.mantissa
                * pow10((MAX_SCALE - self.scale) as nat))) by (nonlinear_arith);
        }
        PriceScalar { mantissa: -self.mantissa, scale: self.scale }
    }

    /// `|self|`, exactly.
    pub fn abs(&self) -> (r: PriceScalar)
        requires
            self.wf(),
        ensures
            r.wf(),
            r.units() == abs(self.units()),
    {
        proof {
            lemma_units_sign(*self);
        }
        if self.mantissa < 0 {
            self.neg()
        } else {
            *self
        }
    }

    /// The three-way comparison of the two values.
    pub fn compare(&self, other: &PriceScalar) -> (r: Ordering)
        requires
            self.wf(),
            other.wf(),
        ensures
            r == Ordering::Less <==> self.units() < other.units(),
            r == Ordering::Equal <==> self.units() == other.units(),
            r == Ordering::Greater <==> self.units() > other.units(),
    {
        decimal_cmp(self, other)
    }

    pub fn lt(&self, other: &PriceScalar) -> (r: bool)
        requires
            self.wf(),
            other.wf(),
        ensures
            r == (self.units() < other.units()),
    {
        match self.compare(other) {
            Ordering::Less => true,
            _ => false,
        }
    }

    pub fn le(&self, other: &PriceScalar) -> (r: bool)
        requires
            self.wf(),
            other.wf(),
        ensures
            r == (self.units() <= other.units()),
    {
        match self.compare(other) {
            Ordering::Greater => false,
            _ => true,
        }
    }

    pub fn gt(&self, other: &PriceScalar) -> (r: bool)
        requires
            self.wf(),
            other.wf(),
        ensures
            r == (self.units() > other.units()),
    {
        other.lt(self)
    }

    pub fn ge(&self, other: &PriceScalar) -> (r: bool)
        requires
            self.wf(),
            other.wf(),
        ensures
            r == (self.units() >= other.units()),
    {
        other.le(self)
    }

    /// Equality of values (`1.0` equals `1.00`).
    pub fn same_value(&self, other: &PriceScalar) -> (r: bool)
        requires
            self.wf(),
            other.wf(),
        ensures
            r == (self.units() == other.units()),
    {
        match self.compare(other) {
            Ordering::Equal => true,
            _ => false,
        }
    }

    /// The smaller of the two; the first on a tie.
    pub fn min(self, other: PriceScalar) -> (r: PriceScalar)
        requires
            self.wf(),
            other.wf(),
        ensures
            r == (if other.units() < self.units() { other } else { self }),
    {
        if other.lt(&self) {
            other
        } else {
            self
        }
    }

    /// The larger of the two; the first on a tie.
    pub fn max(self, other: PriceScalar) -> (r: PriceScalar)
        requires
            self.wf(),
            other.wf(),
        ensures
            r == (if other.units() > self.units() { other } else { self }),
    {
        if other.gt(&self) {
            other
        } else {
            self
        }
    }

    /// The integer part as a `u64`, or zero when the value is negative or the integer part
    /// does not fit.
    pub fn to_u64_or_zero(&self) -> (r: u64)
        requires
            self.wf(),
        ensures
            r == whole_u64(*self),
    {
        if self.mantissa < 0 {
            return 0;
        }
        let p = pow10_i128(self.scale);
        proof {
            lemma_pow10_positive(self.scale as nat);
        }
        let q = self.mantissa / p;
        if q > u64::MAX as i128 {
            0
        } else {
            q as u64
        }
    }

    /// Exact sum, for totals that must equal a sum of sizes (open interest): the operands are
    /// aligned to the larger scale and `None` reports a sum that does not fit in 96 bits, where
    /// the decimal crate's `checked_add` (`add_rounded`) would round it.
    pub fn checked_add(self, other: PriceScalar) -> (r: Option<PriceScalar>)
        requires
            self.wf(),
            other.wf(),
        ensures
            r == spec_add(self, other),
            r is Some ==> r->0.wf() && r->0.units() == self.units() + other.units(),
    {
        let s = if self.scale >= other.scale {
            self.scale
        } else {
            other.scale
        };
        let pa = pow10_i128(s - self.scale);
        let pb = pow10_i128(s - other.scale);
        proof {
            lemma_pow10_positive((s - self.scale) as nat);
            lemma_pow10_positive((s - other.scale) as nat);
            lemma_align_units(self, s);
            lemma_align_units(other, s);
        }
        let a = match self.mantissa.checked_mul(pa) {
            Some(a) => a,
            None => {
                proof {
                    lemma_overflowed_term(self.mantissa as int, pa as int, other.mantissa as int, pb as int);
                }
                return None;
            },
        };
        let b = match other.mantissa.checked_mul(pb) {
            Some(b) => b,
            None => {
                proof {
                    lemma_overflowed_term(other.mantissa as int, pb as int, self.mantissa as int, pa as int);
                }
                return None;
            },
        };
        let m = match a.checked_add(b) {
            Some(m) => m,
            None => {
                return None;
            },
        };
        proof {
            assert(self.units() + other.units() == m * pow10((MAX_SCALE - s) as nat))
                by (nonlinear_arith)
                requires
                    self.units() == a * pow10((MAX_SCALE - s) as nat),
                    other.units() == b * pow10((MAX_SCALE - s) as nat),
                    m == a + b,
            ;
        }
        if -MAX_MANTISSA <= m && m <= MAX_MANTISSA {
            Some(PriceScalar { mantissa: m, scale: s })
        } else {
            None
        }
    }

    /// Exact difference, under the same rule as `checked_add`.
    pub fn checked_sub(self, other: PriceScalar) -> (r: Option<PriceScalar>)
        requires
            self.wf(),
            other.wf(),
        ensures
            r == spec_add(self, spec_neg(other)),
            r is Some ==> r->0.wf() && r->0.units() == self.units() - other.units(),
    {
        let n = other.neg();
        self.checked_add(n)
    }
}

/// The integer part of a non-negative value when it fits in a `u64`, else zero.
pub open spec fn whole_u64(x: PriceScalar) -> u64 {
    if x.mantissa < 0 {
        0
    } else {
        let q = x.mantissa as int / pow10(x.scale as nat);
        if q > u64::MAX {
            0
        } else {
            q as u64
        }
    }
}

pub open spec fn spec_neg(a: PriceScalar) -> PriceScalar {
    PriceScalar { mantissa: (-a.mantissa) as i128, scale: a.scale }
}

/// The exact sum of two representations, aligned to the larger scale, when it fits.
pub open spec fn spec_add(a: PriceScalar, b: PriceScalar) -> Option<PriceScalar> {
    let s = if a.scale >= b.scale {
        a.scale
    } else {
        b.scale
    };
    let m = a.mantissa * pow10((s - a.scale) as nat) + b.mantissa * pow10((s - b.scale) as nat);
    if -MAX_MANTISSA <= m <= MAX_MANTISSA {
        Some(PriceScalar { mantissa: m as i128, scale: s })
    } else {
        None
    }
}

/// What the exact sum returns: a well-formed representation of the sum of the values.
pub proof fn lemma_spec_add(a: PriceScalar, b: PriceScalar)
    requires
        a.wf(),
        b.wf(),
    ensures
        spec_add(a, b) is Some ==> spec_add(a, b)->0.wf() && spec_add(a, b)->0.units() == a.units()
            + b.units(),
        spec_neg(b).wf(),
        spec_neg(b).units() == -b.units(),
{
    let s = if a.scale >= b.scale {
        a.scale
    } else {
        b.scale
    };
    lemma_align_units(a, s);
    lemma_align_units(b, s);
    let x = a.mantissa * pow10((s - a.scale) as nat);
    let y = b.mantissa * pow10((s - b.scale) as nat);
    let p = pow10((MAX_SCALE - s) as nat);
    assert((x + y) * p == x * p + y * p) by (nonlinear_arith);
    assert((-b.mantissa) * pow10((MAX_SCALE - b.scale) as nat) == -(b.mantissa * pow10(
        (MAX_SCALE - b.scale) as nat,
    ))) by (nonlinear_arith);
}

/// Two representations of one value differ by an exact zero.
pub proof fn lemma_sub_same_value(a: PriceScalar, b: PriceScalar)
    requires
        a.wf(),
        b.wf(),
        a.units() == b.units(),
    ensures
        spec_add(a, spec_neg(b)) is Some,
        spec_add(a, spec_neg(b))->0.units() == 0,
{
    let nb = spec_neg(b);
    let s = if a.scale >= b.scale {
        a.scale
    } else {
        b.scale
    };
    lemma_spec_add(a, b);
    lemma_align_units(a, s);
    lemma_align_units(nb, s);
    lemma_pow10_positive((MAX_SCALE - s) as nat);
    let p = pow10((MAX_SCALE - s) as nat);
    let x = a.mantissa * pow10((s - a.scale) as nat);
    let y = nb.mantissa * pow10((s - nb.scale) as nat);
    assert((x + y) * p == x * p + y * p) by (nonlinear_arith);
    lemma_mul_zero_iff(x + y, p);
}

proof fn lemma_mul_zero_iff(m: int, p: int)
    requires
        p >= 1,
    ensures
        (m * p == 0) == (m == 0),
        (m * p > 0) == (m > 0),
        (m * p < 0) == (m < 0),
{
    if m > 0 {
        assert(m * p > 0) by (nonlinear_arith)
            requires
                m > 0,
                p >= 1,
        ;
    } else if m < 0 {
        assert(m * p < 0) by (nonlinear_arith)
            requires
                m < 0,
                p >= 1,
        ;
    }
}

pub proof fn lemma_units_sign(a: PriceScalar)
    ensures
        (a.units() == 0) == (a.mantissa == 0),
        (a.units() > 0) == (a.mantissa > 0),
        (a.units() < 0) == (a.mantissa < 0),
{
    lemma_pow10_positive((MAX_SCALE - a.scale) as nat);
    lemma_mul_zero_iff(a.mantissa as int, pow10((MAX_SCALE - a.scale) as nat));
}

pub proof fn lemma_align_units(a: PriceScalar, s: u32)
    requires
        a.scale <= s <= MAX_SCALE,
    ensures
        a.units() == (a.mantissa * pow10((s - a.scale) as nat)) * pow10((MAX_SCALE - s) as nat),
{
    lemma_pow10_add((s - a.scale) as nat, (MAX_SCALE - s) as nat);
    assert(((s - a.scale) as nat + (MAX_SCALE - s) as nat) == (MAX_SCALE - a.scale) as nat);
    assert(a.mantissa * (pow10((s - a.scale) as nat) * pow10((MAX_SCALE - s) as nat)) == (
    a.mantissa * pow10((s - a.scale) as nat)) * pow10((MAX_SCALE - s) as nat))
        by (nonlinear_arith);
}

/// When one aligned term leaves the range of `i128`, the other is unscaled, so the sum
/// cannot fit in 96 bits.
proof fn lemma_overflowed_term(ma: int, pa: int, mb: int, pb: int)
    requires
        -MAX_MANTISSA <= ma <= MAX_MANTISSA,
        -MAX_MANTISSA <= mb <= MAX_MANTISSA,
        pa == 1 || pb == 1,
        !(i128::MIN <= ma * pa <= i128::MAX),
    ensures
        !(-MAX_MANTISSA <= ma * pa + mb * pb <= MAX_MANTISSA),
{
    if pa == 1 {
        assert(ma * pa == ma);
    } else {
        assert(mb * pb == mb);
    }
}

/// 10^n as an `i128`.
pub(crate) fn pow10_i128(n: u32) -> (r: i128)
    requires
        n <= MAX_SCALE,
    ensures
        r == pow10(n as nat),
{
    let mut r: i128 = 1;
    let mut i: u32 = 0;
    while i < n
        invariant
            i <= n <= MAX_SCALE,
            r == pow10(i as nat),
        decreases n - i,
    {
        proof {
            lemma_pow10_monotone((i + 1) as nat, 28);
            lemma_pow10_28();
            lemma_pow10_succ(i as nat);
            lemma_pow10_positive(i as nat);
        }
        r = r * 10;
        i = i + 1;
    }
    r
}

/// What `Decimal::checked_mul` returns for two values; it rounds when the exact product
/// needs more than 96 bits or more than 28 fractional digits.
pub uninterp spec fn product_of(a: PriceScalar, b: PriceScalar) -> Option<PriceScalar>;

/// What `Decimal::checked_div` returns for two values.
pub uninterp spec fn quotient_of(a: PriceScalar, b: PriceScalar) -> Option<PriceScalar>;

/// What `Decimal::round_dp` returns (half to even) for a value and a number of digits.
pub uninterp spec fn rounded_of(a: PriceScalar, dp: u32) -> PriceScalar;

/// What `Decimal::checked_add` returns for two values; it rounds when the exact sum needs
/// more than 96 bits.
pub uninterp spec fn rounded_sum_of(a: PriceScalar, b: PriceScalar) -> Option<PriceScalar>;

/// What `Decimal::checked_sub` returns for two values; it rounds as `checked_add` does.
pub uninterp spec fn rounded_difference_of(a: PriceScalar, b: PriceScalar) -> Option<PriceScalar>;

impl PriceScalar {
    /// Sum as the decimal crate computes it: exact when the exact sum fits, rounded to fewer
    /// fractional digits otherwise.
    pub fn add_rounded(self, other: PriceScalar) -> (r: Option<PriceScalar>)
        requires
            self.wf(),
            other.wf(),
        ensures
            r == rounded_sum_of(self, other),
            r is Some ==> r->0.wf(),
            spec_add(self, other) is Some ==> r is Some && r->0.units() == self.units()
                + other.units(),
            0 <= self.units() && 0 <= other.units() && self.units() + other.units() <= MAX_MANTISSA
                * pow10(28) ==> r is Some && 0 <= r->0.units() <= self.units() + other.units()
                + pow10(28),
    {
        decimal_add(self, other)
    }

    /// Difference as the decimal crate computes it, under the same rule as `add_rounded`.
    pub fn sub_rounded(self, other: PriceScalar) -> (r: Option<PriceScalar>)
        requires
            self.wf(),
            other.wf(),
        ensures
            r == rounded_difference_of(self, other),
            r is Some ==> r->0.wf(),
            spec_add(self, spec_neg(other)) is Some ==> r is Some && r->0.units() == self.units()
                - other.units(),
            0 <= other.units() <= self.units() ==> r is Some && 0 <= r->0.units() <= self.units(),
    {
        decimal_sub(self, other)
    }

    /// Product; exact whenever the exact product fits the representation.
    pub fn checked_mul(self, other: PriceScalar) -> (r: Option<PriceScalar>)
        requires
            self.wf(),
            other.wf(),
        ensures
            r == product_of(self, other),
            r is Some ==> r->0.wf(),
            self.scale + other.scale <= MAX_SCALE && abs(self.mantissa * other.mantissa)
                <= MAX_MANTISSA ==> r is Some && r->0.units() * pow10(28) == self.units()
                * other.units(),
            self.units() == 0 || other.units() == 0 ==> r is Some && r->0.units() == 0,
    {
        proof {
            lemma_units_sign(self);
            lemma_units_sign(other);
        }
        let r = decimal_mul(self, other);
        proof {
            if r is Some {
                lemma_units_sign(r->0);
            }
        }
        r
    }

    /// Quotient; `None` on a zero divisor or when the quotient is out of range.
    pub fn checked_div(self, other: PriceScalar) -> (r: Option<PriceScalar>)
        requires
            self.wf(),
            other.wf(),
        ensures
            r == quotient_of(self, other),
            r is Some ==> r->0.wf(),
            other.units() == 0 ==> r is None,
            other.units() != 0 && self.units() == 0 ==> r is Some && r->0.units() == 0,
    {
        proof {
            lemma_units_sign(self);
            lemma_units_sign(other);
        }
        decimal_div(self, other)
    }

    /// Rounded to `dp` fractional digits, half to even.
    pub fn round_dp(self, dp: u32) -> (r: PriceScalar)
        requires
            self.wf(),
        ensures
            r == rounded_of(self, dp),
            r.wf(),
            self.scale <= dp ==> r == self,
    {
        decimal_round_dp(self, dp)
    }
}

/// Relies on `Decimal::checked_add`: the sum of the two values, rounded only when the exact
/// sum does not fit 96 bits, to the largest scale at which it fits (at most half a unit of
/// the last kept digit, and never below scale 0); `None` only when even the integer part
/// exceeds 96 bits. `mantissa` and `scale` read the result back.
#[verifier::external_body]
fn decimal_add(a: PriceScalar, b: PriceScalar) -> (r: Option<PriceScalar>)
    requires
        a.wf(),
        b.wf(),
    ensures
        r == rounded_sum_of(a, b),
        r is Some ==> r->0.wf(),
        spec_add(a, b) is Some ==> r is Some && r->0.units() == a.units() + b.units(),
        0 <= a.units() && 0 <= b.units() && a.units() + b.units() <= MAX_MANTISSA * pow10(28)
            ==> r is Some && 0 <= r->0.units() <= a.units() + b.units() + pow10(28),
{
    let x = Decimal::from_i128_with_scale(a.mantissa, a.scale);
    let y = Decimal::from_i128_with_scale(b.mantissa, b.scale);
    match x.checked_add(y) {
        Some(d) => Some(PriceScalar { mantissa: d.mantissa(), scale: d.scale() }),
        None => None,
    }
}

/// Relies on `Decimal::checked_sub`: the difference of the two values, rounded only when the
/// exact difference does not fit 96 bits, to the largest scale at which it fits. For
/// `0 <= b <= a` that scale is at least the scale of `a`, so the result exists and, rounded
/// to nearest on a grid that holds `a`, stays within `[0, a]`. `mantissa` and `scale` read
/// the result back.
#[verifier::external_body]
fn decimal_sub(a: PriceScalar, b: PriceScalar) -> (r: Option<PriceScalar>)
    requires
        a.wf(),
        b.wf(),
    ensures
        r == rounded_difference_of(a, b),
        r is Some ==> r->0.wf(),
        spec_add(a, spec_neg(b)) is Some ==> r is Some && r->0.units() == a.units() - b.units(),
        0 <= b.units() <= a.units() ==> r is Some && 0 <= r->0.units() <= a.units(),
{
    let x = Decimal::from_i128_with_scale(a.mantissa, a.scale);
    let y = Decimal::from_i128_with_scale(b.mantissa, b.scale);
    match x.checked_sub(y) {
        Some(d) => Some(PriceScalar { mantissa: d.mantissa(), scale: d.scale() }),
        None => None,
    }
}

/// Relies on `Decimal::checked_mul`: the product of the two values, rounded only when it does
/// not fit 96 bits and 28 fractional digits, and zero when a factor is zero; `mantissa` and
/// `scale` read it back.
#[verifier::external_body]
fn decimal_mul(a: PriceScalar, b: PriceScalar) -> (r: Option<PriceScalar>)
    requires
        a.wf(),
        b.wf(),
    ensures
        r == product_of(a, b),
        r is Some ==> r->0.wf(),
        a.scale + b.scale <= MAX_SCALE && abs(a.mantissa * b.mantissa) <= MAX_MANTISSA ==> r is Some
            && r->0.units() * pow10(28) == a.units() * b.units(),
        a.mantissa == 0 || b.mantissa == 0 ==> r is Some && r->0.mantissa == 0,
{
    let x = Decimal::from_i128_with_scale(a.mantissa, a.scale);
    let y = Decimal::from_i128_with_scale(b.mantissa, b.scale);
    match x.checked_mul(y) {
        Some(d) => Some(PriceScalar { mantissa: d.mantissa(), scale: d.scale() }),
        None => None,
    }
}

/// Relies on `Decimal::checked_div`: `None` on a zero divisor or overflow, zero for a zero
/// dividend; `mantissa` and `scale` read the result back.
#[verifier::external_body]
fn decimal_div(a: PriceScalar, b: PriceScalar) -> (r: Option<PriceScalar>)
    requires
        a.wf(),
        b.wf(),
    ensures
        r == quotient_of(a, b),
        r is Some ==> r->0.wf(),
        b.mantissa == 0 ==> r is None,
        b.mantissa != 0 && a.mantissa == 0 ==> r is Some && r->0.mantissa == 0,
{
    let x = Decimal::from_i128_with_scale(a.mantissa, a.scale);
    let y = Decimal::from_i128_with_scale(b.mantissa, b.scale);
    match x.checked_div(y) {
        Some(d) => Some(PriceScalar { mantissa: d.mantissa(), scale: d.scale() }),
        None => None,
    }
}

/// Relies on `Decimal::round_dp`: banker's rounding to `dp` digits, and the value itself when
/// it has no more than `dp` fractional digits.
#[verifier::external_body]
fn decimal_round_dp(a: PriceScalar, dp: u32) -> (r: PriceScalar)
    requires
        a.wf(),
    ensures
        r == rounded_of(a, dp),
        r.wf(),
        a.scale <= dp ==> r == a,
{
    let d = Decimal::from_i128_with_scale(a.mantissa, a.scale).round_dp(dp);
    PriceScalar { mantissa: d.mantissa(), scale: d.scale() }
}

/// Relies on rust_decimal's `Ord for Decimal`: it orders by numeric value.
#[verifier::external_body]
fn decimal_cmp(a: &PriceScalar, b: &PriceScalar) -> (r: Ordering)
    requires
        a.wf(),
        b.wf(),
    ensures
        r == Ordering::Less <==> a.units() < b.units(),
        r == Ordering::Equal <==> a.units() == b.units(),
        r == Ordering::Greater <==> a.units() > b.units(),
{
    let x = Decimal::from_i128_with_scale(a.mantissa, a.scale);
    let y = Decimal::from_i128_with_scale(b.mantissa, b.scale);
    x.cmp(&y)
}

} // verus!
