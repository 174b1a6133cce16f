//! Exact decimal numbers for the calculator.
//!
//! A value is `(-1)^neg * mant / 10^scale`. A well-formed value is canonical:
//! the mantissa has at most 19 digits, the scale is at most 19, a positive
//! scale never ends in a trailing fractional zero, and zero is stored as
//! `+0 / 10^0`. Results that cannot be represented in that range fall back to
//! zero, the same fail-soft convention the calculator uses for unparsable
//! text and for division by zero.

use vstd::prelude::*;

verus! {

/// Mantissas are kept strictly below this bound (19 decimal digits).
pub const MANT_MAX: u128 = 10_000_000_000_000_000_000;

/// At most this many decimal places are kept.
pub const SCALE_MAX: u32 = 19;

/// An exact decimal number: `(-1)^neg * mant / 10^scale`.
#[derive(Clone, Copy, PartialEq, Eq, Structural, Debug)]
pub struct Dec {
    pub neg: bool,
    pub mant: u128,
    pub scale: u32,
}

/// The mathematical shape of a `Dec`: sign, mantissa and scale as unbounded numbers.
pub ghost struct DecV {
    pub neg: bool,
    pub mant: nat,
    pub scale: nat,
}

impl View for Dec {
    type V = DecV;

    open spec fn view(&self) -> DecV {
        DecV { neg: self.neg, mant: self.mant as nat, scale: self.scale as nat }
    }
}

/// `10^e`.
pub open spec fn pow10(e: nat) -> nat
    decreases e,
{
    if e == 0 {
        1
    } else {
        10 * pow10((e - 1) as nat)
    }
}

/// The zero value in canonical form.
pub open spec fn zero_v() -> DecV {
    DecV { neg: false, mant: 0, scale: 0 }
}

/// Canonical, in-range decimal value.
pub open spec fn wf_dec(v: DecV) -> bool {
    &&& v.mant < MANT_MAX
    &&& v.scale <= SCALE_MAX
    &&& (v.scale > 0 ==> v.mant % 10 != 0)
    &&& (v.mant == 0 ==> !v.neg && v.scale == 0)
}

/// The signed mantissa of a value; the value itself is `num(v) / 10^v.scale`.
pub open spec fn num(v: DecV) -> int {
    if v.neg {
        -(v.mant as int)
    } else {
        v.mant as int
    }
}

/// Shorten a raw mantissa/scale pair: while the scale is positive and either
/// exceeds `SCALE_MAX`, or the mantissa is too wide, or the mantissa ends in
/// a zero digit, drop one decimal place. Each dropped place divides the
/// mantissa by ten, truncating.
pub open spec fn reduce(mant: nat, scale: nat) -> (nat, nat)
    decreases scale,
{
    if scale > 0 && (scale > SCALE_MAX || mant >= MANT_MAX || mant % 10 == 0) {
        reduce(mant / 10, (scale - 1) as nat)
    } else {
        (mant, scale)
    }
}

/// Bring a raw sign/mantissa/scale triple into canonical form: shorten it to
/// at most `SCALE_MAX` decimal places with no trailing fractional zero, and
/// fall back to zero when the mantissa is zero or still out of range.
pub open spec fn norm_v(neg: bool, mant: nat, scale: nat) -> DecV {
    if reduce(mant, scale).0 == 0 || reduce(mant, scale).0 >= MANT_MAX {
        zero_v()
    } else {
        DecV { neg, mant: reduce(mant, scale).0, scale: reduce(mant, scale).1 }
    }
}

/// The negation of a value; zero keeps its positive sign.
pub open spec fn neg_v(v: DecV) -> DecV {
    if v.mant == 0 {
        v
    } else {
        DecV { neg: !v.neg, ..v }
    }
}

/// Exact sum: align both mantissas to the larger scale, then add or subtract
/// magnitudes according to the signs.
pub open spec fn add_v(x: DecV, y: DecV) -> DecV {
    let s: nat = if x.scale >= y.scale {
        x.scale
    } else {
        y.scale
    };
    let ax = x.mant * pow10((s - x.scale) as nat);
    let ay = y.mant * pow10((s - y.scale) as nat);
    if x.neg == y.neg {
        norm_v(x.neg, ax + ay, s)
    } else if ax >= ay {
        norm_v(x.neg, (ax - ay) as nat, s)
    } else {
        norm_v(y.neg, (ay - ax) as nat, s)
    }
}

/// Exact difference: `x + (-y)`.
pub open spec fn sub_v(x: DecV, y: DecV) -> DecV {
    add_v(x, neg_v(y))
}

/// Exact product, truncated to `SCALE_MAX` decimal places by `norm_v`.
pub open spec fn mul_v(x: DecV, y: DecV) -> DecV {
    norm_v(x.neg != y.neg, x.mant * y.mant, x.scale + y.scale)
}

/// Quotient truncated to `SCALE_MAX` decimal places; division by zero yields
/// zero by the calculator's convention. The mantissa is the floor of
/// `x.mant * 10^f / y.mant` with `f` chosen so that the result scale stays
/// within range.
pub open spec fn div_v(x: DecV, y: DecV) -> DecV {
    if y.mant == 0 {
        zero_v()
    } else {
        let f: nat = if x.scale >= y.scale {
            ((SCALE_MAX as nat - x.scale) + y.scale) as nat
        } else {
            SCALE_MAX as nat
        };
        let s: nat = ((f + x.scale) - y.scale) as nat;
        norm_v(x.neg != y.neg, (x.mant * pow10(f)) / y.mant, s)
    }
}

/// Divide by one hundred: the percent key.
pub open spec fn percent_v(v: DecV) -> DecV {
    norm_v(v.neg, v.mant, v.scale + 2)
}

/// Multiply by one hundred; the inverse direction of `percent_v`.
pub open spec fn times100_v(v: DecV) -> DecV {
    norm_v(v.neg, v.mant * 100, v.scale)
}

pub proof fn lemma_pow10_pos(e: nat)
    ensures
        pow10(e) >= 1,
    decreases e,
{
    if e > 0 {
        lemma_pow10_pos((e - 1) as nat);
    }
}

proof fn lemma_pow10_mono(a: nat, b: nat)
    requires
        a <= b,
    ensures
        pow10(a) <= pow10(b),
    decreases b,
{
    if a < b {
        lemma_pow10_mono(a, (b - 1) as nat);
    }
}

/// `10^19` is the mantissa bound.
proof fn lemma_pow10_19()
    ensures
        pow10(19) == MANT_MAX,
{
    assert(pow10(0) == 1);
    assert(pow10(1) == 10);
    assert(pow10(2) == 100);
    assert(pow10(3) == 1000);
    assert(pow10(4) == 10000);
    assert(pow10(5) == 100000);
    assert(pow10(6) == 1000000);
    assert(pow10(7) == 10000000);
    assert(pow10(8) == 100000000);
    assert(pow10(9) == 1000000000);
    assert(pow10(10) == 10000000000);
    assert(pow10(11) == 100000000000);
    assert(pow10(12) == 1000000000000);
    assert(pow10(13) == 10000000000000);
    assert(pow10(14) == 100000000000000);
    assert(pow10(15) == 1000000000000000);
    assert(pow10(16) == 10000000000000000);
    assert(pow10(17) == 100000000000000000);
    assert(pow10(18) == 1000000000000000000);
    assert(pow10(19) == 10000000000000000000);
}

/// `10^e` for `e <= 38` fits in a `u128`.
proof fn lemma_pow10_38_bound(e: nat)
    requires
        e <= 38,
    ensures
        pow10(e) <= pow10(19) * pow10(19),
        pow10(19) * pow10(19) < u128::MAX,
{
    lemma_pow10_19();
    lemma_pow10_adds(19, 19);
    lemma_pow10_mono(e, 38);
    assert((MANT_MAX as int) * (MANT_MAX as int) < u128::MAX as int);
}

/// `10^(a+b) == 10^a * 10^b`.
pub proof fn lemma_pow10_adds(a: nat, b: nat)
    ensures
        pow10(a + b) == pow10(a) * pow10(b),
    decreases a,
{
    if a == 0 {
        assert(pow10(0 + b) == 1 * pow10(b));
    } else {
        lemma_pow10_adds((a - 1) as nat, b);
        assert(pow10(((a - 1) + b) as nat + 1) == 10 * pow10(((a - 1) + b) as nat));
        assert(10 * (pow10((a - 1) as nat) * pow10(b)) == (10 * pow10((a - 1) as nat)) * pow10(b))
            by (nonlinear_arith);
    }
}

/// `10^e` as a machine integer.
pub fn pow10_u128(e: u32) -> (r: u128)
    requires
        e <= 38,
    ensures
        r as nat == pow10(e as nat),
{
    proof {
        lemma_pow10_38_bound(e as nat);
    }
    let mut r: u128 = 1;
    let mut i: u32 = 0;
    while i < e
        invariant
            i <= e,
            e <= 38,
            r as nat == pow10(i as nat),
        decreases e - i,
    {
        proof {
            lemma_pow10_38_bound((i + 1) as nat);
            lemma_pow10_mono((i + 1) as nat, 38);
            lemma_pow10_38_bound(38);
        }
        assert(pow10((i + 1) as nat) == 10 * pow10(i as nat));
        r = r * 10;
        i = i + 1;
    }
    r
}

impl Dec {
    /// The canonical zero value.
    pub fn zero() -> (r: Dec)
        ensures
            r@ == zero_v(),
            wf_dec(r@),
    {
        Dec { neg: false, mant: 0, scale: 0 }
    }

    /// Bring a raw sign/mantissa/scale triple into canonical form.
    pub fn norm(neg: bool, mant: u128, scale: u32) -> (r: Dec)
        ensures
            r@ == norm_v(neg, mant as nat, scale as nat),
            wf_dec(r@),
    {
        let mut m: u128 = mant;
        let mut s: u32 = scale;
        while s > 0 && (s > SCALE_MAX || m >= MANT_MAX || m % 10 == 0)
            invariant
                reduce(m as nat, s as nat) == reduce(mant as nat, scale as nat),
            decreases s,
        {
            m = m / 10;
            s = s - 1;
        }
        assert(reduce(m as nat, s as nat) == (m as nat, s as nat));
        if m == 0 || m >= MANT_MAX {
            Dec { neg: false, mant: 0, scale: 0 }
        } else {
            Dec { neg, mant: m, scale: s }
        }
    }

    /// The negation; zero stays `+0`.
    pub fn negated(self) -> (r: Dec)
        ensures
            r@ == neg_v(self@),
    {
        if self.mant == 0 {
            self
        } else {
            Dec { neg: !self.neg, ..self }
        }
    }

    /// Exact sum of two canonical values; zero if out of range.
    pub fn plus(self, other: Dec) -> (r: Dec)
        requires
            wf_dec(self@),
            wf_dec(other@),
        ensures
            r@ == add_v(self@, other@),
            wf_dec(r@),
    {
        let s: u32 = if self.scale >= other.scale {
            self.scale
        } else {
            other.scale
        };
        proof {
            lemma_pow10_19();
            lemma_pow10_mono((s - self.scale) as nat, 19);
            lemma_pow10_mono((s - other.scale) as nat, 19);
            lemma_aligned_bound(self.mant as nat, pow10((s - self.scale) as nat));
            lemma_aligned_bound(other.mant as nat, pow10((s - other.scale) as nat));
        }
        let ax = self.mant * pow10_u128(s - self.scale);
        let ay = other.mant * pow10_u128(s - other.scale);
        if self.neg == other.neg {
            Dec::norm(self.neg, ax + ay, s)
        } else if ax >= ay {
            Dec::norm(self.neg, ax - ay, s)
        } else {
            Dec::norm(other.neg, ay - ax, s)
        }
    }

    /// Exact difference of two canonical values; zero if out of range.
    pub fn minus(self, other: Dec) -> (r: Dec)
        requires
            wf_dec(self@),
            wf_dec(other@),
        ensures
            r@ == sub_v(self@, other@),
            wf_dec(r@),
    {
        self.plus(other.negated())
    }

    /// Exact product truncated to `SCALE_MAX` decimal places; zero if out of
    /// range.
    pub fn times(self, other: Dec) -> (r: Dec)
        requires
            wf_dec(self@),
            wf_dec(other@),
        ensures
            r@ == mul_v(self@, other@),
            wf_dec(r@),
    {
        proof {
            lemma_pow10_19();
            lemma_aligned_bound(self.mant as nat, other.mant as nat);
        }
        Dec::norm(self.neg != other.neg, self.mant * other.mant, self.scale + other.scale)
    }

    /// Quotient truncated to `SCALE_MAX` decimal places; division by zero
    /// yields zero.
    pub fn divided_by(self, other: Dec) -> (r: Dec)
        requires
            wf_dec(self@),
            wf_dec(other@),
        ensures
            r@ == div_v(self@, other@),
            wf_dec(r@),
    {
        if other.mant == 0 {
            Dec::zero()
        } else {
            let f: u32 = if self.scale >= other.scale {
                (SCALE_MAX - self.scale) + other.scale
            } else {
                SCALE_MAX
            };
            let s: u32 = (f + self.scale) - other.scale;
            proof {
                lemma_pow10_19();
                lemma_pow10_mono(f as nat, 19);
                lemma_aligned_bound(self.mant as nat, pow10(f as nat));
            }
            let q = (self.mant * pow10_u128(f)) / other.mant;
            Dec::norm(self.neg != other.neg, q, s)
        }
    }

    /// Divide by one hundred: the percent key.
    pub fn percent(self) -> (r: Dec)
        requires
            wf_dec(self@),
        ensures
            r@ == percent_v(self@),
            wf_dec(r@),
    {
        Dec::norm(self.neg, self.mant, self.scale + 2)
    }
}

/// What `reduce` guarantees: the scale only shrinks and ends at most at
/// `SCALE_MAX`, a positive remaining scale means an in-range mantissa with no
/// trailing zero, and a zero mantissa reduces to scale zero.
pub proof fn lemma_reduce_props(m: nat, s: nat)
    ensures
        reduce(m, s).1 <= s,
        reduce(m, s).1 <= SCALE_MAX,
        reduce(m, s).0 <= m,
        reduce(m, s).1 > 0 ==> reduce(m, s).0 % 10 != 0 && reduce(m, s).0 < MANT_MAX,
        reduce(m, s).0 == 0 ==> reduce(m, s).1 == 0,
    decreases s,
{
    if s > 0 && (s > SCALE_MAX || m >= MANT_MAX || m % 10 == 0) {
        lemma_reduce_props(m / 10, (s - 1) as nat);
        assert(m / 10 <= m) by (nonlinear_arith);
    }
}

/// `norm_v` always yields a canonical, in-range value.
pub proof fn lemma_norm_v_wf(neg: bool, mant: nat, scale: nat)
    ensures
        wf_dec(norm_v(neg, mant, scale)),
{
    lemma_reduce_props(mant, scale);
}

/// `norm_v` leaves a value that is already canonical unchanged.
pub proof fn lemma_norm_v_id(v: DecV)
    requires
        wf_dec(v),
    ensures
        norm_v(v.neg, v.mant, v.scale) == v,
{
    assert(reduce(v.mant, v.scale) == (v.mant, v.scale));
}

/// For an in-range mantissa, `reduce` only strips exact factors of ten, so
/// the value `mant / 10^scale` is unchanged (stated cross-multiplied).
pub proof fn lemma_reduce_value(m: nat, s: nat)
    requires
        m < MANT_MAX,
        s <= SCALE_MAX,
    ensures
        reduce(m, s).0 * pow10(s) == m * pow10(reduce(m, s).1),
    decreases s,
{
    if s > 0 && (s > SCALE_MAX || m >= MANT_MAX || m % 10 == 0) {
        assert(m % 10 == 0);
        assert(reduce(m, s) == reduce(m / 10, (s - 1) as nat));
        lemma_reduce_value(m / 10, (s - 1) as nat);
        assert(pow10(s) == 10 * pow10((s - 1) as nat));
        assert(reduce(m, s).0 * pow10(s) == m * pow10(reduce(m, s).1)) by (nonlinear_arith)
            requires
                reduce(m, s).0 * pow10((s - 1) as nat) == (m / 10) * pow10(reduce(m, s).1),
                pow10(s) == 10 * pow10((s - 1) as nat),
                m == 10 * (m / 10),
        ;
    }
}

/// Normalization of an in-range mantissa never changes the number it
/// denotes: the signed value of `norm_v(neg, m, s)` equals `±m / 10^s`
/// (stated cross-multiplied).
pub proof fn lemma_norm_v_value(neg: bool, m: nat, s: nat)
    requires
        m < MANT_MAX,
        s <= SCALE_MAX,
    ensures
        num(norm_v(neg, m, s)) * pow10(s) == (if neg {
            -(m as int)
        } else {
            m as int
        }) * pow10(norm_v(neg, m, s).scale),
{
    lemma_reduce_props(m, s);
    lemma_reduce_value(m, s);
    lemma_pow10_pos(reduce(m, s).1);
    if reduce(m, s).0 == 0 {
        assert(m * pow10(reduce(m, s).1) == 0);
        assert(m == 0) by (nonlinear_arith)
            requires
                m * pow10(reduce(m, s).1) == 0,
                pow10(reduce(m, s).1) >= 1,
        ;
        assert(norm_v(neg, m, s) == zero_v());
        assert(num(zero_v()) == 0);
    } else {
        assert(norm_v(neg, m, s) == (DecV { neg, mant: reduce(m, s).0, scale: reduce(m, s).1 }));
        if neg {
            assert(num(norm_v(neg, m, s)) == -(reduce(m, s).0 as int));
            assert((-(reduce(m, s).0 as int)) * pow10(s) == (-(m as int)) * pow10(
                reduce(m, s).1,
            )) by (nonlinear_arith)
                requires
                    reduce(m, s).0 * pow10(s) == m * pow10(reduce(m, s).1),
            ;
        } else {
            assert(num(norm_v(neg, m, s)) == reduce(m, s).0 as int);
        }
    }
}

/// Normalizing `a * 10` at one more decimal place gives the same value as
/// normalizing `a`: one factor of ten in the mantissa cancels one decimal
/// place.
pub proof fn lemma_norm_shift(neg: bool, a: nat, b: nat)
    requires
        b + 1 <= SCALE_MAX,
    ensures
        norm_v(neg, a * 10, b + 1) == norm_v(neg, a, b),
{
    let t = a * 10;
    assert(t % 10 == 0 && t / 10 == a);
    assert(reduce(t, b + 1) == reduce(a, b));
}

/// A mantissa below `10^19` times a power of ten at most `10^19` stays below
/// `10^38`, which fits in a `u128`.
proof fn lemma_aligned_bound(m: nat, p: nat)
    requires
        m < MANT_MAX,
        p <= MANT_MAX,
    ensures
        m * p <= (MANT_MAX - 1) * MANT_MAX,
        (MANT_MAX - 1) * MANT_MAX < u128::MAX,
{
    assert(m * p <= (MANT_MAX - 1) * MANT_MAX) by (nonlinear_arith)
        requires
            m < MANT_MAX,
            p <= MANT_MAX,
    ;
    assert(((MANT_MAX - 1) as int) * (MANT_MAX as int) < u128::MAX as int);
}

} // verus!
