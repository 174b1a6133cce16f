//! The calculator's general laws, proved once and for all over the
//! transition functions that the methods' contracts use.

use vstd::prelude::*;
use crate::calc::CalcV;
use crate::calc::Op;
use crate::calc::init_v;
use crate::calc::step_backspace;
use crate::calc::step_digit;
use crate::calc::step_equals;
use crate::calc::step_op;
use crate::calc::step_toggle;
use crate::decimal::DecV;
use crate::decimal::MANT_MAX;
use crate::decimal::SCALE_MAX;
use crate::decimal::add_v;
use crate::decimal::div_v;
use crate::decimal::lemma_norm_shift;
use crate::decimal::lemma_norm_v_value;
use crate::decimal::lemma_pow10_adds;
use crate::decimal::mul_v;
use crate::decimal::num;
use crate::decimal::pow10;
use crate::decimal::lemma_norm_v_id;
use crate::decimal::neg_v;
use crate::decimal::norm_v;
use crate::decimal::percent_v;
use crate::decimal::reduce;
use crate::decimal::sub_v;
use crate::decimal::times100_v;
use crate::decimal::wf_dec;
use crate::decimal::zero_v;
use crate::text::all_digits;
use crate::text::lemma_parse_fmt;
use crate::text::lemma_parse_spec_wf;
use crate::text::parse_spec;

verus! {

/// The state after entering the digits `ds`, one keystroke at a time.
pub open spec fn run_digits(v: CalcV, ds: Seq<char>) -> CalcV
    decreases ds.len(),
{
    if ds.len() == 0 {
        v
    } else {
        step_digit(run_digits(v, ds.drop_last()), ds.last())
    }
}

/// The concatenation of entered digits with leading zeros collapsed: an empty
/// entry shows `0`, a digit typed over `0` replaces it, and every further
/// digit is appended.
pub open spec fn collapsed(ds: Seq<char>) -> Seq<char>
    decreases ds.len(),
{
    if ds.len() == 0 {
        seq!['0']
    } else if collapsed(ds.drop_last()) == seq!['0'] {
        seq![ds.last()]
    } else {
        collapsed(ds.drop_last()) + seq![ds.last()]
    }
}

/// For every sequence of digit entries with no operator pressed, the display
/// equals the concatenation of the entered digits with leading zeros
/// collapsed, and no fresh number is awaited.
pub proof fn lemma_digit_entries_concatenate(ds: Seq<char>)
    requires
        all_digits(ds),
    ensures
        run_digits(init_v(), ds).display == collapsed(ds),
        !run_digits(init_v(), ds).waiting,
    decreases ds.len(),
{
    if ds.len() > 0 {
        assert(all_digits(ds.drop_last())) by {
            assert(forall|i: int|
                0 <= i < ds.drop_last().len() ==> ds.drop_last()[i] == ds[i]);
        }
        lemma_digit_entries_concatenate(ds.drop_last());
    }
}

/// A digit entered right after an operator keystroke replaces the display
/// rather than appending to it.
pub proof fn lemma_entry_after_operator_replaces(v: CalcV, op: Op, d: char)
    ensures
        step_digit(step_op(v, op), d).display == seq![d],
{
}

/// A digit entered right after an equals keystroke that resolved a pending
/// operator replaces the display rather than appending to it.
pub proof fn lemma_entry_after_equals_replaces(v: CalcV, d: char)
    requires
        v.operator is Some,
    ensures
        step_digit(step_equals(v), d).display == seq![d],
{
}

/// Division by zero yields zero, never an error value.
pub proof fn lemma_division_by_zero_is_zero(x: DecV, y: DecV)
    requires
        y.mant == 0,
    ensures
        div_v(x, y) == zero_v(),
{
}

/// Backspace on a display showing `0`, or right after an operator, changes
/// nothing.
pub proof fn lemma_backspace_noop(v: CalcV)
    requires
        v.display == seq!['0'] || v.waiting,
    ensures
        step_backspace(v) == v,
{
}

/// Multiplying the percent of a value by one hundred restores the value
/// exactly, provided two more decimal places fit in range.
pub proof fn lemma_percent_round_trip(v: DecV)
    requires
        wf_dec(v),
        v.scale + 2 <= SCALE_MAX,
    ensures
        times100_v(percent_v(v)) == v,
{
    let m = v.mant;
    let s = v.scale;
    if m == 0 {
        assert(s == 0);
        assert(reduce(0, 2) == reduce(0, 1));
        assert(reduce(0, 1) == reduce(0, 0));
        assert(reduce(0, 0) == (0nat, 0nat));
        assert(percent_v(v) == zero_v());
        assert(times100_v(zero_v()) == zero_v());
    } else if m % 10 != 0 {
        assert(reduce(m, s + 2) == (m, (s + 2) as nat));
        assert(percent_v(v) == (DecV { neg: v.neg, mant: m, scale: s + 2 }));
        assert(m * 100 == (m * 10) * 10);
        lemma_norm_shift(v.neg, m * 10, s + 1);
        lemma_norm_shift(v.neg, m, s);
        lemma_norm_v_id(v);
    } else {
        // A trailing zero in the mantissa forces scale zero in a canonical value.
        assert(s == 0);
        let m1 = m / 10;
        assert(m == m1 * 10 && m1 < m) by (nonlinear_arith)
            requires
                m % 10 == 0,
                m1 == m / 10,
                m >= 1,
        ;
        assert(m1 >= 1);
        if m1 % 10 != 0 {
            assert(reduce(m, 2) == reduce(m1, 1));
            assert(reduce(m1, 1) == (m1, 1nat));
            assert(percent_v(v) == (DecV { neg: v.neg, mant: m1, scale: 1 }));
            assert(m1 * 100 == (m1 * 10) * 10);
            lemma_norm_shift(v.neg, m1 * 10, 0);
            assert(m1 * 10 == m);
            assert(reduce(m, 0) == (m, 0nat));
            assert(norm_v(v.neg, m, 0) == (DecV { neg: v.neg, mant: m, scale: 0 }));
            assert(times100_v(percent_v(v)) == (DecV { neg: v.neg, mant: m, scale: 0 }));
        } else {
            let m2 = m1 / 10;
            assert(m1 == m2 * 10 && m2 < m1) by (nonlinear_arith)
                requires
                    m1 % 10 == 0,
                    m2 == m1 / 10,
                    m1 >= 1,
            ;
            assert(m2 >= 1);
            assert(reduce(m, 2) == reduce(m1, 1));
            assert(reduce(m1, 1) == reduce(m2, 0));
            assert(reduce(m2, 0) == (m2, 0nat));
            assert(percent_v(v) == (DecV { neg: v.neg, mant: m2, scale: 0 }));
            let c = m2 * 100;
            assert(c == m) by (nonlinear_arith)
                requires
                    m == m1 * 10,
                    m1 == m2 * 10,
                    c == m2 * 100,
            ;
            assert(reduce(c, 0) == (c, 0nat));
            assert(times100_v(percent_v(v)) == (DecV { neg: v.neg, mant: m, scale: 0 }));
        }
    }
}

/// Within range, multiplication computes the product of the numbers: the
/// value of `mul_v(x, y)` equals `num(x)/10^x.scale * num(y)/10^y.scale`,
/// stated cross-multiplied.
pub proof fn lemma_mul_v_is_multiplication(x: DecV, y: DecV)
    requires
        wf_dec(x),
        wf_dec(y),
        x.mant * y.mant < MANT_MAX,
        x.scale + y.scale <= SCALE_MAX,
    ensures
        num(mul_v(x, y)) * pow10(x.scale) * pow10(y.scale) == num(x) * num(y) * pow10(
            mul_v(x, y).scale,
        ),
{
    lemma_pow10_adds(x.scale, y.scale);
    lemma_norm_v_value(x.neg != y.neg, x.mant * y.mant, x.scale + y.scale);
    let r = mul_v(x, y);
    let sp = (if x.neg != y.neg {
        -((x.mant * y.mant) as int)
    } else {
        (x.mant * y.mant) as int
    });
    assert(num(r) * pow10(x.scale + y.scale) == sp * pow10(r.scale));
    assert(sp == num(x) * num(y)) by (nonlinear_arith)
        requires
            sp == (if x.neg != y.neg {
                -((x.mant * y.mant) as int)
            } else {
                (x.mant * y.mant) as int
            }),
            num(x) == (if x.neg {
                -(x.mant as int)
            } else {
                x.mant as int
            }),
            num(y) == (if y.neg {
                -(y.mant as int)
            } else {
                y.mant as int
            }),
    ;
    assert(num(r) * pow10(x.scale) * pow10(y.scale) == num(r) * pow10(x.scale + y.scale))
        by (nonlinear_arith)
        requires
            pow10(x.scale + y.scale) == pow10(x.scale) * pow10(y.scale),
    ;
}

/// Within range, addition computes the sum of the numbers: the value of
/// `add_v(x, y)` equals `num(x)/10^x.scale + num(y)/10^y.scale`, stated
/// cross-multiplied. The range premise bounds the two mantissas aligned to
/// the common scale.
pub proof fn lemma_add_v_is_addition(x: DecV, y: DecV)
    requires
        wf_dec(x),
        wf_dec(y),
        x.mant * pow10(((if x.scale >= y.scale {
            x.scale
        } else {
            y.scale
        }) - x.scale) as nat) + y.mant * pow10(((if x.scale >= y.scale {
            x.scale
        } else {
            y.scale
        }) - y.scale) as nat) < MANT_MAX,
    ensures
        num(add_v(x, y)) * pow10(x.scale) * pow10(y.scale) == (num(x) * pow10(y.scale) + num(y)
            * pow10(x.scale)) * pow10(add_v(x, y).scale),
{
    let s: nat = if x.scale >= y.scale {
        x.scale
    } else {
        y.scale
    };
    let ax = x.mant * pow10((s - x.scale) as nat);
    let ay = y.mant * pow10((s - y.scale) as nat);
    let d: nat = ((x.scale + y.scale) - s) as nat;
    lemma_pow10_adds((s - x.scale) as nat, d);
    lemma_pow10_adds((s - y.scale) as nat, d);
    assert((s - x.scale) + d == y.scale);
    assert((s - y.scale) + d == x.scale);
    assert(ax * pow10(d) == x.mant * pow10(y.scale)) by (nonlinear_arith)
        requires
            ax == x.mant * pow10((s - x.scale) as nat),
            pow10((s - x.scale) as nat) * pow10(d) == pow10(y.scale),
    ;
    assert(ay * pow10(d) == y.mant * pow10(x.scale)) by (nonlinear_arith)
        requires
            ay == y.mant * pow10((s - y.scale) as nat),
            pow10((s - y.scale) as nat) * pow10(d) == pow10(x.scale),
    ;
    lemma_pow10_adds(s, d);
    lemma_pow10_adds(x.scale, y.scale);
    assert(pow10(s) * pow10(d) == pow10(x.scale) * pow10(y.scale));
    let r = add_v(x, y);
    // The signed aligned mantissa of the result before normalization.
    let sm: int = if x.neg == y.neg {
        if x.neg {
            -((ax + ay) as int)
        } else {
            (ax + ay) as int
        }
    } else if ax >= ay {
        if x.neg {
            -((ax - ay) as int)
        } else {
            ax - ay
        }
    } else {
        if y.neg {
            -((ay - ax) as int)
        } else {
            ay - ax
        }
    };
    if x.neg == y.neg {
        lemma_norm_v_value(x.neg, ax + ay, s);
    } else if ax >= ay {
        lemma_norm_v_value(x.neg, (ax - ay) as nat, s);
    } else {
        lemma_norm_v_value(y.neg, (ay - ax) as nat, s);
    }
    assert(num(r) * pow10(s) == sm * pow10(r.scale));
    assert(sm * pow10(d) == num(x) * pow10(y.scale) + num(y) * pow10(x.scale))
        by (nonlinear_arith)
        requires
            ax * pow10(d) == x.mant * pow10(y.scale),
            ay * pow10(d) == y.mant * pow10(x.scale),
            sm == (if x.neg == y.neg {
                if x.neg {
                    -((ax + ay) as int)
                } else {
                    (ax + ay) as int
                }
            } else if ax >= ay {
                if x.neg {
                    -((ax - ay) as int)
                } else {
                    ax - ay
                }
            } else {
                if y.neg {
                    -((ay - ax) as int)
                } else {
                    ay - ax
                }
            }),
            num(x) == (if x.neg {
                -(x.mant as int)
            } else {
                x.mant as int
            }),
            num(y) == (if y.neg {
                -(y.mant as int)
            } else {
                y.mant as int
            }),
            ax >= 0,
            ay >= 0,
    ;
    assert(num(r) * pow10(x.scale) * pow10(y.scale) == (num(x) * pow10(y.scale) + num(y) * pow10(
        x.scale,
    )) * pow10(r.scale)) by (nonlinear_arith)
        requires
            num(r) * pow10(s) == sm * pow10(r.scale),
            sm * pow10(d) == num(x) * pow10(y.scale) + num(y) * pow10(x.scale),
            pow10(s) * pow10(d) == pow10(x.scale) * pow10(y.scale),
    ;
}

/// Within range, subtraction computes the difference of the numbers, by the
/// same reading as `lemma_add_v_is_addition`.
pub proof fn lemma_sub_v_is_subtraction(x: DecV, y: DecV)
    requires
        wf_dec(x),
        wf_dec(y),
        x.mant * pow10(((if x.scale >= y.scale {
            x.scale
        } else {
            y.scale
        }) - x.scale) as nat) + y.mant * pow10(((if x.scale >= y.scale {
            x.scale
        } else {
            y.scale
        }) - y.scale) as nat) < MANT_MAX,
    ensures
        num(sub_v(x, y)) * pow10(x.scale) * pow10(y.scale) == (num(x) * pow10(y.scale) - num(y)
            * pow10(x.scale)) * pow10(sub_v(x, y).scale),
{
    let z = neg_v(y);
    assert(wf_dec(z));
    assert(z.mant == y.mant && z.scale == y.scale);
    assert(num(z) == -num(y));
    lemma_add_v_is_addition(x, z);
    assert(sub_v(x, y) == add_v(x, z));
    assert(num(sub_v(x, y)) * pow10(x.scale) * pow10(y.scale) == (num(x) * pow10(y.scale) + num(z)
        * pow10(x.scale)) * pow10(sub_v(x, y).scale));
    assert(num(sub_v(x, y)) * pow10(x.scale) * pow10(y.scale) == (num(x) * pow10(y.scale) - num(y)
        * pow10(x.scale)) * pow10(sub_v(x, y).scale)) by (nonlinear_arith)
        requires
            num(sub_v(x, y)) * pow10(x.scale) * pow10(y.scale) == (num(x) * pow10(y.scale) + num(
                z,
            ) * pow10(x.scale)) * pow10(sub_v(x, y).scale),
            num(z) == -num(y),
    ;
}

/// Toggling the sign twice returns the display to its original numeric
/// value.
pub proof fn lemma_toggle_sign_twice(v: CalcV)
    ensures
        parse_spec(step_toggle(step_toggle(v)).display) == parse_spec(v.display),
{
    let x = parse_spec(v.display);
    lemma_parse_spec_wf(v.display);
    assert(wf_dec(neg_v(x)));
    lemma_parse_fmt(neg_v(x));
    assert(parse_spec(step_toggle(v).display) == neg_v(x));
    assert(neg_v(neg_v(x)) == x);
    lemma_parse_fmt(x);
}

} // verus!
