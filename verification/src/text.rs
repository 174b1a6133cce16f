//! Reading and writing the display text.
//!
//! The display holds a plain decimal numeral: an optional leading minus sign,
//! digits, and at most one decimal point. `parse_dec` reads any text
//! fail-soft: anything that is not such a numeral, and any numeral outside
//! the representable range, is read as zero. `to_text` writes a canonical
//! value back as its shortest plain numeral.

use vstd::prelude::*;
use vstd::string::*;
use crate::decimal::Dec;
use crate::decimal::DecV;
use crate::decimal::MANT_MAX;
use crate::decimal::SCALE_MAX;
use crate::decimal::norm_v;
use crate::decimal::pow10;
use crate::decimal::pow10_u128;
use crate::decimal::wf_dec;
use crate::decimal::zero_v;

verus! {

/// An ASCII decimal digit.
pub open spec fn is_digit_char(c: char) -> bool {
    48 <= c as u32 && c as u32 <= 57
}

/// The numeric value of an ASCII digit.
pub open spec fn digit_val(c: char) -> nat {
    (c as u32 - 48) as nat
}

/// The parser state after reading a prefix of the text.
pub ghost struct PSt {
    /// No character has been read yet.
    pub first: bool,
    /// A leading minus sign was read.
    pub neg: bool,
    /// The digits read so far, as one integer.
    pub mant: nat,
    /// How many digits were read after the decimal point.
    pub scale: nat,
    /// A decimal point was read.
    pub dot: bool,
    /// At least one digit was read.
    pub digit: bool,
    /// The text is not a numeral in range.
    pub bad: bool,
}

/// The parser state before any character.
pub open spec fn p_init() -> PSt {
    PSt { first: true, neg: false, mant: 0, scale: 0, dot: false, digit: false, bad: false }
}

/// One character of parsing: a minus sign is accepted first, a single decimal
/// point anywhere, digits accumulate into the mantissa; anything else, a
/// mantissa reaching `MANT_MAX`, or more than `SCALE_MAX` decimal places
/// marks the text bad.
pub open spec fn p_step(st: PSt, c: char) -> PSt {
    let moved = PSt { first: false, ..st };
    if st.bad {
        moved
    } else if c == '-' {
        if st.first {
            PSt { neg: true, ..moved }
        } else {
            PSt { bad: true, ..moved }
        }
    } else if c == '.' {
        if st.dot {
            PSt { bad: true, ..moved }
        } else {
            PSt { dot: true, ..moved }
        }
    } else if is_digit_char(c) {
        let m = st.mant * 10 + digit_val(c);
        if m >= MANT_MAX || (st.dot && st.scale >= SCALE_MAX) {
            PSt { bad: true, ..moved }
        } else {
            PSt {
                mant: m,
                scale: if st.dot {
                    st.scale + 1
                } else {
                    st.scale
                },
                digit: true,
                ..moved
            }
        }
    } else {
        PSt { bad: true, ..moved }
    }
}

/// The parser state after the first `n` characters of `s`, starting from `st0`.
pub open spec fn p_fold(st0: PSt, s: Seq<char>, n: int) -> PSt
    decreases n,
{
    if n <= 0 {
        st0
    } else {
        p_step(p_fold(st0, s, n - 1), s[n - 1])
    }
}

/// What a text denotes: the canonical value of the numeral, or zero when the
/// text is not a numeral in range (the calculator's fail-soft convention).
pub open spec fn parse_spec(s: Seq<char>) -> DecV {
    let st = p_fold(p_init(), s, s.len() as int);
    if st.bad || !st.digit {
        zero_v()
    } else {
        norm_v(st.neg, st.mant, st.scale)
    }
}

/// Read a display text as a decimal value, fail-soft.
pub fn parse_dec(s: &str) -> (r: Dec)
    ensures
        r@ == parse_spec(s@),
        wf_dec(r@),
{
    let len = s.unicode_len();
    let mut i: usize = 0;
    let mut first: bool = true;
    let mut neg: bool = false;
    let mut mant: u128 = 0;
    let mut scale: u32 = 0;
    let mut dot: bool = false;
    let mut digit: bool = false;
    let mut bad: bool = false;
    while i < len
        invariant
            i <= len,
            len == s@.len(),
            p_fold(p_init(), s@, i as int) == (PSt {
                first: first,
                neg: neg,
                mant: mant as nat,
                scale: scale as nat,
                dot: dot,
                digit: digit,
                bad: bad,
            }),
            mant < MANT_MAX,
            scale <= SCALE_MAX,
        decreases len - i,
    {
        let c = s.get_char(i);
        assert(p_fold(p_init(), s@, i + 1) == p_step(p_fold(p_init(), s@, i as int), s@[i as int]));
        if !bad {
            if c == '-' {
                if first {
                    neg = true;
                } else {
                    bad = true;
                }
            } else if c == '.' {
                if dot {
                    bad = true;
                } else {
                    dot = true;
                }
            } else {
                let u = c as u32;
                if 48 <= u && u <= 57 {
                    let m = mant * 10 + ((u - 48) as u128);
                    if m >= MANT_MAX || (dot && scale >= SCALE_MAX) {
                        bad = true;
                    } else {
                        mant = m;
                        if dot {
                            scale = scale + 1;
                        }
                        digit = true;
                    }
                } else {
                    bad = true;
                }
            }
        }
        first = false;
        i = i + 1;
    }
    if bad || !digit {
        Dec::zero()
    } else {
        Dec::norm(neg, mant, scale)
    }
}

/// The character for one digit value.
pub open spec fn digit_char(d: nat) -> char {
    if d == 0 {
        '0'
    } else if d == 1 {
        '1'
    } else if d == 2 {
        '2'
    } else if d == 3 {
        '3'
    } else if d == 4 {
        '4'
    } else if d == 5 {
        '5'
    } else if d == 6 {
        '6'
    } else if d == 7 {
        '7'
    } else if d == 8 {
        '8'
    } else {
        '9'
    }
}

/// The decimal digits of `n`, most significant first; `0` is the single
/// digit `0`.
pub open spec fn digits_of(n: nat) -> Seq<char>
    decreases n,
{
    if n < 10 {
        seq![digit_char(n)]
    } else {
        digits_of(n / 10) + seq![digit_char(n % 10)]
    }
}

/// `n` zero characters.
pub open spec fn zeroes(n: nat) -> Seq<char>
    decreases n,
{
    if n == 0 {
        Seq::<char>::empty()
    } else {
        zeroes((n - 1) as nat) + seq!['0']
    }
}

/// The canonical text of a value: an optional minus sign, the integer part,
/// and, when the scale is positive, a decimal point followed by the
/// zero-padded fractional digits.
pub open spec fn fmt_spec(v: DecV) -> Seq<char> {
    let ip = v.mant / pow10(v.scale);
    let fp = v.mant % pow10(v.scale);
    let sign = if v.neg {
        seq!['-']
    } else {
        Seq::<char>::empty()
    };
    let frac = if v.scale == 0 {
        Seq::<char>::empty()
    } else {
        seq!['.'] + zeroes((v.scale - digits_of(fp).len()) as nat) + digits_of(fp)
    };
    sign + digits_of(ip) + frac
}

/// The one-character text of a digit value.
fn digit_str(d: u128) -> (r: &'static str)
    requires
        d < 10,
    ensures
        r@ == seq![digit_char(d as nat)],
{
    proof {
        reveal_strlit("0");
        reveal_strlit("1");
        reveal_strlit("2");
        reveal_strlit("3");
        reveal_strlit("4");
        reveal_strlit("5");
        reveal_strlit("6");
        reveal_strlit("7");
        reveal_strlit("8");
        reveal_strlit("9");
    }
    let r: &'static str = if d == 0 {
        "0"
    } else if d == 1 {
        "1"
    } else if d == 2 {
        "2"
    } else if d == 3 {
        "3"
    } else if d == 4 {
        "4"
    } else if d == 5 {
        "5"
    } else if d == 6 {
        "6"
    } else if d == 7 {
        "7"
    } else if d == 8 {
        "8"
    } else {
        "9"
    };
    assert(r@ =~= seq![digit_char(d as nat)]);
    r
}

/// The decimal digit string of `n`, most significant first.
fn digits_string(n: u128) -> (r: String)
    ensures
        r@ == digits_of(n as nat),
    decreases n,
{
    if n >= 10 {
        assert(n as nat / 10 < n as nat) by (nonlinear_arith)
            requires
                n >= 10,
        ;
        let mut r = digits_string(n / 10);
        r.append(digit_str(n % 10));
        assert(r@ =~= digits_of(n as nat));
        r
    } else {
        let r = digit_str(n).to_owned();
        assert(r@ =~= digits_of(n as nat));
        r
    }
}

/// The digit string of `n < 10^k` has at most `k` characters (and always at
/// least one).
proof fn lemma_digits_of_len(n: nat, k: nat)
    requires
        k >= 1,
        n < pow10(k),
    ensures
        1 <= digits_of(n).len() <= k,
    decreases n,
{
    if n >= 10 {
        assert(k >= 2) by {
            if k == 1 {
                assert(pow10(1) == 10);
            }
        }
        assert(n / 10 < pow10((k - 1) as nat)) by (nonlinear_arith)
            requires
                n < pow10(k),
                pow10(k) == 10 * pow10((k - 1) as nat),
        ;
        lemma_digits_of_len(n / 10, (k - 1) as nat);
    }
}

/// Write a canonical value as its display text.
pub fn to_text(d: Dec) -> (r: String)
    requires
        wf_dec(d@),
    ensures
        r@ == fmt_spec(d@),
{
    proof {
        reveal_strlit("-");
        reveal_strlit(".");
        reveal_strlit("0");
        crate::decimal::lemma_pow10_pos(d.scale as nat);
    }
    let p = pow10_u128(d.scale);
    let ip = d.mant / p;
    let fp = d.mant % p;
    let ghost sign: Seq<char> = if d.neg {
        seq!['-']
    } else {
        Seq::<char>::empty()
    };
    let mut out: String;
    if d.neg {
        out = "-".to_owned();
        assert(out@ =~= sign);
    } else {
        out = String::new();
        assert(out@ =~= sign);
    }
    let ds = digits_string(ip);
    out.append(ds.as_str());
    assert(out@ == sign + digits_of(ip as nat));
    if d.scale > 0 {
        out.append(".");
        assert("."@ =~= seq!['.']);
        let tmp = digits_string(fp);
        proof {
            lemma_digits_of_len(fp as nat, d.scale as nat);
        }
        let dl = tmp.as_str().unicode_len();
        let mut k: u32 = d.scale - (dl as u32);
        let ghost pad: nat = (d.scale - dl) as nat;
        assert(out@ =~= sign + digits_of(ip as nat) + seq!['.'] + zeroes((pad - k) as nat));
        while k > 0
            invariant
                k <= pad,
                pad == (d.scale - digits_of(d.mant as nat % pow10(d.scale as nat)).len()) as nat,
                out@ == sign + digits_of((d.mant as nat / pow10(d.scale as nat))) + seq!['.'] + zeroes((pad - k) as nat),
            decreases k,
        {
            out.append("0");
            proof {
                reveal_strlit("0");
            }
            assert("0"@ =~= seq!['0']);
            assert(out@ =~= sign + digits_of((d.mant as nat / pow10(d.scale as nat))) + seq!['.'] + zeroes((pad - k + 1) as nat));
            k = k - 1;
        }
        out.append(tmp.as_str());
        assert(out@ =~= fmt_spec(d@));
        out
    } else {
        assert(out@ =~= fmt_spec(d@));
        out
    }
}

/// Every character of `s` is an ASCII digit.
pub open spec fn all_digits(s: Seq<char>) -> bool {
    forall|i: int| 0 <= i < s.len() ==> is_digit_char(#[trigger] s[i])
}

/// The number a digit string denotes, most significant digit first.
pub open spec fn val_digits(s: Seq<char>) -> nat
    decreases s.len(),
{
    if s.len() == 0 {
        0
    } else {
        val_digits(s.drop_last()) * 10 + digit_val(s.last())
    }
}

proof fn lemma_digit_char_val(d: nat)
    requires
        d < 10,
    ensures
        digit_val(digit_char(d)) == d,
        is_digit_char(digit_char(d)),
{
}

/// The digit string of `n` consists of digits, denotes `n`, and is non-empty.
proof fn lemma_digits_of_props(n: nat)
    ensures
        all_digits(digits_of(n)),
        val_digits(digits_of(n)) == n,
        digits_of(n).len() >= 1,
    decreases n,
{
    if n < 10 {
        lemma_digit_char_val(n);
        assert(digits_of(n) == seq![digit_char(n)]);
        assert(seq![digit_char(n)].drop_last() =~= Seq::<char>::empty());
        assert(seq![digit_char(n)].last() == digit_char(n));
        assert(val_digits(Seq::<char>::empty()) == 0);
        assert(val_digits(digits_of(n)) == 0 * 10 + digit_val(digit_char(n)));
    } else {
        lemma_digits_of_props(n / 10);
        lemma_digit_char_val(n % 10);
        let a = digits_of(n / 10);
        let c = digit_char(n % 10);
        assert(digits_of(n) == a + seq![c]);
        assert((a + seq![c]).drop_last() =~= a);
        assert((a + seq![c]).last() == c);
        assert(val_digits(digits_of(n)) == (n / 10) * 10 + n % 10);
        assert forall|i: int| 0 <= i < digits_of(n).len() implies is_digit_char(
            #[trigger] digits_of(n)[i],
        ) by {
            if i < a.len() {
                assert(digits_of(n)[i] == a[i]);
            } else {
                assert(digits_of(n)[i] == c);
            }
        }
    }
}

/// `k` zero characters: all digits, denoting zero.
proof fn lemma_zeroes_props(k: nat)
    ensures
        zeroes(k).len() == k,
        all_digits(zeroes(k)),
        val_digits(zeroes(k)) == 0,
    decreases k,
{
    if k > 0 {
        lemma_zeroes_props((k - 1) as nat);
        let a = zeroes((k - 1) as nat);
        assert(zeroes(k) == a + seq!['0']);
        assert((a + seq!['0']).drop_last() =~= a);
        assert((a + seq!['0']).last() == '0');
        assert(digit_val('0') == 0);
        assert forall|i: int| 0 <= i < zeroes(k).len() implies is_digit_char(
            #[trigger] zeroes(k)[i],
        ) by {
            if i < a.len() {
                assert(zeroes(k)[i] == a[i]);
            } else {
                assert(zeroes(k)[i] == '0');
            }
        }
    }
}

/// Folding the parser over `n` characters only looks at the first `n`
/// characters.
proof fn lemma_fold_agrees(st0: PSt, s: Seq<char>, t: Seq<char>, n: int)
    requires
        n <= s.len(),
        n <= t.len(),
        forall|i: int| 0 <= i < n ==> s[i] == t[i],
    ensures
        p_fold(st0, s, n) == p_fold(st0, t, n),
    decreases n,
{
    if n > 0 {
        lemma_fold_agrees(st0, s, t, n - 1);
    }
}

/// Folding the parser over a concatenation folds each part in turn.
proof fn lemma_fold_concat(st0: PSt, a: Seq<char>, b: Seq<char>)
    ensures
        p_fold(st0, a + b, (a.len() + b.len()) as int) == p_fold(
            p_fold(st0, a, a.len() as int),
            b,
            b.len() as int,
        ),
    decreases b.len(),
{
    if b.len() == 0 {
        lemma_fold_agrees(st0, a + b, a, a.len() as int);
    } else {
        let b1 = b.drop_last();
        lemma_fold_concat(st0, a, b1);
        lemma_fold_agrees(st0, a + b, a + b1, (a.len() + b1.len()) as int);
        let st1 = p_fold(st0, a, a.len() as int);
        lemma_fold_agrees(st1, b, b1, b1.len() as int);
        assert((a + b)[(a.len() + b.len()) as int - 1] == b.last());
    }
}

/// Folding the parser over a run of digits multiplies the mantissa by the
/// matching power of ten and adds the run's value; the decimal-place count
/// grows by the run's length when the decimal point has been seen.
proof fn lemma_fold_digit_run(st: PSt, s: Seq<char>)
    requires
        !st.bad,
        all_digits(s),
        st.mant * pow10(s.len() as nat) + val_digits(s) < MANT_MAX,
        st.dot ==> st.scale + s.len() <= SCALE_MAX,
    ensures
        p_fold(st, s, s.len() as int) == (PSt {
            first: st.first && s.len() == 0,
            neg: st.neg,
            mant: st.mant * pow10(s.len() as nat) + val_digits(s),
            scale: if st.dot {
                (st.scale + s.len()) as nat
            } else {
                st.scale
            },
            dot: st.dot,
            digit: st.digit || s.len() > 0,
            bad: false,
        }),
    decreases s.len(),
{
    if s.len() == 0 {
        assert(pow10(0) == 1);
        assert(st.mant * 1 == st.mant);
        assert(val_digits(s) == 0);
    } else {
        let s1 = s.drop_last();
        let c = s.last();
        assert(is_digit_char(c));
        assert(st.mant * pow10(s1.len() as nat) * 10 == st.mant * pow10(s.len() as nat))
            by (nonlinear_arith)
            requires
                pow10(s.len() as nat) == 10 * pow10(s1.len() as nat),
        ;
        assert(st.mant * pow10(s1.len() as nat) + val_digits(s1) < MANT_MAX) by (nonlinear_arith)
            requires
                st.mant * pow10(s1.len() as nat) * 10 + val_digits(s1) * 10 + digit_val(c)
                    < MANT_MAX,
        ;
        lemma_fold_digit_run(st, s1);
        lemma_fold_agrees(st, s, s1, s1.len() as int);
        let st1 = p_fold(st, s, s1.len() as int);
        assert(p_fold(st, s, s.len() as int) == p_step(st1, c));
        assert(st1.mant * 10 + digit_val(c) == st.mant * pow10(s.len() as nat) + val_digits(s))
            by (nonlinear_arith)
            requires
                st1.mant == st.mant * pow10(s1.len() as nat) + val_digits(s1),
                st.mant * pow10(s1.len() as nat) * 10 == st.mant * pow10(s.len() as nat),
                val_digits(s) == val_digits(s1) * 10 + digit_val(c),
        ;
        assert(!(c == '-')) by {
            assert(is_digit_char(c));
        }
        assert(!(c == '.')) by {
            assert(is_digit_char(c));
        }
    }
}

/// The text holds at most one decimal point.
pub open spec fn one_dot(s: Seq<char>) -> bool {
    forall|i: int, j: int|
        0 <= i < s.len() && 0 <= j < s.len() && s[i] == '.' && s[j] == '.' ==> i == j
}

/// The canonical text of a value holds at most one decimal point.
pub proof fn lemma_fmt_one_dot(v: DecV)
    ensures
        one_dot(fmt_spec(v)),
{
    let ip = v.mant / pow10(v.scale);
    let fp = v.mant % pow10(v.scale);
    lemma_digits_of_props(ip);
    lemma_digits_of_props(fp);
    lemma_zeroes_props((v.scale - digits_of(fp).len()) as nat);
    let sign: Seq<char> = if v.neg {
        seq!['-']
    } else {
        Seq::<char>::empty()
    };
    let off = sign.len() + digits_of(ip).len();
    assert forall|k: int| 0 <= k < fmt_spec(v).len() && fmt_spec(v)[k] == '.' implies k == off by {
        if k < sign.len() {
            assert(fmt_spec(v)[k] == '-');
        } else if k < off {
            assert(fmt_spec(v)[k] == digits_of(ip)[k - sign.len()]);
            assert(is_digit_char(fmt_spec(v)[k]));
        } else if v.scale == 0 {
            assert(fmt_spec(v).len() == off);
        } else if k > off {
            let frac = seq!['.'] + zeroes((v.scale - digits_of(fp).len()) as nat) + digits_of(fp);
            assert(fmt_spec(v)[k] == frac[k - off]);
            if k - off < 1 + zeroes((v.scale - digits_of(fp).len()) as nat).len() {
                assert(frac[k - off] == '0');
            } else {
                assert(frac[k - off] == digits_of(fp)[k - off - 1 - zeroes(
                    (v.scale - digits_of(fp).len()) as nat,
                ).len()]);
                assert(is_digit_char(frac[k - off]));
            }
        }
    }
}

/// Whatever the text, the value it denotes is canonical and in range.
pub proof fn lemma_parse_spec_wf(s: Seq<char>)
    ensures
        wf_dec(parse_spec(s)),
{
    let st = p_fold(p_init(), s, s.len() as int);
    if !(st.bad || !st.digit) {
        crate::decimal::lemma_norm_v_wf(st.neg, st.mant, st.scale);
    }
}

/// The text of a value is never empty.
pub proof fn lemma_fmt_nonempty(v: DecV)
    ensures
        fmt_spec(v).len() >= 1,
{
    lemma_digits_of_props(v.mant / pow10(v.scale));
}

/// Reading back the canonical text of a canonical value gives that value:
/// `to_text` and `parse_dec` form a round trip.
pub proof fn lemma_parse_fmt(v: DecV)
    requires
        wf_dec(v),
    ensures
        parse_spec(fmt_spec(v)) == v,
{
    crate::decimal::lemma_pow10_pos(v.scale);
    let p = pow10(v.scale);
    let ip = v.mant / p;
    let fp = v.mant % p;
    vstd::arithmetic::div_mod::lemma_fundamental_div_mod(v.mant as int, p as int);
    assert(v.mant == p * ip + fp);
    let d_ip = digits_of(ip);
    let d_fp = digits_of(fp);
    lemma_digits_of_props(ip);
    lemma_digits_of_props(fp);
    let sign: Seq<char> = if v.neg {
        seq!['-']
    } else {
        Seq::<char>::empty()
    };
    // The state after the sign and the integer digits.
    let st_sign = p_fold(p_init(), sign, sign.len() as int);
    if v.neg {
        assert(sign[0] == '-');
        assert(p_fold(p_init(), sign, 1) == p_step(p_fold(p_init(), sign, 0), sign[0]));
        assert(st_sign == p_step(p_init(), '-'));
    }
    assert(st_sign == (PSt {
        first: !v.neg,
        neg: v.neg,
        mant: 0,
        scale: 0,
        dot: false,
        digit: false,
        bad: false,
    }));
    assert(ip <= v.mant) by (nonlinear_arith)
        requires
            v.mant == p * ip + fp,
            p >= 1,
            fp >= 0,
            ip >= 0,
    ;
    lemma_fold_concat(p_init(), sign, d_ip);
    assert(0 * pow10(d_ip.len() as nat) == 0) by (nonlinear_arith);
    assert(0 * pow10(d_ip.len() as nat) + val_digits(d_ip) == ip);
    lemma_fold_digit_run(st_sign, d_ip);
    let a = sign + d_ip;
    let st_int = p_fold(p_init(), a, a.len() as int);
    assert(st_int == (PSt {
        first: false,
        neg: v.neg,
        mant: ip,
        scale: 0,
        dot: false,
        digit: true,
        bad: false,
    }));
    if v.scale == 0 {
        assert(p == 1);
        assert(fp == 0);
        assert(ip == v.mant) by (nonlinear_arith)
            requires
                v.mant == p * ip + fp,
                p == 1,
                fp == 0,
        ;
        assert(fmt_spec(v) =~= a);
        assert(parse_spec(fmt_spec(v)) == norm_v(v.neg, v.mant, 0));
        crate::decimal::lemma_norm_v_id(v);
    } else {
        let pad = (v.scale - d_fp.len()) as nat;
        assert(fp < p);
        lemma_digits_of_len(fp, v.scale);
        lemma_zeroes_props(pad);
        let frac = seq!['.'] + zeroes(pad) + d_fp;
        assert(fmt_spec(v) =~= a + frac);
        lemma_fold_concat(p_init(), a, frac);
        // The dot.
        let dotseq = seq!['.'];
        let st_dot = p_step(st_int, '.');
        assert(dotseq[0] == '.');
        assert(p_fold(st_int, dotseq, 1) == p_step(p_fold(st_int, dotseq, 0), dotseq[0]));
        assert(p_fold(st_int, dotseq, 1) == st_dot);
        // The zero padding.
        lemma_fold_concat(st_int, dotseq, zeroes(pad));
        crate::decimal::lemma_pow10_adds(pad, d_fp.len() as nat);
        crate::decimal::lemma_pow10_pos(d_fp.len() as nat);
        crate::decimal::lemma_pow10_pos(pad);
        assert(pow10(pad) <= p) by {
            assert(pad + d_fp.len() == v.scale) by {
                assert(d_fp.len() <= v.scale);
            }
            assert(pow10(pad) * pow10(d_fp.len() as nat) == p);
            assert(pow10(pad) * 1 <= pow10(pad) * pow10(d_fp.len() as nat)) by (nonlinear_arith)
                requires
                    pow10(d_fp.len() as nat) >= 1,
                    pow10(pad) >= 0,
            ;
        }
        assert(ip * pow10(pad) <= ip * p) by (nonlinear_arith)
            requires
                pow10(pad) <= p,
                ip >= 0,
        ;
        assert(ip * p + fp == v.mant) by (nonlinear_arith)
            requires
                v.mant == p * ip + fp,
        ;
        lemma_fold_digit_run(st_dot, zeroes(pad));
        let st_pad = p_fold(st_dot, zeroes(pad), pad as int);
        assert(st_pad == (PSt {
            first: false,
            neg: v.neg,
            mant: ip * pow10(pad),
            scale: pad,
            dot: true,
            digit: true,
            bad: false,
        }));
        // The fraction digits.
        assert(ip * pow10(pad) * pow10(d_fp.len() as nat) + fp == v.mant) by (nonlinear_arith)
            requires
                pow10(pad) * pow10(d_fp.len() as nat) == p,
                ip * p + fp == v.mant,
        ;
        lemma_fold_digit_run(st_pad, d_fp);
        let st_fin = p_fold(st_pad, d_fp, d_fp.len() as int);
        assert(st_fin == (PSt {
            first: false,
            neg: v.neg,
            mant: v.mant as nat,
            scale: v.scale,
            dot: true,
            digit: true,
            bad: false,
        }));
        // Chain the folds together over the whole text.
        lemma_fold_concat(st_int, dotseq + zeroes(pad), d_fp);
        lemma_fold_agrees(
            st_int,
            (dotseq + zeroes(pad)) + d_fp,
            frac,
            ((dotseq + zeroes(pad)) + d_fp).len() as int,
        );
        assert(frac =~= (dotseq + zeroes(pad)) + d_fp);
        assert(p_fold(st_int, frac, frac.len() as int) == st_fin);
        assert(parse_spec(fmt_spec(v)) == norm_v(v.neg, v.mant, v.scale));
        crate::decimal::lemma_norm_v_id(v);
    }
}

} // verus!
