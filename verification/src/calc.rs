//! The calculator accumulator.
//!
//! The state is a display text, a cosmetic equation trace, the last committed
//! operand, an optional pending operator, and a flag that tells the next
//! digit keystroke to start a fresh number. Each key of the pad is one
//! method, and each method's contract is a pure transition function on the
//! mathematical view of the state.

use vstd::prelude::*;
use vstd::string::*;
use crate::decimal::Dec;
use crate::decimal::DecV;
use crate::decimal::add_v;
use crate::decimal::div_v;
use crate::decimal::mul_v;
use crate::decimal::neg_v;
use crate::decimal::percent_v;
use crate::decimal::sub_v;
use crate::decimal::wf_dec;
use crate::decimal::zero_v;
use crate::text::fmt_spec;
use crate::text::is_digit_char;
use crate::text::lemma_fmt_nonempty;
use crate::text::lemma_fmt_one_dot;
use crate::text::one_dot;
use crate::text::parse_dec;
use crate::text::parse_spec;
use crate::text::to_text;

verus! {

/// One of the four binary operators of the pad.
#[derive(Clone, Copy, PartialEq, Eq, Structural, Debug)]
pub enum Op {
    Add,
    Sub,
    Mul,
    Div,
}

/// The character shown for an operator in the equation trace.
pub open spec fn op_sym(op: Op) -> Seq<char> {
    match op {
        Op::Add => seq!['+'],
        Op::Sub => seq!['-'],
        Op::Mul => seq!['\u{00d7}'],
        Op::Div => seq!['\u{00f7}'],
    }
}

/// What an operator computes on two canonical values.
pub open spec fn apply_op(op: Op, x: DecV, y: DecV) -> DecV {
    match op {
        Op::Add => add_v(x, y),
        Op::Sub => sub_v(x, y),
        Op::Mul => mul_v(x, y),
        Op::Div => div_v(x, y),
    }
}

impl Op {
    /// The operator's display text.
    pub fn symbol(self) -> (r: &'static str)
        ensures
            r@ == op_sym(self),
    {
        proof {
            reveal_strlit("+");
            reveal_strlit("-");
            reveal_strlit("\u{00d7}");
            reveal_strlit("\u{00f7}");
        }
        match self {
            Op::Add => {
                assert("+"@ =~= seq!['+']);
                "+"
            },
            Op::Sub => {
                assert("-"@ =~= seq!['-']);
                "-"
            },
            Op::Mul => {
                assert("\u{00d7}"@ =~= seq!['\u{00d7}']);
                "\u{00d7}"
            },
            Op::Div => {
                assert("\u{00f7}"@ =~= seq!['\u{00f7}']);
                "\u{00f7}"
            },
        }
    }
}

/// The calculator state.
pub struct CalcApp {
    /// The number being shown, always a non-empty decimal numeral.
    pub display: String,
    /// A human-readable trace of the last operation; cosmetic only.
    pub equation: String,
    /// The most recently committed left-hand operand.
    pub last_val: Dec,
    /// The pending operator, if one was pressed.
    pub operator: Option<Op>,
    /// The next digit keystroke replaces the display instead of appending.
    pub waiting_for_next: bool,
}

/// The mathematical view of the calculator state.
pub ghost struct CalcV {
    pub display: Seq<char>,
    pub equation: Seq<char>,
    pub last_val: DecV,
    pub operator: Option<Op>,
    pub waiting: bool,
}

impl View for CalcApp {
    type V = CalcV;

    open spec fn view(&self) -> CalcV {
        CalcV {
            display: self.display@,
            equation: self.equation@,
            last_val: self.last_val@,
            operator: self.operator,
            waiting: self.waiting_for_next,
        }
    }
}

/// The state at window open: display `0`, nothing pending.
pub open spec fn init_v() -> CalcV {
    CalcV {
        display: seq!['0'],
        equation: Seq::<char>::empty(),
        last_val: zero_v(),
        operator: None,
        waiting: false,
    }
}

/// A digit keystroke: replace the display when it shows `0` or when a fresh
/// number is awaited, append otherwise.
pub open spec fn step_digit(v: CalcV, d: char) -> CalcV {
    if v.display == seq!['0'] || v.waiting {
        CalcV { display: seq![d], waiting: false, ..v }
    } else {
        CalcV { display: v.display + seq![d], ..v }
    }
}

/// The decimal-point keystroke: start `0.` on a fresh number, append one
/// point if none is shown yet, and otherwise do nothing.
pub open spec fn step_dot(v: CalcV) -> CalcV {
    if v.waiting {
        CalcV { display: seq!['0', '.'], waiting: false, ..v }
    } else if !v.display.contains('.') {
        CalcV { display: v.display + seq!['.'], ..v }
    } else {
        v
    }
}

/// Resolve the pending computation: apply the pending operator to the last
/// operand and the displayed number, show the result, commit it as the last
/// operand, and await a fresh number. Without a pending operator this does
/// nothing.
pub open spec fn step_resolve(v: CalcV) -> CalcV {
    match v.operator {
        Some(op) => {
            let r = apply_op(op, v.last_val, parse_spec(v.display));
            CalcV { display: fmt_spec(r), last_val: r, waiting: true, ..v }
        },
        None => v,
    }
}

/// An operator keystroke: fold an already pending computation first (unless
/// the previous keystroke was itself an operator), then commit the displayed
/// number as the left operand, record the operator and await the right
/// operand.
pub open spec fn step_op(v: CalcV, op: Op) -> CalcV {
    let v1 = if v.operator is Some && !v.waiting {
        step_resolve(v)
    } else {
        v
    };
    let cur = parse_spec(v1.display);
    CalcV {
        display: v1.display,
        equation: fmt_spec(cur) + seq![' '] + op_sym(op),
        last_val: cur,
        operator: Some(op),
        waiting: true,
    }
}

/// The equals keystroke: resolve the pending computation, trace the full
/// equation, and clear the pending operator. Without one this does nothing.
pub open spec fn step_equals(v: CalcV) -> CalcV {
    match v.operator {
        Some(op) => {
            let prev = v.last_val;
            let cur = parse_spec(v.display);
            let v1 = step_resolve(v);
            CalcV {
                equation: fmt_spec(prev) + seq![' '] + op_sym(op) + seq![' '] + fmt_spec(cur)
                    + seq![' ', '='],
                operator: None,
                ..v1
            }
        },
        None => v,
    }
}

/// The percent keystroke: the displayed number divided by one hundred.
pub open spec fn step_percent(v: CalcV) -> CalcV {
    CalcV { display: fmt_spec(percent_v(parse_spec(v.display))), ..v }
}

/// The sign keystroke: the displayed number negated.
pub open spec fn step_toggle(v: CalcV) -> CalcV {
    CalcV { display: fmt_spec(neg_v(parse_spec(v.display))), ..v }
}

/// The `CE` keystroke: reset only the display.
pub open spec fn step_clear_entry(v: CalcV) -> CalcV {
    CalcV { display: seq!['0'], ..v }
}

/// The backspace keystroke: drop the last character unless a fresh number is
/// awaited or the display shows `0`; an emptied display, or a bare minus
/// sign, resets to `0`.
pub open spec fn step_backspace(v: CalcV) -> CalcV {
    if !v.waiting && v.display.len() > 0 && v.display != seq!['0'] {
        let d2 = v.display.drop_last();
        if d2.len() == 0 || d2 == seq!['-'] {
            CalcV { display: seq!['0'], ..v }
        } else {
            CalcV { display: d2, ..v }
        }
    } else {
        v
    }
}

/// Whether `s` is exactly the one-character text `c`.
fn is_single_char(s: &str, c: char) -> (r: bool)
    ensures
        r == (s@ == seq![c]),
{
    let len = s.unicode_len();
    if len == 1 {
        let ch = s.get_char(0);
        if ch == c {
            proof {
                assert(s@ =~= seq![c]);
            }
            true
        } else {
            proof {
                if s@ == seq![c] {
                    assert(s@[0] == c);
                }
            }
            false
        }
    } else {
        proof {
            if s@ == seq![c] {
                assert(s@.len() == 1);
            }
        }
        false
    }
}

/// Whether `s` contains the character `c`.
fn contains_char(s: &str, c: char) -> (r: bool)
    ensures
        r == s@.contains(c),
{
    let len = s.unicode_len();
    let mut i: usize = 0;
    while i < len
        invariant
            i <= len,
            len == s@.len(),
            forall|j: int| 0 <= j < i ==> s@[j] != c,
        decreases len - i,
    {
        let ch = s.get_char(i);
        if ch == c {
            proof {
                assert(s@.contains(c));
            }
            return true;
        }
        i = i + 1;
    }
    proof {
        if s@.contains(c) {
            let j = choose|j: int| 0 <= j < s@.len() && s@[j] == c;
            assert(s@[j] != c);
        }
    }
    false
}

impl CalcApp {
    /// The calculator's state invariant: the last operand is canonical and
    /// the display is never empty.
    pub open spec fn wf(self) -> bool {
        &&& wf_dec(self.last_val@)
        &&& self.display@.len() >= 1
        &&& one_dot(self.display@)
    }

    /// A calculator in its initial state.
    pub fn new() -> (r: Self)
        ensures
            r@ == init_v(),
            r.wf(),
    {
        proof {
            reveal_strlit("0");
        }
        let display = "0".to_owned();
        assert(display@ =~= seq!['0']);
        CalcApp {
            display,
            equation: String::new(),
            last_val: Dec::zero(),
            operator: None,
            waiting_for_next: false,
        }
    }

    /// A digit keystroke; `digit` is one ASCII digit.
    pub fn add_digit(&mut self, digit: &str)
        requires
            old(self).wf(),
            digit@.len() == 1,
            is_digit_char(digit@[0]),
        ensures
            final(self)@ == step_digit(old(self)@, digit@[0]),
            final(self).wf(),
    {
        proof {
            assert(digit@ =~= seq![digit@[0]]);
        }
        if is_single_char(self.display.as_str(), '0') || self.waiting_for_next {
            self.display = digit.to_owned();
            self.waiting_for_next = false;
        } else {
            self.display.append(digit);
        }
    }

    /// The decimal-point keystroke.
    pub fn enter_decimal_point(&mut self)
        requires
            old(self).wf(),
        ensures
            final(self)@ == step_dot(old(self)@),
            final(self).wf(),
    {
        proof {
            reveal_strlit("0.");
            reveal_strlit(".");
            assert("0."@ =~= seq!['0', '.']);
            assert("."@ =~= seq!['.']);
        }
        if self.waiting_for_next {
            self.display = "0.".to_owned();
            self.waiting_for_next = false;
        } else if !contains_char(self.display.as_str(), '.') {
            self.display.append(".");
        }
    }

    /// Resolve the pending computation, if any.
    fn calculate_internal(&mut self)
        requires
            old(self).wf(),
        ensures
            final(self)@ == step_resolve(old(self)@),
            final(self).wf(),
    {
        match self.operator {
            Some(op) => {
                let cur = parse_dec(self.display.as_str());
                let result = match op {
                    Op::Add => self.last_val.plus(cur),
                    Op::Sub => self.last_val.minus(cur),
                    Op::Mul => self.last_val.times(cur),
                    Op::Div => self.last_val.divided_by(cur),
                };
                proof {
                    lemma_fmt_nonempty(result@);
                    lemma_fmt_one_dot(result@);
                }
                self.display = to_text(result);
                self.last_val = result;
                self.waiting_for_next = true;
            },
            None => {},
        }
    }

    /// An operator keystroke.
    pub fn set_operator(&mut self, op: Op)
        requires
            old(self).wf(),
        ensures
            final(self)@ == step_op(old(self)@, op),
            final(self).wf(),
    {
        proof {
            reveal_strlit(" ");
            assert(" "@ =~= seq![' ']);
        }
        if self.operator.is_some() && !self.waiting_for_next {
            self.calculate_internal();
        }
        let cur = parse_dec(self.display.as_str());
        self.last_val = cur;
        self.operator = Some(op);
        self.equation = to_text(cur).concat(" ").concat(op.symbol());
        self.waiting_for_next = true;
    }

    /// The equals keystroke.
    pub fn calculate(&mut self)
        requires
            old(self).wf(),
        ensures
            final(self)@ == step_equals(old(self)@),
            final(self).wf(),
    {
        proof {
            reveal_strlit(" ");
            reveal_strlit(" =");
            assert(" "@ =~= seq![' ']);
            assert(" ="@ =~= seq![' ', '=']);
        }
        match self.operator {
            Some(op) => {
                let cur = parse_dec(self.display.as_str());
                let prev = self.last_val;
                self.calculate_internal();
                let trace = to_text(prev).concat(" ").concat(op.symbol()).concat(" ");
                let trace = trace.concat(to_text(cur).as_str()).concat(" =");
                self.equation = trace;
                self.operator = None;
            },
            None => {},
        }
    }

    /// The percent keystroke.
    pub fn percent(&mut self)
        requires
            old(self).wf(),
        ensures
            final(self)@ == step_percent(old(self)@),
            final(self).wf(),
    {
        let cur = parse_dec(self.display.as_str());
        let r = cur.percent();
        proof {
            lemma_fmt_nonempty(r@);
            lemma_fmt_one_dot(r@);
        }
        self.display = to_text(r);
    }

    /// The sign keystroke.
    pub fn toggle_sign(&mut self)
        requires
            old(self).wf(),
        ensures
            final(self)@ == step_toggle(old(self)@),
            final(self).wf(),
    {
        let cur = parse_dec(self.display.as_str());
        let r = cur.negated();
        proof {
            lemma_fmt_nonempty(r@);
            lemma_fmt_one_dot(r@);
            assert(wf_dec(r@));
        }
        self.display = to_text(r);
    }

    /// The `CE` keystroke: reset only the display.
    pub fn clear_entry(&mut self)
        requires
            old(self).wf(),
        ensures
            final(self)@ == step_clear_entry(old(self)@),
            final(self).wf(),
    {
        proof {
            reveal_strlit("0");
        }
        let display = "0".to_owned();
        assert(display@ =~= seq!['0']);
        self.display = display;
    }

    /// The `C` keystroke: reset every field to its initial value.
    pub fn clear_all(&mut self)
        requires
            old(self).wf(),
        ensures
            final(self)@ == init_v(),
            final(self).wf(),
    {
        proof {
            reveal_strlit("0");
        }
        let display = "0".to_owned();
        assert(display@ =~= seq!['0']);
        self.display = display;
        self.equation = String::new();
        self.last_val = Dec::zero();
        self.operator = None;
        self.waiting_for_next = false;
    }

    /// The backspace keystroke.
    pub fn backspace(&mut self)
        requires
            old(self).wf(),
        ensures
            final(self)@ == step_backspace(old(self)@),
            final(self).wf(),
    {
        proof {
            reveal_strlit("0");
            assert("0"@ =~= seq!['0']);
        }
        let len = self.display.as_str().unicode_len();
        if !self.waiting_for_next && len > 0 && !is_single_char(self.display.as_str(), '0') {
            let shorter = self.display.as_str().substring_char(0, len - 1).to_owned();
            proof {
                assert(shorter@ =~= old(self).display@.drop_last());
            }
            if shorter.as_str().unicode_len() == 0 || is_single_char(shorter.as_str(), '-') {
                let display = "0".to_owned();
                assert(display@ =~= seq!['0']);
                self.display = display;
            } else {
                self.display = shorter;
            }
        }
    }
}

} // verus!
