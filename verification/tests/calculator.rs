//! Scenario tests for the calculator accumulator: one test per key sequence.

use dentaku::calc::CalcApp;
use dentaku::calc::Op;
use dentaku::decimal::Dec;

#[test]
fn digit_entries_concatenate() {
    let mut app = CalcApp::new();
    app.add_digit("1");
    app.add_digit("2");
    app.add_digit("3");
    assert_eq!(app.display, "123");
}

#[test]
fn leading_zeros_collapse() {
    let mut app = CalcApp::new();
    app.add_digit("0");
    app.add_digit("0");
    app.add_digit("7");
    assert_eq!(app.display, "7");
}

#[test]
fn zero_over_zero_stays_zero() {
    let mut app = CalcApp::new();
    app.add_digit("0");
    assert_eq!(app.display, "0");
}

#[test]
fn digit_after_operator_replaces() {
    let mut app = CalcApp::new();
    app.add_digit("5");
    app.set_operator(Op::Add);
    app.add_digit("3");
    assert_eq!(app.display, "3");
}

#[test]
fn chained_operators_fold_left_to_right() {
    let mut app = CalcApp::new();
    app.add_digit("5");
    app.set_operator(Op::Add);
    app.add_digit("3");
    app.set_operator(Op::Add);
    app.add_digit("2");
    app.calculate();
    assert_eq!(app.display, "10");
}

#[test]
fn division_by_zero_shows_zero() {
    let mut app = CalcApp::new();
    app.add_digit("8");
    app.set_operator(Op::Div);
    app.add_digit("0");
    app.calculate();
    assert_eq!(app.display, "0");
}

#[test]
fn backspace_on_zero_is_noop() {
    let mut app = CalcApp::new();
    app.backspace();
    assert_eq!(app.display, "0");
}

#[test]
fn backspace_after_operator_is_noop() {
    let mut app = CalcApp::new();
    app.add_digit("5");
    app.set_operator(Op::Add);
    app.backspace();
    assert_eq!(app.display, "5");
    app.add_digit("3");
    assert_eq!(app.display, "3");
}

#[test]
fn backspace_drops_last_character() {
    let mut app = CalcApp::new();
    app.add_digit("1");
    app.add_digit("2");
    app.backspace();
    assert_eq!(app.display, "1");
    app.backspace();
    assert_eq!(app.display, "0");
}

#[test]
fn backspace_resets_bare_minus_sign() {
    let mut app = CalcApp::new();
    app.add_digit("5");
    app.toggle_sign();
    assert_eq!(app.display, "-5");
    app.backspace();
    assert_eq!(app.display, "0");
}

#[test]
fn clear_all_resets_every_field() {
    let mut app = CalcApp::new();
    app.add_digit("5");
    app.set_operator(Op::Add);
    app.add_digit("3");
    app.clear_all();
    assert_eq!(app.display, "0");
    assert_eq!(app.equation, "");
    assert_eq!(app.last_val, Dec { neg: false, mant: 0, scale: 0 });
    assert!(app.operator.is_none());
    assert!(!app.waiting_for_next);
}

#[test]
fn clear_entry_keeps_pending_operator() {
    let mut app = CalcApp::new();
    app.add_digit("8");
    app.set_operator(Op::Add);
    app.add_digit("5");
    app.clear_entry();
    assert_eq!(app.display, "0");
    app.calculate();
    assert_eq!(app.display, "8");
}

#[test]
fn percent_halves_fifty() {
    let mut app = CalcApp::new();
    app.add_digit("5");
    app.add_digit("0");
    app.percent();
    assert_eq!(app.display, "0.5");
}

#[test]
fn percent_then_times_hundred_restores() {
    let mut app = CalcApp::new();
    app.add_digit("1");
    app.add_digit("2");
    app.enter_decimal_point();
    app.add_digit("5");
    app.percent();
    assert_eq!(app.display, "0.125");
    app.set_operator(Op::Mul);
    app.add_digit("1");
    app.add_digit("0");
    app.add_digit("0");
    app.calculate();
    assert_eq!(app.display, "12.5");
}

#[test]
fn toggle_sign_twice_restores() {
    let mut app = CalcApp::new();
    app.add_digit("5");
    app.toggle_sign();
    assert_eq!(app.display, "-5");
    app.toggle_sign();
    assert_eq!(app.display, "5");
}

#[test]
fn toggle_sign_on_zero_stays_zero() {
    let mut app = CalcApp::new();
    app.toggle_sign();
    assert_eq!(app.display, "0");
}

#[test]
fn decimal_point_appends_once() {
    let mut app = CalcApp::new();
    app.add_digit("1");
    app.enter_decimal_point();
    app.add_digit("5");
    assert_eq!(app.display, "1.5");
    app.enter_decimal_point();
    assert_eq!(app.display, "1.5");
    app.add_digit("9");
    assert_eq!(app.display, "1.59");
}

#[test]
fn decimal_point_after_operator_starts_fresh() {
    let mut app = CalcApp::new();
    app.add_digit("1");
    app.set_operator(Op::Add);
    app.enter_decimal_point();
    assert_eq!(app.display, "0.");
    app.add_digit("5");
    app.calculate();
    assert_eq!(app.display, "1.5");
}

#[test]
fn addition_of_tenths_is_exact() {
    let mut app = CalcApp::new();
    app.add_digit("0");
    app.enter_decimal_point();
    app.add_digit("1");
    app.set_operator(Op::Add);
    app.add_digit("0");
    app.enter_decimal_point();
    app.add_digit("2");
    app.calculate();
    assert_eq!(app.display, "0.3");
}

#[test]
fn subtraction_can_go_negative() {
    let mut app = CalcApp::new();
    app.add_digit("5");
    app.set_operator(Op::Sub);
    app.add_digit("7");
    app.calculate();
    assert_eq!(app.display, "-2");
}

#[test]
fn multiplication_drops_trailing_zero() {
    let mut app = CalcApp::new();
    app.add_digit("1");
    app.enter_decimal_point();
    app.add_digit("5");
    app.set_operator(Op::Mul);
    app.add_digit("2");
    app.calculate();
    assert_eq!(app.display, "3");
}

#[test]
fn division_with_terminating_fraction() {
    let mut app = CalcApp::new();
    app.add_digit("1");
    app.set_operator(Op::Div);
    app.add_digit("8");
    app.calculate();
    assert_eq!(app.display, "0.125");
}

#[test]
fn division_with_repeating_fraction_truncates() {
    let mut app = CalcApp::new();
    app.add_digit("8");
    app.set_operator(Op::Div);
    app.add_digit("3");
    app.calculate();
    assert_eq!(app.display, "2.666666666666666666");
}

#[test]
fn equation_traces_the_operation() {
    let mut app = CalcApp::new();
    app.add_digit("5");
    app.set_operator(Op::Add);
    assert_eq!(app.equation, "5 +");
    app.add_digit("3");
    app.calculate();
    assert_eq!(app.equation, "5 + 3 =");
    assert_eq!(app.display, "8");
}
