//! A pocket-calculator accumulator: a display string, a pending operator and a
//! last-operand register, driven by discrete key events (digits, operators,
//! equals, clear, backspace, decimal point, sign flip, percent).
//!
//! Numbers are exact decimals: a sign, an integer mantissa and a power-of-ten
//! scale. The mantissa is kept below 10^19 and the scale at most 19 decimal
//! places; any value that leaves that range, and any text that does not parse
//! as a plain decimal numeral, falls back to zero rather than raising an
//! error. Division by zero yields zero by the same convention.

pub mod calc;
pub mod decimal;
pub mod laws;
pub mod text;
