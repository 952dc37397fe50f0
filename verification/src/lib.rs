//! A desktop calculator's state machine: two operand buffers, a pending
//! operator and a result, driven by key presses. The arithmetic is decimal
//! and done on integers: sums, differences and products are exact, quotients
//! are cut off after a fixed number of fractional digits.

pub mod calculator;
pub mod decimal;
pub mod operator;
