//! A dice-roll expression engine.
//!
//! A command such as `2d20b + 1d8 ^ 2 / 3` is split into tokens, read into a postfix
//! program by the shunting-yard rules, and run against fresh dice rolls. Every step is
//! stated and proved: the tokens, the dice notation, the program, the operand stack, the
//! faces rolled and the totals kept.

pub mod commands;
pub mod dice;
pub mod display;
pub mod eval;
pub mod expr;
pub mod laws;
pub mod text;
pub mod util;
