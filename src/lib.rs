//! Arithmetic expression calculator: infix text is converted to postfix
//! order with an operator stack, and the postfix sequence is evaluated
//! with a value stack.
pub mod error;
pub mod operator;
pub mod cell;
pub mod postfix;
pub mod evaluation;
pub mod precedence;

