//! Arithmetic expressions written as text, read in one pass into postfix order
//! and reduced on an operand stack.
//!
//! The crate decides everything that does not depend on the number format:
//! which characters form numerals and operators, how operators group, which
//! expressions are rejected and why. The result of an evaluation is a
//! [`Value`]: the arithmetic that remains to be carried out on the numerals,
//! in the order in which the operand stack combined them.

pub mod evaluator;
pub mod operator;
pub mod scanner;
pub mod syntax;
pub mod token;
pub mod value;

pub use evaluator::{eval, evaluate};
pub use operator::{Operator, Reduction, PREFIX_PRECEDENCE};
pub use scanner::{to_postfix, Scanner};
pub use syntax::Written;
pub use token::{EvalError, Numeral, Token};
pub use value::Value;
