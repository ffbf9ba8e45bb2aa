//! A brute-force search engine for arithmetic representations of a target
//! number: it enumerates every structurally distinct way of combining a
//! fixed operand sequence with binary operators (including digit
//! concatenation), evaluates each candidate postfix expression exactly, and
//! reports the first expression equal to the target.
pub mod configs_lib;
pub mod rational;
pub mod schemes_lib;
pub mod generator;
pub mod rpn_evaluator;
