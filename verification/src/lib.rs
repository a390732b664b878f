//! Expression engine for a graphing calculator.
//!
//! The engine turns a text expression such as `x*x + 1` into tokens,
//! rewrites the token sequence from infix to postfix order with the
//! shunting-yard algorithm, substitutes a concrete value for the
//! variable `x`, and evaluates the postfix sequence on a stack machine.
//! Every stage is pure; failures surface as typed [`parser::EvalError`]
//! values rather than panics.
//!
//! Integer arithmetic is two's-complement wrapping throughout, over
//! signed 64-bit values.

use vstd::prelude::*;

pub mod laws;
pub mod parser;

verus! {

use crate::parser::EvalError;
use crate::parser::evaluate_at_spec;
use crate::parser::evaluate_with_var;

/// Application model: the expression text currently typed by the user.
///
/// The surrounding GUI owns the widgets; this struct holds the one piece
/// of state the engine cares about and offers sampling of the curve.
pub struct MyApp {
    /// The expression to plot, e.g. `x*x - 3`.
    pub line_text: String,
}

impl Default for MyApp {
    /// A fresh application starts with an empty expression.
    fn default() -> (r: MyApp)
        ensures
            r.line_text@ == Seq::<char>::empty(),
    {
        MyApp { line_text: String::new() }
    }
}

impl MyApp {
    /// Evaluate the current expression at the sample point `x`.
    pub fn sample(&self, x: i64) -> (r: Result<i64, EvalError>)
        ensures
            (match r {
                Ok(v) => evaluate_at_spec(self.line_text@, x) == Ok::<i64, crate::parser::ErrV>(v),
                Err(e) => evaluate_at_spec(self.line_text@, x) == Err::<i64, crate::parser::ErrV>(e@),
            }),
    {
        evaluate_with_var(self.line_text.as_str(), x)
    }
}

} // verus!
