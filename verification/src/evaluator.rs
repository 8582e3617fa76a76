//! The boundary to the external arithmetic evaluator. The engine reduces an
//! expression to numeric text and delegates the final computation; what the
//! evaluator returns is given a name here and every contract above speaks of
//! that name.

use vstd::prelude::*;
use crate::table::pairs_view;

verus! {

/// What the external evaluator returns for the given expression text and
/// numeric bindings: the displayed value text, or the displayed error text.
/// The outcome is a function of the argument texts alone.
pub uninterp spec fn eval_outcome(expr: Seq<char>, bindings: Seq<(Seq<char>, Seq<char>)>) -> Result<
    Seq<char>,
    Seq<char>,
>;

/// Relies on `evalexpr::eval_with_context` over an `evalexpr::HashMapContext`
/// holding one float binding per pair (pairs whose value text is not a float
/// are left out, and a later pair overwrites an earlier one of the same
/// name): the evaluation is a deterministic function of the expression text
/// and the binding texts, and the value or error is returned as its display
/// text.
#[verifier::external_body]
pub(crate) fn eval_text(expr: &str, bindings: &Vec<(String, String)>) -> (r: Result<
    String,
    String,
>)
    ensures
        match r {
            Result::Ok(v) => eval_outcome(expr@, pairs_view(bindings@)) == Result::Ok::<
                Seq<char>,
                Seq<char>,
            >(v@),
            Result::Err(m) => eval_outcome(expr@, pairs_view(bindings@)) == Result::Err::<
                Seq<char>,
                Seq<char>,
            >(m@),
        },
{
    let mut ctx = evalexpr::HashMapContext::new();
    for (name, value) in bindings.iter() {
        if let Ok(number) = value.parse() {
            let _ = evalexpr::ContextWithMutableVariables::set_value(
                &mut ctx,
                name.clone(),
                evalexpr::Value::Float(number),
            );
        }
    }
    match evalexpr::eval_with_context(expr, &ctx) {
        Ok(value) => Ok(format!("{}", value)),
        Err(err) => Err(format!("{}", err)),
    }
}

} // verus!
