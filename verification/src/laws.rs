//! Laws of the resolver, stated over the specification model and proved once
//! for every table and expression. The idempotence of suffix normalization
//! stands beside `norm` itself, and the identity of substitution on texts
//! without a whole-word occurrence beside `subst_word`.

use vstd::prelude::*;
use crate::text::is_ident;
use crate::literal::norm;
use crate::rewrite::{occurs_word, first_ident, lemma_ident_occurrence_implies_token};
use crate::table::entries_wf;
use crate::resolver::{
    ErrorModel,
    MAX_DEPTH,
    MAX_PASSES,
    first_occurring,
    spec_expand,
    spec_passes,
    spec_resolve,
    spec_context,
};
use crate::evaluator::eval_outcome;

verus! {

/// Where every listed name is an identifier and the text holds no
/// identifier-shaped token, no symbol occurs in it.
proof fn lemma_no_token_no_symbol(e: Seq<char>, entries: Seq<(Seq<char>, Seq<char>)>, j: int)
    requires
        0 <= j <= entries.len(),
        first_ident(e) is None,
        forall|k: int| 0 <= k < entries.len() ==> is_ident((#[trigger] entries[k]).0),
    ensures
        first_occurring(e, entries, j) is None,
    decreases entries.len() - j,
{
    if j >= entries.len() {
    } else {
        if occurs_word(e, entries[j].0) {
            lemma_ident_occurrence_implies_token(e, entries[j].0);
            assert(false);
        }
        lemma_no_token_no_symbol(e, entries, j + 1);
    }
}

/// Where no listed name occurs in the text, no symbol occurs in it.
proof fn lemma_absent_all_no_occurring(e: Seq<char>, entries: Seq<(Seq<char>, Seq<char>)>, j: int)
    requires
        0 <= j <= entries.len(),
        forall|k: int| 0 <= k < entries.len() ==> !occurs_word(e, (#[trigger] entries[k]).0),
    ensures
        first_occurring(e, entries, j) is None,
    decreases entries.len() - j,
{
    if j >= entries.len() {
    } else {
        lemma_absent_all_no_occurring(e, entries, j + 1);
    }
}

/// Resolving an expression that holds no identifier-shaped token and no
/// suffixed literal is a pass-through: the unchanged text goes straight to
/// the external evaluator with the table's bindings, and its verdict is
/// returned as the result, an evaluator rejection becoming
/// `EvaluationFailed`.
pub proof fn lemma_resolve_pass_through(
    e: Seq<char>,
    vars: Seq<(Seq<char>, Seq<char>)>,
    consts: Seq<(Seq<char>, Seq<char>)>,
)
    requires
        norm(e) == e,
        first_ident(e) is None,
        entries_wf(vars),
        entries_wf(consts),
    ensures
        spec_resolve(e, vars, consts) == (match eval_outcome(
            e,
            spec_context(consts + vars, vars + consts, 0),
        ) {
            Result::Ok(v) => Result::Ok::<Seq<char>, ErrorModel>(v),
            Result::Err(m) => Result::Err::<Seq<char>, ErrorModel>(
                ErrorModel::EvaluationFailed(m),
            ),
        }),
{
    let entries = vars + consts;
    assert forall|k: int| 0 <= k < entries.len() implies is_ident((#[trigger] entries[k]).0) by {
        if k < vars.len() {
            assert(entries[k] == vars[k]);
        } else {
            assert(entries[k] == consts[k - vars.len()]);
        }
    }
    lemma_no_token_no_symbol(e, entries, 0);
    assert(spec_passes(e, entries, MAX_DEPTH as nat, MAX_PASSES as nat) == Result::Ok::<
        Seq<char>,
        ErrorModel,
    >(e));
    assert(spec_expand(e, entries, MAX_DEPTH as nat) == Result::Ok::<Seq<char>, ErrorModel>(e));
}

/// An expression bearing an identifier-shaped token, none of whose tokens
/// matches a symbol of either table, resolves to `UnknownSymbol` with its
/// first such token — never to a corrupted substitution.
pub proof fn lemma_unknown_symbol_reported(
    e: Seq<char>,
    vars: Seq<(Seq<char>, Seq<char>)>,
    consts: Seq<(Seq<char>, Seq<char>)>,
    t: Seq<char>,
)
    requires
        norm(e) == e,
        first_ident(e) == Option::Some(t),
        forall|k: int|
            0 <= k < (vars + consts).len() ==> !occurs_word(e, (#[trigger] (vars + consts)[k]).0),
    ensures
        spec_resolve(e, vars, consts) == Result::Err::<Seq<char>, ErrorModel>(
            ErrorModel::UnknownSymbol(t),
        ),
{
    let entries = vars + consts;
    lemma_absent_all_no_occurring(e, entries, 0);
    assert(spec_passes(e, entries, MAX_DEPTH as nat, MAX_PASSES as nat) == Result::Err::<
        Seq<char>,
        ErrorModel,
    >(ErrorModel::UnknownSymbol(t)));
    assert(spec_expand(e, entries, MAX_DEPTH as nat) == Result::Err::<Seq<char>, ErrorModel>(
        ErrorModel::UnknownSymbol(t),
    ));
}

} // verus!
