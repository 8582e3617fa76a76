//! The expression resolver: iterated whole-word substitution of symbol
//! definitions into the expression text, bounded in depth and in passes so
//! that cyclic definitions fail closed, followed by delegation of the fully
//! numeric text to the external evaluator.
//!
//! One pass walks the symbols — user variables first, then constants, so a
//! variable takes precedence over a constant of the same name — and replaces
//! every whole-word occurrence of a symbol by the numeric text its definition
//! reduces to: the normalized definition itself where that is a plain number,
//! else the evaluated result of recursively expanding the definition. Passes
//! repeat until no symbol occurs; a word-shaped token still standing then is
//! an unknown symbol.

use vstd::prelude::*;
use crate::text::{chars_of, string_of};
use crate::literal::{norm, is_plain_number, normalize_chars, plain_number_x};
use crate::rewrite::{occurs_word, subst_word, first_ident, occurs_x, subst_x, first_ident_x};
use crate::table::{pairs_view, SymbolTable};
use crate::evaluator::{eval_outcome, eval_text};

verus! {

/// The most definition levels a chain of symbols may reach through before
/// resolution fails closed with `CyclicOrUnbounded`.
pub const MAX_DEPTH: usize = 32;

/// The most substitution passes over one expression before resolution fails
/// closed with `CyclicOrUnbounded`.
pub const MAX_PASSES: usize = 64;

/// A diagnosed resolution failure.
#[derive(Debug, PartialEq, Eq)]
pub enum ResolveError {
    /// A word-shaped token remained after substitution converged, naming no
    /// symbol of either table.
    UnknownSymbol(String),
    /// The recursion or pass bound was exceeded while resolving the named
    /// symbol: it refers to itself, directly or through a cycle, or its
    /// definition chain is deeper than the bound.
    CyclicOrUnbounded(String),
    /// The definition text, after suffix normalization, neither is a plain
    /// number nor reduced to one.
    MalformedLiteral(String),
    /// The evaluator rejected the fully substituted expression; its message
    /// is carried verbatim.
    EvaluationFailed(String),
}

/// The mathematical content of a `ResolveError`.
pub enum ErrorModel {
    UnknownSymbol(Seq<char>),
    CyclicOrUnbounded(Seq<char>),
    MalformedLiteral(Seq<char>),
    EvaluationFailed(Seq<char>),
}

impl View for ResolveError {
    type V = ErrorModel;

    open spec fn view(&self) -> ErrorModel {
        match self {
            ResolveError::UnknownSymbol(s) => ErrorModel::UnknownSymbol(s@),
            ResolveError::CyclicOrUnbounded(s) => ErrorModel::CyclicOrUnbounded(s@),
            ResolveError::MalformedLiteral(s) => ErrorModel::MalformedLiteral(s@),
            ResolveError::EvaluationFailed(s) => ErrorModel::EvaluationFailed(s@),
        }
    }
}

/// The least entry index at or after `i` whose name occurs whole-word in the
/// text.
pub open spec fn first_occurring(
    e: Seq<char>,
    entries: Seq<(Seq<char>, Seq<char>)>,
    i: int,
) -> Option<int>
    decreases entries.len() - i when 0 <= i <= entries.len()
{
    if i < 0 || i >= entries.len() {
        None
    } else if occurs_word(e, entries[i].0) {
        Some(i)
    } else {
        first_occurring(e, entries, i + 1)
    }
}

/// The numeric text a symbol's definition reduces to: the normalized
/// definition where that is already a plain number; otherwise, within the
/// remaining depth, the evaluated result of fully expanding the definition,
/// accepted only if it is itself a plain number.
pub open spec fn spec_resolve_def(
    name: Seq<char>,
    defn: Seq<char>,
    entries: Seq<(Seq<char>, Seq<char>)>,
    depth: nat,
) -> Result<Seq<char>, ErrorModel>
    decreases depth, 0int, 0int, 0int,
{
    let nd = norm(defn);
    if is_plain_number(nd) {
        Result::Ok(nd)
    } else if depth == 0 {
        Result::Err(ErrorModel::CyclicOrUnbounded(name))
    } else {
        match spec_expand(nd, entries, (depth - 1) as nat) {
            Result::Ok(t) => match eval_outcome(t, Seq::empty()) {
                Result::Ok(v) => if is_plain_number(v) {
                    Result::Ok(v)
                } else {
                    Result::Err(ErrorModel::MalformedLiteral(defn))
                },
                Result::Err(m) => Result::Err(ErrorModel::MalformedLiteral(defn)),
            },
            Result::Err(err) => Result::Err(err),
        }
    }
}

/// Full expansion: the text normalized, then rewritten by passes until no
/// symbol occurs, within the given depth.
pub open spec fn spec_expand(
    e: Seq<char>,
    entries: Seq<(Seq<char>, Seq<char>)>,
    depth: nat,
) -> Result<Seq<char>, ErrorModel>
    decreases depth, MAX_PASSES as int + 1, 0int, 0int,
{
    spec_passes(norm(e), entries, depth, MAX_PASSES as nat)
}

/// The pass loop: while some symbol occurs, within the pass budget, run one
/// substitution pass and repeat. When none occurs, the text stands — unless
/// a word-shaped token remains, which is an unknown symbol.
pub open spec fn spec_passes(
    e: Seq<char>,
    entries: Seq<(Seq<char>, Seq<char>)>,
    depth: nat,
    passes: nat,
) -> Result<Seq<char>, ErrorModel>
    decreases depth, passes, 1int, 0int,
{
    match first_occurring(e, entries, 0) {
        Option::None => match first_ident(e) {
            Option::None => Result::Ok(e),
            Option::Some(t) => Result::Err(ErrorModel::UnknownSymbol(t)),
        },
        Option::Some(k) => {
            if passes == 0 {
                Result::Err(ErrorModel::CyclicOrUnbounded(entries[k].0))
            } else {
                match spec_pass(e, entries, 0, depth) {
                    Result::Ok(e2) => spec_passes(e2, entries, depth, (passes - 1) as nat),
                    Result::Err(err) => Result::Err(err),
                }
            }
        },
    }
}

/// One pass: each symbol from `i` on that occurs whole-word is resolved to
/// its numeric text and substituted everywhere it occurs.
pub open spec fn spec_pass(
    e: Seq<char>,
    entries: Seq<(Seq<char>, Seq<char>)>,
    i: int,
    depth: nat,
) -> Result<Seq<char>, ErrorModel>
    decreases depth, 0int, 0int, entries.len() - i,
{
    if i < 0 || i >= entries.len() {
        Result::Ok(e)
    } else if occurs_word(e, entries[i].0) {
        match spec_resolve_def(entries[i].0, entries[i].1, entries, depth) {
            Result::Ok(v) => spec_pass(subst_word(e, entries[i].0, v), entries, i + 1, depth),
            Result::Err(err) => Result::Err(err),
        }
    } else {
        spec_pass(e, entries, i + 1, depth)
    }
}

/// The bindings handed to the evaluator: each listed symbol, in order, whose
/// definition reduces to a number, paired with that numeric text; the others
/// are left out.
pub open spec fn spec_context(
    listed: Seq<(Seq<char>, Seq<char>)>,
    entries: Seq<(Seq<char>, Seq<char>)>,
    i: int,
) -> Seq<(Seq<char>, Seq<char>)>
    decreases listed.len() - i when 0 <= i <= listed.len()
{
    if i < 0 || i >= listed.len() {
        Seq::empty()
    } else {
        let rest = spec_context(listed, entries, i + 1);
        match spec_resolve_def(listed[i].0, listed[i].1, entries, MAX_DEPTH as nat) {
            Result::Ok(v) => seq![(listed[i].0, v)] + rest,
            Result::Err(_) => rest,
        }
    }
}

/// What `resolve` returns: the input fully expanded against the table — user
/// variables first, then constants — and handed to the evaluator with the
/// bindings of every resolvable symbol, a variable's binding overriding a
/// constant's of the same name.
pub open spec fn spec_resolve(
    e: Seq<char>,
    vars: Seq<(Seq<char>, Seq<char>)>,
    consts: Seq<(Seq<char>, Seq<char>)>,
) -> Result<Seq<char>, ErrorModel> {
    let entries = vars + consts;
    match spec_expand(e, entries, MAX_DEPTH as nat) {
        Result::Err(err) => Result::Err(err),
        Result::Ok(t) => match eval_outcome(t, spec_context(consts + vars, entries, 0)) {
            Result::Ok(v) => Result::Ok(v),
            Result::Err(m) => Result::Err(ErrorModel::EvaluationFailed(m)),
        },
    }
}

/// Executable search for the first symbol that occurs in the text.
fn first_occurring_x(e: &Vec<char>, entries: &Vec<(String, String)>) -> (r: Option<usize>)
    ensures
        match r {
            Option::Some(k) => first_occurring(e@, pairs_view(entries@), 0) == Option::Some(
                k as int,
            ) && k < entries.len(),
            Option::None => first_occurring(e@, pairs_view(entries@), 0) is None,
        },
{
    let ghost entv = pairs_view(entries@);
    let mut k: usize = 0;
    while k < entries.len()
        invariant
            0 <= k <= entries.len(),
            entv == pairs_view(entries@),
            first_occurring(e@, entv, 0) == first_occurring(e@, entv, k as int),
        decreases entries.len() - k,
    {
        let namev = chars_of(entries[k].0.as_str());
        proof {
            assert(entv[k as int] == (entries@[k as int].0@, entries@[k as int].1@));
        }
        if occurs_x(e, &namev) {
            return Some(k);
        }
        k += 1;
    }
    None
}

/// The numeric text a symbol's definition reduces to: the executable form of
/// `spec_resolve_def`.
fn resolve_def_x(
    name: &String,
    defn: &String,
    entries: &Vec<(String, String)>,
    depth: usize,
) -> (r: Result<Vec<char>, ResolveError>)
    ensures
        match r {
            Result::Ok(v) => spec_resolve_def(name@, defn@, pairs_view(entries@), depth as nat)
                == Result::Ok::<Seq<char>, ErrorModel>(v@),
            Result::Err(e) => spec_resolve_def(name@, defn@, pairs_view(entries@), depth as nat)
                == Result::Err::<Seq<char>, ErrorModel>(e@),
        },
    decreases depth, 0int, 0int, 0int,
{
    let nd = normalize_chars(chars_of(defn.as_str()));
    if plain_number_x(&nd) {
        return Result::Ok(nd);
    }
    if depth == 0 {
        return Result::Err(ResolveError::CyclicOrUnbounded(name.clone()));
    }
    match expand_x(nd, entries, depth - 1) {
        Result::Ok(t) => {
            let ts = string_of(&t);
            let no_bindings: Vec<(String, String)> = Vec::new();
            proof {
                assert(pairs_view(no_bindings@) =~= Seq::<(Seq<char>, Seq<char>)>::empty());
            }
            match eval_text(ts.as_str(), &no_bindings) {
                Result::Ok(v) => {
                    let vc = chars_of(v.as_str());
                    if plain_number_x(&vc) {
                        Result::Ok(vc)
                    } else {
                        Result::Err(ResolveError::MalformedLiteral(defn.clone()))
                    }
                },
                Result::Err(_m) => Result::Err(ResolveError::MalformedLiteral(defn.clone())),
            }
        },
        Result::Err(err) => Result::Err(err),
    }
}

/// Full expansion of the text against the listed symbols: the executable
/// form of `spec_expand`.
#[verifier::loop_isolation(false)]
fn expand_x(e: Vec<char>, entries: &Vec<(String, String)>, depth: usize) -> (r: Result<
    Vec<char>,
    ResolveError,
>)
    ensures
        match r {
            Result::Ok(v) => spec_expand(e@, pairs_view(entries@), depth as nat) == Result::Ok::<
                Seq<char>,
                ErrorModel,
            >(v@),
            Result::Err(err) => spec_expand(e@, pairs_view(entries@), depth as nat)
                == Result::Err::<Seq<char>, ErrorModel>(err@),
        },
    decreases depth, MAX_PASSES as int + 1, 0int, 0int,
{
    let ghost e0 = e@;
    let ghost entv = pairs_view(entries@);
    let mut cur = normalize_chars(e);
    let mut passes_left: usize = MAX_PASSES;
    proof {
        assert(spec_expand(e0, entv, depth as nat) == spec_passes(
            norm(e0),
            entv,
            depth as nat,
            MAX_PASSES as nat,
        ));
    }
    loop
        invariant
            entv == pairs_view(entries@),
            passes_left <= MAX_PASSES,
            spec_passes(cur@, entv, depth as nat, passes_left as nat) == spec_expand(
                e0,
                entv,
                depth as nat,
            ),
        decreases passes_left,
    {
        let ghost pass_start = cur@;
        match first_occurring_x(&cur, entries) {
            Option::None => {
                match first_ident_x(&cur) {
                    Option::None => {
                        proof {
                            assert(spec_passes(cur@, entv, depth as nat, passes_left as nat)
                                == Result::Ok::<Seq<char>, ErrorModel>(cur@));
                        }
                        return Result::Ok(cur);
                    },
                    Option::Some(t) => {
                        let ghost tok = first_ident(cur@)->0;
                        proof {
                            assert(spec_passes(cur@, entv, depth as nat, passes_left as nat)
                                == Result::Err::<Seq<char>, ErrorModel>(ErrorModel::UnknownSymbol(
                                tok,
                            )));
                        }
                        return Result::Err(ResolveError::UnknownSymbol(string_of(&t)));
                    },
                }
            },
            Option::Some(k) => {
                if passes_left == 0 {
                    let culprit = entries[k].0.clone();
                    proof {
                        assert(entv[k as int].0 == entries@[k as int].0@);
                        assert(spec_passes(cur@, entv, depth as nat, passes_left as nat)
                            == Result::Err::<Seq<char>, ErrorModel>(ErrorModel::CyclicOrUnbounded(
                            entv[k as int].0,
                        )));
                    }
                    return Result::Err(ResolveError::CyclicOrUnbounded(culprit));
                }
                let mut i: usize = 0;
                while i < entries.len()
                    invariant
                        0 <= i <= entries.len(),
                        entv == pairs_view(entries@),
                        spec_pass(pass_start, entv, 0, depth as nat) == spec_pass(
                            cur@,
                            entv,
                            i as int,
                            depth as nat,
                        ),
                    decreases entries.len() - i,
                {
                    let namev = chars_of(entries[i].0.as_str());
                    proof {
                        assert(entv[i as int] == (entries@[i as int].0@, entries@[i as int].1@));
                    }
                    if occurs_x(&cur, &namev) {
                        match resolve_def_x(&entries[i].0, &entries[i].1, entries, depth) {
                            Result::Ok(v) => {
                                cur = subst_x(&cur, &namev, &v);
                            },
                            Result::Err(err) => {
                                proof {
                                    assert(spec_pass(cur@, entv, i as int, depth as nat)
                                        == Result::Err::<Seq<char>, ErrorModel>(err@));
                                    assert(spec_passes(
                                        pass_start,
                                        entv,
                                        depth as nat,
                                        passes_left as nat,
                                    ) == Result::Err::<Seq<char>, ErrorModel>(err@));
                                }
                                return Result::Err(err);
                            },
                        }
                    }
                    i += 1;
                }
                proof {
                    assert(spec_pass(cur@, entv, entries@.len() as int, depth as nat)
                        == Result::Ok::<Seq<char>, ErrorModel>(cur@));
                    assert(spec_passes(pass_start, entv, depth as nat, passes_left as nat)
                        == spec_passes(cur@, entv, depth as nat, (passes_left - 1) as nat));
                }
                passes_left -= 1;
            },
        }
    }
}

/// Appends a copy of each pair of `src` to `dst`.
fn append_pairs(dst: &mut Vec<(String, String)>, src: &Vec<(String, String)>)
    ensures
        pairs_view(final(dst)@) == pairs_view(old(dst)@) + pairs_view(src@),
{
    let mut i: usize = 0;
    proof {
        assert(pairs_view(dst@) =~= pairs_view(dst@) + pairs_view(src@.take(0)));
    }
    while i < src.len()
        invariant
            0 <= i <= src.len(),
            pairs_view(dst@) == pairs_view(old(dst)@) + pairs_view(src@.take(i as int)),
        decreases src.len() - i,
    {
        out_push_step(dst, src, i);
        i += 1;
    }
    proof {
        assert(src@.take(src@.len() as int) =~= src@);
    }
}

/// One appended pair, with the view bookkeeping.
fn out_push_step(dst: &mut Vec<(String, String)>, src: &Vec<(String, String)>, i: usize)
    requires
        i < src.len(),
    ensures
        final(dst)@ == old(dst)@.push((src@[i as int].0, src@[i as int].1)),
        pairs_view(final(dst)@) == pairs_view(old(dst)@).push(
            (src@[i as int].0@, src@[i as int].1@),
        ),
{
    let pair = (src[i].0.clone(), src[i].1.clone());
    dst.push(pair);
    proof {
        assert(dst@ =~= old(dst)@.push((src@[i as int].0, src@[i as int].1)));
        assert(pairs_view(dst@) =~= pairs_view(old(dst)@).push(
            (src@[i as int].0@, src@[i as int].1@),
        ));
    }
}

/// The evaluator bindings for the listed symbols: the executable form of
/// `spec_context`.
fn build_context_x(listed: &Vec<(String, String)>, entries: &Vec<(String, String)>) -> (b: Vec<
    (String, String),
>)
    ensures
        pairs_view(b@) == spec_context(pairs_view(listed@), pairs_view(entries@), 0),
{
    let ghost listv = pairs_view(listed@);
    let ghost entv = pairs_view(entries@);
    let mut b: Vec<(String, String)> = Vec::new();
    let mut i: usize = 0;
    proof {
        assert(pairs_view(b@) =~= Seq::<(Seq<char>, Seq<char>)>::empty());
    }
    while i < listed.len()
        invariant
            0 <= i <= listed.len(),
            listv == pairs_view(listed@),
            entv == pairs_view(entries@),
            pairs_view(b@) + spec_context(listv, entv, i as int) == spec_context(listv, entv, 0),
        decreases listed.len() - i,
    {
        let ghost before = pairs_view(b@);
        proof {
            assert(listv[i as int] == (listed@[i as int].0@, listed@[i as int].1@));
        }
        match resolve_def_x(&listed[i].0, &listed[i].1, entries, MAX_DEPTH) {
            Result::Ok(v) => {
                let binding = (listed[i].0.clone(), string_of(&v));
                b.push(binding);
                proof {
                    assert(pairs_view(b@) =~= before.push((listv[i as int].0, v@)));
                    assert(before.push((listv[i as int].0, v@)) + spec_context(
                        listv,
                        entv,
                        i + 1,
                    ) =~= before + (seq![(listv[i as int].0, v@)] + spec_context(
                        listv,
                        entv,
                        i + 1,
                    )));
                }
            },
            Result::Err(_e) => {},
        }
        i += 1;
    }
    proof {
        assert(spec_context(listv, entv, listed@.len() as int) =~= Seq::<
            (Seq<char>, Seq<char>),
        >::empty());
        assert(pairs_view(b@) + Seq::<(Seq<char>, Seq<char>)>::empty() =~= pairs_view(b@));
    }
    b
}

impl SymbolTable {
    /// Expands the expression against this table: every whole-word symbol
    /// reference replaced by a closed numeric literal, or the classified
    /// failure. Suffix markers are stripped first.
    pub fn expand_text(&self, expr: &str) -> (r: Result<String, ResolveError>)
        ensures
            match r {
                Result::Ok(v) => spec_expand(expr@, self.vars() + self.consts(), MAX_DEPTH as nat)
                    == Result::Ok::<Seq<char>, ErrorModel>(v@),
                Result::Err(e) => spec_expand(expr@, self.vars() + self.consts(), MAX_DEPTH as nat)
                    == Result::Err::<Seq<char>, ErrorModel>(e@),
            },
    {
        let entries = self.joined_entries();
        match expand_x(chars_of(expr), &entries, MAX_DEPTH) {
            Result::Ok(t) => Result::Ok(string_of(&t)),
            Result::Err(e) => Result::Err(e),
        }
    }

    /// Resolves the expression to the evaluator's result text: normalization,
    /// full symbol expansion, then delegation to the external evaluator with
    /// the bindings of every resolvable symbol of this table. Returns the
    /// evaluator's displayed value verbatim, or the classified failure.
    pub fn resolve(&self, expr: &str) -> (r: Result<String, ResolveError>)
        ensures
            match r {
                Result::Ok(v) => spec_resolve(expr@, self.vars(), self.consts()) == Result::Ok::<
                    Seq<char>,
                    ErrorModel,
                >(v@),
                Result::Err(e) => spec_resolve(expr@, self.vars(), self.consts()) == Result::Err::<
                    Seq<char>,
                    ErrorModel,
                >(e@),
            },
    {
        let entries = self.joined_entries();
        match expand_x(chars_of(expr), &entries, MAX_DEPTH) {
            Result::Err(err) => Result::Err(err),
            Result::Ok(t) => {
                let mut listed: Vec<(String, String)> = Vec::new();
                proof {
                    assert(pairs_view(listed@) =~= Seq::<(Seq<char>, Seq<char>)>::empty());
                }
                append_pairs(&mut listed, &self.constants);
                append_pairs(&mut listed, &self.variables);
                proof {
                    assert(Seq::<(Seq<char>, Seq<char>)>::empty() + self.consts()
                        =~= self.consts());
                }
                let bindings = build_context_x(&listed, &entries);
                let ts = string_of(&t);
                match eval_text(ts.as_str(), &bindings) {
                    Result::Ok(v) => Result::Ok(v),
                    Result::Err(m) => Result::Err(ResolveError::EvaluationFailed(m)),
                }
            },
        }
    }

    /// The symbols in substitution order: user variables, then constants.
    fn joined_entries(&self) -> (r: Vec<(String, String)>)
        ensures
            pairs_view(r@) == self.vars() + self.consts(),
    {
        let mut entries: Vec<(String, String)> = Vec::new();
        proof {
            assert(pairs_view(entries@) =~= Seq::<(Seq<char>, Seq<char>)>::empty());
        }
        append_pairs(&mut entries, &self.variables);
        append_pairs(&mut entries, &self.constants);
        proof {
            assert(Seq::<(Seq<char>, Seq<char>)>::empty() + self.vars() =~= self.vars());
        }
        entries
    }
}

} // verus!
