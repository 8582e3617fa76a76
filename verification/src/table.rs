//! The layered symbol table: an ordered list of named constants, replaced
//! wholesale on reload, and an ordered list of user variables, changed one at
//! a time. Names are identifiers and are unique within each list; a user
//! variable takes precedence over a constant of the same name.

use vstd::prelude::*;
use crate::text::{is_ident, ident_chars, chars_of};

verus! {

/// The mathematical content of an entry list: each pair as character sequences.
pub open spec fn pairs_view(es: Seq<(String, String)>) -> Seq<(Seq<char>, Seq<char>)> {
    es.map_values(|p: (String, String)| (p.0@, p.1@))
}

/// Entry lists are well formed when every name is an identifier and no name
/// repeats.
pub open spec fn entries_wf(es: Seq<(Seq<char>, Seq<char>)>) -> bool {
    &&& forall|i: int| 0 <= i < es.len() ==> is_ident(#[trigger] es[i].0)
    &&& forall|i: int, j: int| 0 <= i < j < es.len() ==> (#[trigger] es[i]).0 != (#[trigger] es[j]).0
}

/// The definition bound to `name`, taken from the first entry bearing it.
pub open spec fn lookup_in(es: Seq<(Seq<char>, Seq<char>)>, name: Seq<char>) -> Option<Seq<char>>
    decreases es.len(),
{
    if es.len() == 0 {
        None
    } else if es[0].0 == name {
        Some(es[0].1)
    } else {
        lookup_in(es.drop_first(), name)
    }
}

/// The entry list without any entry named `name`.
pub open spec fn remove_entry(es: Seq<(Seq<char>, Seq<char>)>, name: Seq<char>) -> Seq<
    (Seq<char>, Seq<char>),
>
    decreases es.len(),
{
    if es.len() == 0 {
        Seq::empty()
    } else if es[0].0 == name {
        remove_entry(es.drop_first(), name)
    } else {
        seq![es[0]] + remove_entry(es.drop_first(), name)
    }
}

/// The entry list with `name` now bound to `defn`: any previous binding is
/// dropped and the fresh one stands at the end.
pub open spec fn upsert_entries(
    es: Seq<(Seq<char>, Seq<char>)>,
    name: Seq<char>,
    defn: Seq<char>,
) -> Seq<(Seq<char>, Seq<char>)> {
    remove_entry(es, name).push((name, defn))
}

/// The entry list after binding each given pair in turn; pairs whose name is
/// not an identifier are ignored.
pub open spec fn insert_all(
    acc: Seq<(Seq<char>, Seq<char>)>,
    items: Seq<(Seq<char>, Seq<char>)>,
) -> Seq<(Seq<char>, Seq<char>)>
    decreases items.len(),
{
    if items.len() == 0 {
        acc
    } else {
        insert_all(
            if is_ident(items[0].0) {
                upsert_entries(acc, items[0].0, items[0].1)
            } else {
                acc
            },
            items.drop_first(),
        )
    }
}

/// No entry of `remove_entry(es, name)` bears `name`, and every entry of it
/// stands somewhere in `es`.
proof fn lemma_remove_entry_props(es: Seq<(Seq<char>, Seq<char>)>, name: Seq<char>)
    ensures
        forall|k: int|
            0 <= k < remove_entry(es, name).len() ==> (#[trigger] remove_entry(es, name)[k]).0
                != name,
        forall|k: int|
            0 <= k < remove_entry(es, name).len() ==> es.contains(
                #[trigger] remove_entry(es, name)[k],
            ),
    decreases es.len(),
{
    if es.len() == 0 {
    } else {
        lemma_remove_entry_props(es.drop_first(), name);
        let rest = remove_entry(es.drop_first(), name);
        assert forall|k: int| 0 <= k < rest.len() implies es.contains(#[trigger] rest[k]) by {
            let i0 = choose|i: int| 0 <= i < es.drop_first().len() && es.drop_first()[i] == rest[k];
            assert(es[i0 + 1] == rest[k]);
        }
        if es[0].0 == name {
        } else {
            let whole = seq![es[0]] + rest;
            assert forall|k: int| 0 <= k < whole.len() implies es.contains(
                #[trigger] whole[k],
            ) by {
                if k == 0 {
                    assert(es[0] == whole[0]);
                } else {
                    assert(whole[k] == rest[k - 1]);
                }
            }
        }
    }
}

/// Removal keeps an entry list well formed.
proof fn lemma_remove_entry_wf(es: Seq<(Seq<char>, Seq<char>)>, name: Seq<char>)
    requires
        entries_wf(es),
    ensures
        entries_wf(remove_entry(es, name)),
    decreases es.len(),
{
    if es.len() == 0 {
    } else {
        assert(entries_wf(es.drop_first())) by {
            assert(forall|i: int|
                0 <= i < es.drop_first().len() ==> #[trigger] es.drop_first()[i] == es[i + 1]);
        }
        lemma_remove_entry_wf(es.drop_first(), name);
        let rest = remove_entry(es.drop_first(), name);
        if es[0].0 == name {
        } else {
            lemma_remove_entry_props(es.drop_first(), name);
            let whole = seq![es[0]] + rest;
            assert forall|i: int, j: int| 0 <= i < j < whole.len() implies (#[trigger] whole[i]).0
                != (#[trigger] whole[j]).0 by {
                if i == 0 {
                    assert(es.drop_first().contains(rest[j - 1]));
                    let j0 = choose|m: int|
                        0 <= m < es.drop_first().len() && es.drop_first()[m] == rest[j - 1];
                    assert(es.drop_first()[j0] == es[j0 + 1]);
                    assert(es[0].0 != es[j0 + 1].0);
                } else {
                    assert(whole[i] == rest[i - 1] && whole[j] == rest[j - 1]);
                }
            }
            assert forall|i: int| 0 <= i < whole.len() implies is_ident(
                #[trigger] whole[i].0,
            ) by {
                if i > 0 {
                    assert(whole[i] == rest[i - 1]);
                }
            }
        }
    }
}

/// Binding a fresh identifier keeps an entry list well formed.
pub proof fn lemma_upsert_entries_wf(
    es: Seq<(Seq<char>, Seq<char>)>,
    name: Seq<char>,
    defn: Seq<char>,
)
    requires
        entries_wf(es),
        is_ident(name),
    ensures
        entries_wf(upsert_entries(es, name, defn)),
{
    lemma_remove_entry_wf(es, name);
    lemma_remove_entry_props(es, name);
    let res = upsert_entries(es, name, defn);
    let cleaned = remove_entry(es, name);
    assert forall|i: int, j: int| 0 <= i < j < res.len() implies (#[trigger] res[i]).0
        != (#[trigger] res[j]).0 by {
        if j == cleaned.len() {
            assert(res[i] == cleaned[i]);
        } else {
            assert(res[i] == cleaned[i] && res[j] == cleaned[j]);
        }
    }
}

/// `remove_entry` over a list grown at the end: the tail entry survives
/// exactly when its name differs.
proof fn lemma_remove_entry_push(
    es: Seq<(Seq<char>, Seq<char>)>,
    x: (Seq<char>, Seq<char>),
    name: Seq<char>,
)
    ensures
        remove_entry(es.push(x), name) == if x.0 == name {
            remove_entry(es, name)
        } else {
            remove_entry(es, name).push(x)
        },
    decreases es.len(),
{
    if es.len() == 0 {
        let single = es.push(x);
        assert(single[0] == x);
        assert(single.drop_first() =~= es);
        assert(remove_entry(es, name) == Seq::<(Seq<char>, Seq<char>)>::empty());
        if x.0 == name {
            assert(remove_entry(single, name) == remove_entry(single.drop_first(), name));
        } else {
            assert(remove_entry(single, name) == seq![x] + remove_entry(
                single.drop_first(),
                name,
            ));
            assert(seq![x] + Seq::<(Seq<char>, Seq<char>)>::empty() =~= remove_entry(
                es,
                name,
            ).push(x));
        }
    } else {
        assert(es.push(x)[0] == es[0]);
        assert(es.push(x).drop_first() =~= es.drop_first().push(x));
        lemma_remove_entry_push(es.drop_first(), x, name);
        if es[0].0 == name {
        } else {
            if x.0 == name {
            } else {
                assert(seq![es[0]] + remove_entry(es.drop_first(), name).push(x) =~= (seq![es[0]]
                    + remove_entry(es.drop_first(), name)).push(x));
            }
        }
    }
}

/// `lookup_in` over a list grown at the end.
proof fn lemma_lookup_push(
    es: Seq<(Seq<char>, Seq<char>)>,
    x: (Seq<char>, Seq<char>),
    name: Seq<char>,
)
    ensures
        lookup_in(es.push(x), name) == if lookup_in(es, name) is Some {
            lookup_in(es, name)
        } else if x.0 == name {
            Some(x.1)
        } else {
            None::<Seq<char>>
        },
    decreases es.len(),
{
    if es.len() == 0 {
        assert(es.push(x).drop_first() =~= Seq::<(Seq<char>, Seq<char>)>::empty());
    } else {
        assert(es.push(x).drop_first() =~= es.drop_first().push(x));
        lemma_lookup_push(es.drop_first(), x, name);
    }
}

/// The two layered mappings: constants, replaced in bulk, and user variables,
/// changed one at a time. The well-formedness of both lists is kept by every
/// operation.
pub struct SymbolTable {
    pub constants: Vec<(String, String)>,
    pub variables: Vec<(String, String)>,
}

impl SymbolTable {
    /// The constants, as character sequences.
    pub open spec fn consts(&self) -> Seq<(Seq<char>, Seq<char>)> {
        pairs_view(self.constants@)
    }

    /// The user variables, as character sequences.
    pub open spec fn vars(&self) -> Seq<(Seq<char>, Seq<char>)> {
        pairs_view(self.variables@)
    }

    /// Both lists well formed.
    pub open spec fn wf(&self) -> bool {
        entries_wf(self.consts()) && entries_wf(self.vars())
    }

    /// What `lookup` returns: the user variable named `name` if one exists,
    /// else the constant named `name` if one exists.
    pub open spec fn lookup_spec(&self, name: Seq<char>) -> Option<Seq<char>> {
        if lookup_in(self.vars(), name) is Some {
            lookup_in(self.vars(), name)
        } else {
            lookup_in(self.consts(), name)
        }
    }

    /// An empty table.
    pub fn new() -> (t: SymbolTable)
        ensures
            t.wf(),
            t.consts() == Seq::<(Seq<char>, Seq<char>)>::empty(),
            t.vars() == Seq::<(Seq<char>, Seq<char>)>::empty(),
    {
        let t = SymbolTable { constants: Vec::new(), variables: Vec::new() };
        proof {
            assert(t.consts() =~= Seq::<(Seq<char>, Seq<char>)>::empty());
            assert(t.vars() =~= Seq::<(Seq<char>, Seq<char>)>::empty());
        }
        t
    }

    /// Inserts or overwrites the user variable `name`. A name that is not an
    /// identifier — in particular an empty name — is rejected by doing
    /// nothing.
    pub fn upsert_variable(&mut self, name: &str, defn: &str)
        requires
            old(self).wf(),
        ensures
            final(self).wf(),
            final(self).consts() == old(self).consts(),
            final(self).vars() == if is_ident(name@) {
                upsert_entries(old(self).vars(), name@, defn@)
            } else {
                old(self).vars()
            },
    {
        let name_chars = chars_of(name);
        if !ident_chars(&name_chars) {
            return ;
        }
        remove_named(&mut self.variables, name);
        self.variables.push((name.to_owned(), defn.to_owned()));
        proof {
            assert(pairs_view(self.variables@) =~= upsert_entries(
                pairs_view(old(self).variables@),
                name@,
                defn@,
            ));
            lemma_upsert_entries_wf(pairs_view(old(self).variables@), name@, defn@);
        }
    }

    /// Removes the user variable `name`; removing an absent name is a no-op.
    pub fn remove_variable(&mut self, name: &str)
        requires
            old(self).wf(),
        ensures
            final(self).wf(),
            final(self).consts() == old(self).consts(),
            final(self).vars() == remove_entry(old(self).vars(), name@),
    {
        remove_named(&mut self.variables, name);
        proof {
            lemma_remove_entry_wf(pairs_view(old(self).variables@), name@);
        }
    }

    /// Replaces the whole constants list atomically with the given pairs,
    /// bound in order; pairs whose name is not an identifier are ignored, and
    /// a later pair overwrites an earlier one of the same name.
    pub fn replace_constants(&mut self, items: Vec<(String, String)>)
        requires
            old(self).wf(),
        ensures
            final(self).wf(),
            final(self).vars() == old(self).vars(),
            final(self).consts() == insert_all(
                Seq::<(Seq<char>, Seq<char>)>::empty(),
                pairs_view(items@),
            ),
    {
        let mut fresh: Vec<(String, String)> = Vec::new();
        let mut i: usize = 0;
        proof {
            assert(pairs_view(fresh@) =~= Seq::<(Seq<char>, Seq<char>)>::empty());
            assert(pairs_view(items@).skip(0) =~= pairs_view(items@));
        }
        while i < items.len()
            invariant
                0 <= i <= items.len(),
                entries_wf(pairs_view(fresh@)),
                insert_all(pairs_view(fresh@), pairs_view(items@).skip(i as int)) == insert_all(
                    Seq::<(Seq<char>, Seq<char>)>::empty(),
                    pairs_view(items@),
                ),
            decreases items.len() - i,
        {
            let ghost before = pairs_view(fresh@);
            let name_chars = chars_of(items[i].0.as_str());
            if ident_chars(&name_chars) {
                let name_s = items[i].0.clone();
                let defn_s = items[i].1.clone();
                remove_named(&mut fresh, name_s.as_str());
                fresh.push((name_s, defn_s));
                proof {
                    assert(pairs_view(fresh@) =~= upsert_entries(
                        before,
                        items@[i as int].0@,
                        items@[i as int].1@,
                    ));
                    lemma_upsert_entries_wf(before, items@[i as int].0@, items@[i as int].1@);
                }
            }
            proof {
                assert(pairs_view(items@).skip(i as int).drop_first() =~= pairs_view(items@).skip(
                    i + 1,
                ));
                assert(pairs_view(items@).skip(i as int)[0] == (
                    items@[i as int].0@,
                    items@[i as int].1@,
                ));
            }
            i += 1;
        }
        proof {
            assert(pairs_view(items@).skip(items@.len() as int) =~= Seq::<
                (Seq<char>, Seq<char>),
            >::empty());
        }
        self.constants = fresh;
    }

    /// The definition bound to `name`, a user variable taking precedence over
    /// a constant of the same name; `None` when neither list has the name.
    pub fn lookup(&self, name: &str) -> (r: Option<String>)
        ensures
            match r {
                Option::Some(d) => self.lookup_spec(name@) == Option::Some(d@),
                Option::None => self.lookup_spec(name@) is None,
            },
    {
        match lookup_named(&self.variables, name) {
            Some(d) => Some(d),
            None => lookup_named(&self.constants, name),
        }
    }

    /// The user variables, oldest binding first, for display.
    pub fn variables_list(&self) -> (r: Vec<(String, String)>)
        ensures
            pairs_view(r@) == self.vars(),
    {
        clone_pairs(&self.variables)
    }

    /// The constants, in their loaded order, for display.
    pub fn constants_list(&self) -> (r: Vec<(String, String)>)
        ensures
            pairs_view(r@) == self.consts(),
    {
        clone_pairs(&self.constants)
    }
}

/// Removes every entry named `name` from the list.
fn remove_named(es: &mut Vec<(String, String)>, name: &str)
    ensures
        pairs_view(final(es)@) == remove_entry(pairs_view(old(es)@), name@),
{
    let owned = name.to_owned();
    let mut out: Vec<(String, String)> = Vec::new();
    let mut i: usize = 0;
    proof {
        assert(pairs_view(es@.take(0)) =~= Seq::<(Seq<char>, Seq<char>)>::empty());
        assert(pairs_view(out@) =~= remove_entry(pairs_view(es@.take(0)), name@));
    }
    while i < es.len()
        invariant
            0 <= i <= es.len(),
            owned@ == name@,
            pairs_view(out@) == remove_entry(pairs_view(es@.take(i as int)), name@),
        decreases es.len() - i,
    {
        let ghost prefix = pairs_view(es@.take(i as int));
        proof {
            assert(pairs_view(es@.take(i + 1)) =~= prefix.push(
                (es@[i as int].0@, es@[i as int].1@),
            ));
            lemma_remove_entry_push(prefix, (es@[i as int].0@, es@[i as int].1@), name@);
        }
        if !(es[i].0 == owned) {
            let pair = (es[i].0.clone(), es[i].1.clone());
            out.push(pair);
            proof {
                assert(pairs_view(out@) =~= remove_entry(pairs_view(es@.take(i + 1)), name@));
            }
        }
        i += 1;
    }
    proof {
        assert(es@.take(es@.len() as int) =~= es@);
    }
    *es = out;
}

/// The definition of the first entry named `name` in the list.
fn lookup_named(es: &Vec<(String, String)>, name: &str) -> (r: Option<String>)
    ensures
        match r {
            Option::Some(d) => lookup_in(pairs_view(es@), name@) == Option::Some(d@),
            Option::None => lookup_in(pairs_view(es@), name@) is None,
        },
{
    let owned = name.to_owned();
    let mut i: usize = 0;
    proof {
        assert(pairs_view(es@).skip(0) =~= pairs_view(es@));
    }
    while i < es.len()
        invariant
            0 <= i <= es.len(),
            owned@ == name@,
            lookup_in(pairs_view(es@), name@) == lookup_in(
                pairs_view(es@).skip(i as int),
                name@,
            ),
        decreases es.len() - i,
    {
        proof {
            assert(pairs_view(es@).skip(i as int)[0] == (es@[i as int].0@, es@[i as int].1@));
            assert(pairs_view(es@).skip(i as int).drop_first() =~= pairs_view(es@).skip(i + 1));
        }
        if es[i].0 == owned {
            return Some(es[i].1.clone());
        }
        i += 1;
    }
    proof {
        assert(pairs_view(es@).skip(es@.len() as int) =~= Seq::<(Seq<char>, Seq<char>)>::empty());
    }
    None
}

/// A copy of the list.
fn clone_pairs(es: &Vec<(String, String)>) -> (r: Vec<(String, String)>)
    ensures
        pairs_view(r@) == pairs_view(es@),
{
    let mut out: Vec<(String, String)> = Vec::new();
    let mut i: usize = 0;
    while i < es.len()
        invariant
            0 <= i <= es.len(),
            pairs_view(out@) == pairs_view(es@.take(i as int)),
        decreases es.len() - i,
    {
        out.push((es[i].0.clone(), es[i].1.clone()));
        proof {
            assert(pairs_view(es@.take(i + 1)) =~= pairs_view(es@.take(i as int)).push(
                (es@[i as int].0@, es@[i as int].1@),
            ));
            assert(pairs_view(out@) =~= pairs_view(es@.take(i as int)).push(
                (es@[i as int].0@, es@[i as int].1@),
            ));
        }
        i += 1;
    }
    proof {
        assert(es@.take(es@.len() as int) =~= es@);
        assert(pairs_view(es@.take(es@.len() as int)) =~= pairs_view(es@));
    }
    out
}

} // verus!
