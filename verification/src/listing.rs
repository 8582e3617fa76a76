//! Ordering and narrowing of an entry list for display: sorting by name in
//! either direction, and case-insensitive substring search over names and
//! definitions.

use vstd::prelude::*;
use vstd::seq_lib::lemma_multiset_commutative;
use crate::text::chars_of;
use crate::table::pairs_view;

verus! {

/// What `str::to_lowercase` returns for the given characters: the result
/// depends on the characters alone.
pub uninterp spec fn lower_of(s: Seq<char>) -> Seq<char>;

/// Relies on `str::to_lowercase`: the lowercase form of the text, a function
/// of the characters alone.
#[verifier::external_body]
fn lowercase(s: &str) -> (r: String)
    ensures
        r@ == lower_of(s@),
{
    s.to_lowercase()
}

/// Whether `needle` stands in `hay` beginning at `i`.
pub open spec fn has_sub_at(hay: Seq<char>, needle: Seq<char>, i: int) -> bool {
    &&& 0 <= i
    &&& i + needle.len() <= hay.len()
    &&& hay.subrange(i, i + needle.len()) == needle
}

/// Whether `needle` stands anywhere in `hay`.
pub open spec fn contains_sub(hay: Seq<char>, needle: Seq<char>) -> bool {
    exists|i: int| has_sub_at(hay, needle, i)
}

/// Whether the entry matches the lowercased query: its lowercased name or
/// its lowercased definition holds the query as a substring.
pub open spec fn entry_matches(p: (Seq<char>, Seq<char>), q: Seq<char>) -> bool {
    contains_sub(lower_of(p.0), q) || contains_sub(lower_of(p.1), q)
}

/// The entries matching the lowercased query, in their given order.
pub open spec fn spec_search(
    es: Seq<(Seq<char>, Seq<char>)>,
    q: Seq<char>,
) -> Seq<(Seq<char>, Seq<char>)>
    decreases es.len(),
{
    if es.len() == 0 {
        Seq::empty()
    } else {
        (if entry_matches(es[0], q) {
            seq![es[0]]
        } else {
            Seq::empty()
        }) + spec_search(es.drop_first(), q)
    }
}

/// `spec_search` over a list grown at the end.
proof fn lemma_search_push(es: Seq<(Seq<char>, Seq<char>)>, x: (Seq<char>, Seq<char>), q: Seq<char>)
    ensures
        spec_search(es.push(x), q) == if entry_matches(x, q) {
            spec_search(es, q).push(x)
        } else {
            spec_search(es, q)
        },
    decreases es.len(),
{
    if es.len() == 0 {
        let single = es.push(x);
        assert(single[0] == x);
        assert(single.drop_first() =~= es);
        assert(spec_search(es, q) == Seq::<(Seq<char>, Seq<char>)>::empty());
        if entry_matches(x, q) {
            assert(spec_search(single, q) == seq![x] + spec_search(es, q));
            assert(seq![x] + Seq::<(Seq<char>, Seq<char>)>::empty() =~= spec_search(es, q).push(x));
        } else {
            assert(spec_search(single, q) == Seq::<(Seq<char>, Seq<char>)>::empty() + spec_search(
                es,
                q,
            ));
            assert(Seq::<(Seq<char>, Seq<char>)>::empty() + spec_search(es, q) =~= spec_search(
                es,
                q,
            ));
        }
    } else {
        assert(es.push(x)[0] == es[0]);
        assert(es.push(x).drop_first() =~= es.drop_first().push(x));
        lemma_search_push(es.drop_first(), x, q);
        let head = if entry_matches(es[0], q) {
            seq![es[0]]
        } else {
            Seq::<(Seq<char>, Seq<char>)>::empty()
        };
        if entry_matches(x, q) {
            assert(head + spec_search(es.drop_first(), q).push(x) =~= (head + spec_search(
                es.drop_first(),
                q,
            )).push(x));
            assert(spec_search(es.push(x), q) =~= spec_search(es, q).push(x));
        } else {
            assert(spec_search(es.push(x), q) =~= spec_search(es, q));
        }
    }
}

/// Executable test for `needle` standing at `i`.
fn sub_at_x(hay: &Vec<char>, needle: &Vec<char>, i: usize) -> (r: bool)
    requires
        i + needle.len() <= hay.len(),
    ensures
        r == has_sub_at(hay@, needle@, i as int),
{
    let mut k: usize = 0;
    while k < needle.len()
        invariant
            0 <= k <= needle.len(),
            i + needle.len() <= hay.len(),
            forall|m: int| 0 <= m < k ==> hay@[i + m] == needle@[m],
        decreases needle.len() - k,
    {
        if hay[i + k] != needle[k] {
            proof {
                assert(hay@.subrange(i as int, i + needle@.len())[k as int] != needle@[k as int]);
            }
            return false;
        }
        k += 1;
    }
    proof {
        assert(hay@.subrange(i as int, i + needle@.len()) =~= needle@);
    }
    true
}

/// Executable substring search.
fn contains_x(hay: &Vec<char>, needle: &Vec<char>) -> (r: bool)
    ensures
        r == contains_sub(hay@, needle@),
{
    if needle.len() > hay.len() {
        return false;
    }
    if needle.len() == 0 {
        proof {
            assert(hay@.subrange(0, 0) =~= needle@);
            assert(has_sub_at(hay@, needle@, 0));
        }
        return true;
    }
    let last = hay.len() - needle.len();
    let mut i: usize = 0;
    while i <= last
        invariant
            1 <= needle.len() <= hay.len(),
            last == hay.len() - needle.len(),
            0 <= i <= last + 1,
            forall|j: int| 0 <= j < i ==> !has_sub_at(hay@, needle@, j),
        decreases last + 1 - i,
    {
        if sub_at_x(hay, needle, i) {
            return true;
        }
        i += 1;
    }
    proof {
        assert forall|j: int| !has_sub_at(hay@, needle@, j) by {
            if 0 <= j && j + needle@.len() <= hay@.len() {
                assert(j < i);
            }
        }
    }
    false
}

/// The entries whose lowercased name or definition holds the lowercased
/// query as a substring, in their given order; an empty query keeps all.
pub fn search_pairs(list: &Vec<(String, String)>, query: &str) -> (r: Vec<(String, String)>)
    ensures
        pairs_view(r@) == spec_search(pairs_view(list@), lower_of(query@)),
{
    let q = lowercase(query);
    let qv = chars_of(q.as_str());
    let mut out: Vec<(String, String)> = Vec::new();
    let mut i: usize = 0;
    proof {
        assert(pairs_view(list@.take(0)) =~= Seq::<(Seq<char>, Seq<char>)>::empty());
        assert(pairs_view(out@) =~= spec_search(pairs_view(list@.take(0)), lower_of(query@)));
    }
    while i < list.len()
        invariant
            0 <= i <= list.len(),
            qv@ == lower_of(query@),
            pairs_view(out@) == spec_search(pairs_view(list@.take(i as int)), lower_of(query@)),
        decreases list.len() - i,
    {
        let ghost prefix = pairs_view(list@.take(i as int));
        let ghost entry = (list@[i as int].0@, list@[i as int].1@);
        proof {
            assert(pairs_view(list@.take(i + 1)) =~= prefix.push(entry));
            lemma_search_push(prefix, entry, lower_of(query@));
        }
        let name_low = lowercase(list[i].0.as_str());
        let defn_low = lowercase(list[i].1.as_str());
        let namev = chars_of(name_low.as_str());
        let defnv = chars_of(defn_low.as_str());
        if contains_x(&namev, &qv) || contains_x(&defnv, &qv) {
            out.push((list[i].0.clone(), list[i].1.clone()));
            proof {
                assert(pairs_view(out@) =~= spec_search(
                    pairs_view(list@.take(i + 1)),
                    lower_of(query@),
                ));
            }
        }
        i += 1;
    }
    proof {
        assert(list@.take(list@.len() as int) =~= list@);
    }
    out
}

/// Lexicographic order on character sequences, by code point.
pub open spec fn lex_le(a: Seq<char>, b: Seq<char>) -> bool
    decreases a.len(),
{
    if a.len() == 0 {
        true
    } else if b.len() == 0 {
        false
    } else if a[0] == b[0] {
        lex_le(a.drop_first(), b.drop_first())
    } else {
        a[0] < b[0]
    }
}

/// The order is total.
proof fn lemma_lex_total(a: Seq<char>, b: Seq<char>)
    ensures
        lex_le(a, b) || lex_le(b, a),
    decreases a.len(),
{
    if a.len() == 0 {
    } else if b.len() == 0 {
    } else if a[0] == b[0] {
        lemma_lex_total(a.drop_first(), b.drop_first());
    }
}

/// The order is transitive.
proof fn lemma_lex_trans(a: Seq<char>, b: Seq<char>, c: Seq<char>)
    requires
        lex_le(a, b),
        lex_le(b, c),
    ensures
        lex_le(a, c),
    decreases a.len(),
{
    if a.len() == 0 {
    } else if b.len() == 0 {
    } else if c.len() == 0 {
    } else if a[0] == b[0] && b[0] == c[0] {
        lemma_lex_trans(a.drop_first(), b.drop_first(), c.drop_first());
    }
}

/// Executable lexicographic comparison.
fn lex_le_x(a: &Vec<char>, b: &Vec<char>) -> (r: bool)
    ensures
        r == lex_le(a@, b@),
{
    let mut i: usize = 0;
    proof {
        assert(a@.skip(0) =~= a@);
        assert(b@.skip(0) =~= b@);
    }
    while i < a.len() && i < b.len()
        invariant
            0 <= i <= a.len(),
            0 <= i <= b.len(),
            lex_le(a@, b@) == lex_le(a@.skip(i as int), b@.skip(i as int)),
        decreases a.len() - i,
    {
        proof {
            assert(a@.skip(i as int)[0] == a@[i as int]);
            assert(b@.skip(i as int)[0] == b@[i as int]);
            assert(a@.skip(i as int).drop_first() =~= a@.skip(i + 1));
            assert(b@.skip(i as int).drop_first() =~= b@.skip(i + 1));
        }
        if a[i] != b[i] {
            return a[i] < b[i];
        }
        i += 1;
    }
    proof {
        if i == a.len() {
            assert(a@.skip(i as int).len() == 0);
        } else {
            assert(b@.skip(i as int).len() == 0);
            assert(a@.skip(i as int).len() > 0);
        }
    }
    i == a.len()
}

/// Whether the entry names stand in the given direction of the
/// lexicographic order.
pub open spec fn sorted_names(es: Seq<(Seq<char>, Seq<char>)>, ascending: bool) -> bool {
    forall|i: int, j: int|
        0 <= i < j < es.len() ==> if ascending {
            lex_le((#[trigger] es[i]).0, (#[trigger] es[j]).0)
        } else {
            lex_le(es[j].0, es[i].0)
        }
}

/// Inserting at `i` adds one occurrence to the contents.
proof fn lemma_insert_to_multiset(s: Seq<(Seq<char>, Seq<char>)>, i: int, x: (Seq<char>, Seq<char>))
    requires
        0 <= i <= s.len(),
    ensures
        s.insert(i, x).to_multiset() =~= s.to_multiset().insert(x),
{
    broadcast use vstd::seq_lib::group_to_multiset_ensures;

    let t = s.insert(i, x);
    assert(t.remove(i) =~= s);
    assert(t[i] == x);
    assert(t.remove(i).to_multiset() =~= t.to_multiset().remove(t[i]));
    assert(t.to_multiset().contains(x)) by {
        assert(t.contains(x));
    }
    assert forall|y: (Seq<char>, Seq<char>)|
        #[trigger] t.to_multiset().count(y) == s.to_multiset().insert(x).count(y) by {
        if y == x {
            assert(s.to_multiset().count(x) == t.to_multiset().remove(x).count(x));
        } else {
            assert(s.to_multiset().count(y) == t.to_multiset().remove(x).count(y));
        }
    }
}

/// The entries reordered by name — ascending or descending — with the same
/// contents.
pub fn sorted_by_name(list: &Vec<(String, String)>, ascending: bool) -> (r: Vec<(String, String)>)
    ensures
        pairs_view(r@).to_multiset() == pairs_view(list@).to_multiset(),
        sorted_names(pairs_view(r@), ascending),
{
    let mut out: Vec<(String, String)> = Vec::new();
    let mut i: usize = 0;
    proof {
        broadcast use vstd::seq_lib::group_to_multiset_ensures;

        assert(pairs_view(list@.take(0)) =~= Seq::<(Seq<char>, Seq<char>)>::empty());
        assert(pairs_view(out@) =~= Seq::<(Seq<char>, Seq<char>)>::empty());
        assert(pairs_view(out@).to_multiset() =~= pairs_view(list@.take(0)).to_multiset());
    }
    while i < list.len()
        invariant
            0 <= i <= list.len(),
            pairs_view(out@).to_multiset() == pairs_view(list@.take(i as int)).to_multiset(),
            sorted_names(pairs_view(out@), ascending),
        decreases list.len() - i,
    {
        let ghost before = pairs_view(out@);
        let ghost entry = (list@[i as int].0@, list@[i as int].1@);
        let namev = chars_of(list[i].0.as_str());
        let mut idx: usize = 0;
        loop
            invariant
                0 <= idx <= out.len(),
                before == pairs_view(out@),
                namev@ == entry.0,
                forall|k: int|
                    0 <= k < idx ==> if ascending {
                        lex_le((#[trigger] before[k]).0, entry.0)
                    } else {
                        lex_le(entry.0, (#[trigger] before[k]).0)
                    },
            ensures
                0 <= idx <= out.len(),
                forall|k: int|
                    0 <= k < idx ==> if ascending {
                        lex_le((#[trigger] before[k]).0, entry.0)
                    } else {
                        lex_le(entry.0, (#[trigger] before[k]).0)
                    },
                idx < out.len() ==> if ascending {
                    !lex_le(before[idx as int].0, entry.0)
                } else {
                    !lex_le(entry.0, before[idx as int].0)
                },
            decreases out.len() - idx,
        {
            if idx >= out.len() {
                break ;
            }
            let here = chars_of(out[idx].0.as_str());
            proof {
                assert(before[idx as int].0 == out@[idx as int].0@);
            }
            let le = if ascending {
                lex_le_x(&here, &namev)
            } else {
                lex_le_x(&namev, &here)
            };
            if !le {
                break ;
            }
            idx += 1;
        }
        proof {
            if idx < out@.len() {
                lemma_lex_total(before[idx as int].0, entry.0);
            }
            assert forall|k: int| idx <= k < before.len() implies (if ascending {
                lex_le(entry.0, (#[trigger] before[k]).0)
            } else {
                lex_le((#[trigger] before[k]).0, entry.0)
            }) by {
                if ascending {
                    lemma_lex_total(before[idx as int].0, entry.0);
                    if k > idx {
                        lemma_lex_trans(entry.0, before[idx as int].0, before[k].0);
                    }
                } else {
                    lemma_lex_total(entry.0, before[idx as int].0);
                    if k > idx {
                        lemma_lex_trans(before[k].0, before[idx as int].0, entry.0);
                    }
                }
            }
        }
        let pair = (list[i].0.clone(), list[i].1.clone());
        out.insert(idx, pair);
        proof {
            broadcast use vstd::seq_lib::group_to_multiset_ensures;

            assert(pairs_view(out@) =~= before.insert(idx as int, entry));
            lemma_insert_to_multiset(before, idx as int, entry);
            assert(pairs_view(list@.take(i + 1)) =~= pairs_view(list@.take(i as int)).push(entry));
            assert(pairs_view(list@.take(i + 1)).to_multiset() =~= pairs_view(
                list@.take(i as int),
            ).to_multiset().insert(entry));
            let now = pairs_view(out@);
            assert forall|m: int, n: int| 0 <= m < n < now.len() implies (if ascending {
                lex_le((#[trigger] now[m]).0, (#[trigger] now[n]).0)
            } else {
                lex_le(now[n].0, now[m].0)
            }) by {
                if m < idx as int && n == idx as int {
                } else if m == idx as int {
                    assert(now[n] == before[n - 1]);
                } else if n == idx as int {
                    assert(now[m] == before[m]);
                } else {
                    let m0 = if m < idx as int {
                        m
                    } else {
                        m - 1
                    };
                    let n0 = if n < idx as int {
                        n
                    } else {
                        n - 1
                    };
                    assert(now[m] == before[m0] && now[n] == before[n0]);
                }
            }
        }
        i += 1;
    }
    proof {
        assert(list@.take(list@.len() as int) =~= list@);
    }
    out
}

} // verus!
