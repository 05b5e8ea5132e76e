//! Sorted lists of named entries, the form in which a manifest holds its
//! subentries, and the map that such a list stands for.

use vstd::prelude::*;
use crate::path::{lex_lt, lemma_lex_irreflexive, lemma_lex_total, lemma_lex_transitive, Order, PathElement};

verus! {

/// The names in `es` ascend strictly in lexicographic byte order.
pub open spec fn strictly_sorted<T>(es: Seq<(Seq<u8>, T)>) -> bool {
    forall|i: int, j: int| 0 <= i < j < es.len() ==> lex_lt(#[trigger] es[i].0, #[trigger] es[j].0)
}

/// `es` has an entry named `n` at index `i`.
pub open spec fn names_at<T>(es: Seq<(Seq<u8>, T)>, n: Seq<u8>, i: int) -> bool {
    0 <= i < es.len() && es[i].0 == n
}

/// `es` has an entry named `n`.
pub open spec fn has_name<T>(es: Seq<(Seq<u8>, T)>, n: Seq<u8>) -> bool {
    exists|i: int| names_at(es, n, i)
}

/// The index of an entry of `es` named `n`.
pub open spec fn index_of<T>(es: Seq<(Seq<u8>, T)>, n: Seq<u8>) -> int {
    choose|i: int| names_at(es, n, i)
}

/// The map from each name in `es` to what an entry of that name holds.
pub open spec fn entries_map<T>(es: Seq<(Seq<u8>, T)>) -> Map<Seq<u8>, T> {
    Map::new(|n: Seq<u8>| has_name(es, n), |n: Seq<u8>| es[index_of(es, n)].1)
}

/// The names of a list of entries, by their views.
pub open spec fn names_view<T>(v: Seq<(PathElement, T)>) -> Seq<(Seq<u8>, T)> {
    v.map_values(|e: (PathElement, T)| (e.0@, e.1))
}

/// In a sorted list each name occurs once, so the map holds each entry.
pub proof fn lemma_map_at<T>(es: Seq<(Seq<u8>, T)>, i: int)
    requires
        strictly_sorted(es),
        0 <= i < es.len(),
    ensures
        has_name(es, es[i].0),
        index_of(es, es[i].0) == i,
        entries_map(es).dom().contains(es[i].0),
        entries_map(es)[es[i].0] == es[i].1,
{
    assert(names_at(es, es[i].0, i));
    let k = index_of(es, es[i].0);
    if k < i {
        lemma_lex_irreflexive(es[i].0);
    } else if i < k {
        lemma_lex_irreflexive(es[i].0);
    }
}

/// The domain of the map of a list is finite.
pub proof fn lemma_map_finite<T>(es: Seq<(Seq<u8>, T)>)
    ensures
        entries_map(es).dom().finite(),
    decreases es.len(),
{
    if es.len() == 0 {
        assert(entries_map(es).dom() =~= Set::empty());
    } else {
        let rest = es.drop_last();
        lemma_map_finite(rest);
        let last = es.last().0;
        assert forall|n: Seq<u8>| entries_map(es).dom().contains(n) implies entries_map(rest).dom().insert(last).contains(n) by {
            let i = index_of(es, n);
            assert(names_at(es, n, i));
            if i < es.len() - 1 {
                assert(names_at(rest, n, i));
            }
        }
        assert forall|n: Seq<u8>| entries_map(rest).dom().insert(last).contains(n) implies entries_map(es).dom().contains(n) by {
            if n == last {
                assert(names_at(es, n, es.len() - 1));
            } else {
                let i = index_of(rest, n);
                assert(names_at(rest, n, i));
                assert(names_at(es, n, i));
            }
        }
        assert(entries_map(es).dom() =~= entries_map(rest).dom().insert(last));
    }
}

/// Two sorted lists that stand for the same map are the same list.
pub proof fn lemma_sorted_unique<T>(s: Seq<(Seq<u8>, T)>, t: Seq<(Seq<u8>, T)>)
    requires
        strictly_sorted(s),
        strictly_sorted(t),
        entries_map(s) == entries_map(t),
    ensures
        s == t,
    decreases s.len(),
{
    if s.len() == 0 {
        if t.len() > 0 {
            lemma_map_at(t, 0);
            let i = index_of(s, t[0].0);
            assert(names_at(s, t[0].0, i));
        }
        assert(s =~= t);
    } else if t.len() == 0 {
        lemma_map_at(s, 0);
        let i = index_of(t, s[0].0);
        assert(names_at(t, s[0].0, i));
    } else {
        let a = s.last();
        let b = t.last();
        let sl = s.len() - 1;
        let tl = t.len() - 1;
        lemma_map_at(s, sl);
        lemma_map_at(t, tl);
        let j = index_of(t, a.0);
        assert(names_at(t, a.0, j));
        let i = index_of(s, b.0);
        assert(names_at(s, b.0, i));
        if j < tl && i < sl {
            lemma_lex_transitive(a.0, b.0, a.0);
            lemma_lex_irreflexive(a.0);
        }
        if j < tl && i == sl {
            lemma_lex_irreflexive(a.0);
        }
        if j == tl && i < sl {
            lemma_lex_irreflexive(b.0);
        }
        assert(a.0 == b.0);
        assert(a.1 == b.1);
        let s1 = s.drop_last();
        let t1 = t.drop_last();
        assert forall|n: Seq<u8>| has_name(s1, n) implies has_name(t1, n) && t1[index_of(t1, n)].1 == s1[index_of(s1, n)].1 by {
            let i1 = index_of(s1, n);
            assert(names_at(s1, n, i1));
            lemma_map_at(s, i1);
            lemma_map_at(s1, i1);
            let j1 = index_of(t, n);
            assert(names_at(t, n, j1));
            if j1 == tl {
                lemma_lex_irreflexive(n);
            }
            assert(names_at(t1, n, j1));
            lemma_map_at(t, j1);
            lemma_map_at(t1, j1);
        }
        assert forall|n: Seq<u8>| has_name(t1, n) implies has_name(s1, n) by {
            let j1 = index_of(t1, n);
            assert(names_at(t1, n, j1));
            lemma_map_at(t, j1);
            let i1 = index_of(s, n);
            assert(names_at(s, n, i1));
            if i1 == sl {
                lemma_lex_irreflexive(n);
            }
            assert(names_at(s1, n, i1));
        }
        assert(entries_map(s1) =~= entries_map(t1));
        lemma_sorted_unique(s1, t1);
        assert(s =~= s1.push(a));
        assert(t =~= t1.push(b));
    }
}

/// The map of an empty list is empty.
pub proof fn lemma_absent_all<T>(s: Seq<(Seq<u8>, T)>)
    requires
        s.len() == 0,
    ensures
        entries_map(s) == Map::<Seq<u8>, T>::empty(),
        strictly_sorted(s),
{
    assert forall|n: Seq<u8>| !has_name(s, n) by {
        if has_name(s, n) {
            let i = index_of(s, n);
            assert(names_at(s, n, i));
        }
    }
    assert(entries_map(s) =~= Map::<Seq<u8>, T>::empty());
}

/// The sorted list that stands for the map `m`.
pub open spec fn sorted_entries<T>(m: Map<Seq<u8>, T>) -> Seq<(Seq<u8>, T)> {
    choose|es: Seq<(Seq<u8>, T)>| strictly_sorted(es) && entries_map(es) == m
}

/// The sorted list of the map of a sorted list is that list.
pub proof fn lemma_sorted_entries<T>(es: Seq<(Seq<u8>, T)>)
    requires
        strictly_sorted(es),
    ensures
        sorted_entries(entries_map(es)) == es,
{
    let c = sorted_entries(entries_map(es));
    lemma_sorted_unique(c, es);
}

/// How many entries of the sorted list `es` have a name that comes before
/// `n`.
pub open spec fn names_before<T>(es: Seq<(Seq<u8>, T)>, n: Seq<u8>) -> int
    decreases es.len(),
{
    if es.len() == 0 {
        0
    } else if lex_lt(es.last().0, n) {
        es.len() as int
    } else {
        names_before(es.drop_last(), n)
    }
}

/// In a sorted list the names that come before `n` are the first ones.
pub proof fn lemma_names_before<T>(es: Seq<(Seq<u8>, T)>, n: Seq<u8>)
    requires
        strictly_sorted(es),
    ensures
        0 <= names_before(es, n) <= es.len(),
        forall|k: int| 0 <= k < names_before(es, n) ==> lex_lt(#[trigger] es[k].0, n),
        forall|k: int| names_before(es, n) <= k < es.len() ==> !lex_lt(#[trigger] es[k].0, n),
    decreases es.len(),
{
    if es.len() > 0 {
        let last = es[es.len() - 1];
        if lex_lt(last.0, n) {
            assert forall|k: int| 0 <= k < es.len() implies lex_lt(#[trigger] es[k].0, n) by {
                if k < es.len() - 1 {
                    lemma_lex_transitive(es[k].0, last.0, n);
                }
            }
        } else {
            let rest = es.drop_last();
            assert forall|i: int, j: int| 0 <= i < j < rest.len() implies lex_lt(
                #[trigger] rest[i].0,
                #[trigger] rest[j].0,
            ) by {
                assert(rest[i] == es[i] && rest[j] == es[j]);
            }
            lemma_names_before(rest, n);
            assert forall|k: int| 0 <= k < names_before(es, n) implies lex_lt(#[trigger] es[k].0, n) by {
                assert(rest[k] == es[k]);
            }
            assert forall|k: int| names_before(es, n) <= k < es.len() implies !lex_lt(#[trigger] es[k].0, n) by {
                if k < rest.len() {
                    assert(rest[k] == es[k]);
                }
            }
        }
    }
}

/// Every map with finitely many names is the map of a sorted list.
pub proof fn lemma_sorted_exists<T>(m: Map<Seq<u8>, T>)
    requires
        m.dom().finite(),
    ensures
        strictly_sorted(sorted_entries(m)),
        entries_map(sorted_entries(m)) == m,
    decreases m.dom().len(),
{
    if m.dom().len() == 0 {
        let es = Seq::<(Seq<u8>, T)>::empty();
        lemma_absent_all(es);
        assert(m =~= Map::<Seq<u8>, T>::empty());
        assert(strictly_sorted(es) && entries_map(es) == m);
    } else {
        let n = m.dom().choose();
        let rest = m.remove(n);
        lemma_sorted_exists(rest);
        let es = sorted_entries(rest);
        lemma_names_before(es, n);
        let pos = names_before(es, n);
        assert forall|k: int| pos <= k < es.len() implies lex_lt(n, #[trigger] es[k].0) by {
            if !lex_lt(n, es[k].0) {
                lemma_lex_total(n, es[k].0);
                lemma_map_at(es, k);
            }
        }
        lemma_insert_sorted(es, pos, (n, m[n]));
        let full = es.insert(pos, (n, m[n]));
        assert(rest.insert(n, m[n]) =~= m);
        assert(strictly_sorted(full) && entries_map(full) == m);
    }
}

/// Where `name` stands, or would stand, in the sorted list `es`: the index
/// of the first entry whose name does not come before `name`, and whether
/// that entry has this name.
pub(crate) fn position<T>(es: &Vec<(PathElement, T)>, name: &PathElement) -> (r: (usize, bool))
    requires
        strictly_sorted(names_view(es@)),
    ensures
        r.0 <= es.len(),
        forall|i: int| 0 <= i < r.0 ==> lex_lt(#[trigger] names_view(es@)[i].0, name@),
        forall|i: int| r.0 <= i < es.len() ==> !lex_lt(#[trigger] names_view(es@)[i].0, name@),
        r.1 <==> has_name(names_view(es@), name@),
        r.1 ==> names_at(names_view(es@), name@, r.0 as int),
{
    let ghost s = names_view(es@);
    let mut lo: usize = 0;
    let mut hi: usize = es.len();
    while lo < hi
        invariant
            s == names_view(es@),
            strictly_sorted(s),
            lo <= hi <= es.len(),
            forall|i: int| 0 <= i < lo ==> lex_lt(#[trigger] s[i].0, name@),
            forall|i: int| hi <= i < es.len() ==> !lex_lt(#[trigger] s[i].0, name@),
        decreases hi - lo,
    {
        let mid = lo + (hi - lo) / 2;
        let o = es[mid].0.order(name);
        assert(s[mid as int].0 == es@[mid as int].0@);
        if o == Order::Less {
            assert forall|i: int| 0 <= i < mid + 1 implies lex_lt(#[trigger] s[i].0, name@) by {
                if i < mid {
                    lemma_lex_transitive(s[i].0, s[mid as int].0, name@);
                }
            }
            lo = mid + 1;
        } else {
            assert forall|i: int| mid <= i < es.len() implies !lex_lt(#[trigger] s[i].0, name@) by {
                if mid < i && lex_lt(s[i].0, name@) {
                    lemma_lex_transitive(s[mid as int].0, s[i].0, name@);
                }
            }
            hi = mid;
        }
    }
    let found = if lo < es.len() {
        let o = es[lo].0.order(name);
        assert(s[lo as int].0 == es@[lo as int].0@);
        o == Order::Equal
    } else {
        false
    };
    proof {
        if found {
            assert(names_at(s, name@, lo as int));
        } else if has_name(s, name@) {
            let k = index_of(s, name@);
            assert(names_at(s, name@, k));
            lemma_lex_irreflexive(name@);
            if k > lo {
                lemma_lex_total(s[lo as int].0, name@);
            }
        }
    }
    (lo, found)
}

/// Putting an entry where its name belongs keeps the list sorted and adds
/// the entry to its map.
pub proof fn lemma_insert_sorted<T>(s: Seq<(Seq<u8>, T)>, i: int, e: (Seq<u8>, T))
    requires
        strictly_sorted(s),
        0 <= i <= s.len(),
        forall|k: int| 0 <= k < i ==> lex_lt(#[trigger] s[k].0, e.0),
        forall|k: int| i <= k < s.len() ==> lex_lt(e.0, #[trigger] s[k].0),
    ensures
        strictly_sorted(s.insert(i, e)),
        entries_map(s.insert(i, e)) == entries_map(s).insert(e.0, e.1),
{
    let t = s.insert(i, e);
    assert forall|a: int, b: int| 0 <= a < b < t.len() implies lex_lt(#[trigger] t[a].0, #[trigger] t[b].0) by {
        if a < i && b > i {
            assert(t[a] == s[a]);
            assert(t[b] == s[b - 1]);
        }
    }
    assert forall|n: Seq<u8>| has_name(t, n) <==> (n == e.0 || has_name(s, n)) by {
        if has_name(t, n) {
            let k = index_of(t, n);
            assert(names_at(t, n, k));
            if k < i {
                assert(names_at(s, n, k));
            } else if k > i {
                assert(names_at(s, n, k - 1));
            }
        }
        if n == e.0 {
            assert(names_at(t, n, i));
        }
        if has_name(s, n) {
            let k = index_of(s, n);
            assert(names_at(s, n, k));
            if k < i {
                assert(names_at(t, n, k));
            } else {
                assert(names_at(t, n, k + 1));
            }
        }
    }
    assert forall|n: Seq<u8>| has_name(t, n) implies #[trigger] entries_map(t)[n] == entries_map(s).insert(e.0, e.1)[n] by {
        let k = index_of(t, n);
        assert(names_at(t, n, k));
        lemma_map_at(t, k);
        if k < i {
            lemma_map_at(s, k);
            lemma_lex_irreflexive(n);
        } else if k > i {
            lemma_map_at(s, k - 1);
            lemma_lex_irreflexive(n);
        }
    }
    assert(entries_map(t) =~= entries_map(s).insert(e.0, e.1));
}

/// Taking an entry out keeps the list sorted and takes its name out of the
/// map.
pub proof fn lemma_remove_sorted<T>(s: Seq<(Seq<u8>, T)>, i: int)
    requires
        strictly_sorted(s),
        0 <= i < s.len(),
    ensures
        strictly_sorted(s.remove(i)),
        entries_map(s.remove(i)) == entries_map(s).remove(s[i].0),
{
    let t = s.remove(i);
    let gone = s[i].0;
    assert forall|a: int, b: int| 0 <= a < b < t.len() implies lex_lt(#[trigger] t[a].0, #[trigger] t[b].0) by {
        let a1 = if a < i { a } else { a + 1 };
        let b1 = if b < i { b } else { b + 1 };
        assert(t[a] == s[a1]);
        assert(t[b] == s[b1]);
    }
    assert forall|n: Seq<u8>| has_name(t, n) <==> (n != gone && has_name(s, n)) by {
        if has_name(t, n) {
            let k = index_of(t, n);
            assert(names_at(t, n, k));
            let k1 = if k < i { k } else { k + 1 };
            assert(names_at(s, n, k1));
            lemma_lex_irreflexive(n);
        }
        if n != gone && has_name(s, n) {
            let k = index_of(s, n);
            assert(names_at(s, n, k));
            if k < i {
                assert(names_at(t, n, k));
            } else {
                assert(names_at(t, n, k - 1));
            }
        }
    }
    assert forall|n: Seq<u8>| has_name(t, n) implies #[trigger] entries_map(t)[n] == entries_map(s)[n] by {
        let k = index_of(t, n);
        assert(names_at(t, n, k));
        lemma_map_at(t, k);
        let k1 = if k < i { k } else { k + 1 };
        lemma_map_at(s, k1);
    }
    assert(entries_map(t) =~= entries_map(s).remove(gone));
}

/// A list without an entry of some name has no such name in its map.
pub proof fn lemma_absent<T>(s: Seq<(Seq<u8>, T)>, n: Seq<u8>)
    requires
        !has_name(s, n),
    ensures
        !entries_map(s).dom().contains(n),
        entries_map(s).remove(n) == entries_map(s),
{
    assert(entries_map(s).remove(n) =~= entries_map(s));
}

/// Puts `value` under `name` in the sorted list, in place of what the name
/// held before, if anything.
pub(crate) fn put_entry<T>(es: &mut Vec<(PathElement, T)>, name: PathElement, value: T)
    requires
        strictly_sorted(names_view(old(es)@)),
    ensures
        strictly_sorted(names_view(final(es)@)),
        entries_map(names_view(final(es)@)) == entries_map(names_view(old(es)@)).insert(
            name@,
            value,
        ),
{
    let (pos, found) = position(es, &name);
    let ghost s0 = names_view(es@);
    if found {
        es.remove(pos);
        proof {
            lemma_remove_sorted(s0, pos as int);
            assert(names_view(es@) =~= s0.remove(pos as int));
        }
    }
    let ghost s1 = names_view(es@);
    let ghost e = (name@, value);
    proof {
        assert forall|k: int| pos <= k < s1.len() implies lex_lt(e.0, #[trigger] s1[k].0) by {
            if found {
                assert(s1[k] == s0[k + 1]);
            } else {
                assert(s1[k] == s0[k]);
                if !lex_lt(e.0, s1[k].0) {
                    lemma_lex_total(e.0, s1[k].0);
                    assert(names_at(s0, e.0, k));
                }
            }
        }
        assert forall|k: int| 0 <= k < pos implies lex_lt(#[trigger] s1[k].0, e.0) by {
            assert(s1[k] == s0[k]);
        }
        lemma_insert_sorted(s1, pos as int, e);
        if !found {
            lemma_absent(s0, e.0);
        }
        assert(entries_map(s0).remove(e.0).insert(e.0, e.1) =~= entries_map(s0).insert(e.0, e.1));
    }
    es.insert(pos, (name, value));
    proof {
        assert(names_view(es@) =~= s1.insert(pos as int, e));
    }
}

/// Takes the entry named `name` out of the sorted list, if there is one.
pub(crate) fn remove_entry<T>(es: &mut Vec<(PathElement, T)>, name: &PathElement)
    requires
        strictly_sorted(names_view(old(es)@)),
    ensures
        strictly_sorted(names_view(final(es)@)),
        entries_map(names_view(final(es)@)) == entries_map(names_view(old(es)@)).remove(name@),
{
    let (pos, found) = position(es, name);
    let ghost s0 = names_view(es@);
    if found {
        es.remove(pos);
        proof {
            lemma_remove_sorted(s0, pos as int);
            assert(names_view(es@) =~= s0.remove(pos as int));
        }
    } else {
        proof {
            lemma_absent(s0, name@);
        }
    }
}

} // verus!
