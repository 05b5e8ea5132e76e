//! A tree keyed by path elements, with an optional value at each node.

use vstd::prelude::*;
use crate::entries::{entries_map, has_name, index_of, lemma_absent, lemma_absent_all, lemma_insert_sorted, lemma_map_at, lemma_remove_sorted, lemma_sorted_entries, names_at, names_view, position, sorted_entries, strictly_sorted};
use crate::path::{elements_view, lemma_lex_total, lex_lt, MPath};
use crate::path::PathElement;

verus! {

/// What a tree holds: the value at its root, if there is one, and the trees
/// below it by name, in the lexicographic byte order of the names.
pub struct TreeView<V> {
    pub value: Option<V>,
    pub children: Seq<(Seq<u8>, TreeView<V>)>,
}

/// The number of nodes on the longest way down a tree.
pub open spec fn tree_height<V>(t: TreeView<V>) -> nat
    decreases t,
{
    1 + children_height(t.children)
}

/// The height of the highest of the trees `cs`.
pub open spec fn children_height<V>(cs: Seq<(Seq<u8>, TreeView<V>)>) -> nat
    decreases cs,
{
    if cs.len() == 0 {
        0
    } else {
        let rest = children_height(cs.drop_last());
        let last = tree_height(cs.last().1);
        if rest < last {
            last
        } else {
            rest
        }
    }
}

/// The height of a tree that may be absent: an absent tree has height 0.
pub open spec fn opt_height<V>(t: Option<TreeView<V>>) -> nat {
    match t {
        Some(t) => tree_height(t),
        None => 0,
    }
}

/// A tree is higher than each tree below it.
pub proof fn lemma_child_height<V>(cs: Seq<(Seq<u8>, TreeView<V>)>, i: int)
    requires
        0 <= i < cs.len(),
    ensures
        tree_height(cs[i].1) <= children_height(cs),
    decreases cs.len(),
{
    if i < cs.len() - 1 {
        lemma_child_height(cs.drop_last(), i);
    }
}

/// A tree of one node without a value.
pub open spec fn empty_tree<V>() -> TreeView<V> {
    TreeView { value: None, children: Seq::empty() }
}

/// The tree below the root under `name`; where there is none, a tree of
/// one node without a value.
pub open spec fn child_tree<V>(t: TreeView<V>, name: Seq<u8>) -> TreeView<V> {
    if has_name(t.children, name) {
        t.children[index_of(t.children, name)].1
    } else {
        empty_tree()
    }
}

/// The tree `t` with the value `v` at `path`: the nodes on the way are
/// made where they are missing, and a value that was at `path` gives way.
pub open spec fn tree_insert<V>(t: TreeView<V>, path: Seq<Seq<u8>>, v: V) -> TreeView<V>
    decreases path.len(),
{
    if path.len() == 0 {
        TreeView { value: Some(v), children: t.children }
    } else {
        let below = tree_insert(child_tree(t, path[0]), path.drop_first(), v);
        TreeView { value: t.value, children: sorted_entries(entries_map(t.children).insert(path[0], below)) }
    }
}

/// The tree that holds each of the values at its path; of two values at
/// one path the later one stays.
pub open spec fn tree_from_pairs<V>(pairs: Seq<(Seq<Seq<u8>>, V)>) -> TreeView<V>
    decreases pairs.len(),
{
    if pairs.len() == 0 {
        empty_tree()
    } else {
        tree_insert(tree_from_pairs(pairs.drop_last()), pairs.last().0, pairs.last().1)
    }
}

/// The views of a list of paths with values.
pub open spec fn pairs_view<V>(v: Seq<(MPath, V)>) -> Seq<(Seq<Seq<u8>>, V)> {
    v.map_values(|p: (MPath, V)| (p.0@, p.1))
}

/// A tree keyed by path elements. Each node may hold a value, and has its
/// subtrees sorted by name, each name once.
#[derive(Debug, PartialEq, Eq)]
pub struct PathTree<V> {
    value: Option<V>,
    subentries: Vec<(PathElement, PathTree<V>)>,
}

impl<V> View for PathTree<V> {
    type V = TreeView<V>;

    closed spec fn view(&self) -> TreeView<V>
        decreases self,
    {
        TreeView { value: self.value, children: children_view(self.subentries@) }
    }
}

/// The views of a list of named trees.
pub closed spec fn children_view<V>(s: Seq<(PathElement, PathTree<V>)>) -> Seq<(Seq<u8>, TreeView<V>)>
    decreases s,
{
    if s.len() == 0 {
        Seq::empty()
    } else {
        children_view(s.drop_last()).push((s.last().0@, s.last().1@))
    }
}

proof fn lemma_children_view<V>(s: Seq<(PathElement, PathTree<V>)>)
    ensures
        children_view(s).len() == s.len(),
        forall|i: int| 0 <= i < s.len() ==> #[trigger] children_view(s)[i] == (s[i].0@, s[i].1@),
    decreases s.len(),
{
    if s.len() > 0 {
        lemma_children_view(s.drop_last());
        assert(children_view(s) == children_view(s.drop_last()).push((s.last().0@, s.last().1@)));
        assert(children_view(s.drop_last()).len() == s.len() - 1);
    } else {
        assert(children_view(s) == Seq::<(Seq<u8>, TreeView<V>)>::empty());
    }
}

/// The names of a list of trees are the names of its views.
proof fn lemma_names_sorted<V>(s: Seq<(PathElement, PathTree<V>)>)
    ensures
        strictly_sorted(names_view(s)) <==> strictly_sorted(children_view(s)),
{
    lemma_children_view(s);
    let a = names_view(s);
    let b = children_view(s);
    if strictly_sorted(a) {
        assert forall|i: int, j: int| 0 <= i < j < b.len() implies lex_lt(#[trigger] b[i].0, #[trigger] b[j].0) by {
            assert(a[i].0 == b[i].0 && a[j].0 == b[j].0);
        }
    }
    if strictly_sorted(b) {
        assert forall|i: int, j: int| 0 <= i < j < a.len() implies lex_lt(#[trigger] a[i].0, #[trigger] a[j].0) by {
            assert(a[i].0 == b[i].0 && a[j].0 == b[j].0);
        }
    }
}

proof fn lemma_names_at<V>(s: Seq<(PathElement, PathTree<V>)>, n: Seq<u8>, i: int)
    ensures
        names_at(names_view(s), n, i) <==> names_at(children_view(s), n, i),
{
    lemma_children_view(s);
}

proof fn lemma_names_has<V>(s: Seq<(PathElement, PathTree<V>)>, n: Seq<u8>)
    ensures
        has_name(names_view(s), n) <==> has_name(children_view(s), n),
{
    if has_name(names_view(s), n) {
        let i = index_of(names_view(s), n);
        lemma_names_at(s, n, i);
    }
    if has_name(children_view(s), n) {
        let i = index_of(children_view(s), n);
        lemma_names_at(s, n, i);
    }
}

impl<V> PathTree<V> {
    #[verifier::type_invariant]
    spec fn inv(self) -> bool {
        strictly_sorted(self@.children)
    }

    /// A tree of one node without a value.
    pub fn new() -> (t: PathTree<V>)
        ensures
            t@ == empty_tree::<V>(),
    {
        let t = PathTree { value: None, subentries: Vec::new() };
        proof {
            lemma_children_view(t.subentries@);
            lemma_absent_all(t@.children);
            assert(t@.children =~= Seq::empty());
        }
        t
    }

    /// The tree with `value` at the path made of the elements of `path`
    /// from the index `from` on.
    fn insert_from(self, path: &Vec<PathElement>, from: usize, value: V) -> (r: PathTree<V>)
        requires
            from <= path.len(),
        ensures
            r@ == tree_insert(self@, elements_view(path@).skip(from as int), value),
        decreases path.len() - from,
    {
        proof {
            use_type_invariant(&self);
            lemma_children_view(self.subentries@);
        }
        let ghost t = self@;
        let ghost rest = elements_view(path@).skip(from as int);
        assert(t.children == children_view(self.subentries@));
        if from == path.len() {
            let r = PathTree { value: Some(value), subentries: self.subentries };
            proof {
                assert(rest.len() == 0);
            }
            return r;
        }
        let PathTree { value: old_value, subentries: mut subs } = self;
        let ghost s0 = subs@;
        let ghost c0 = children_view(s0);
        let ghost name = path@[from as int]@;
        proof {
            assert(rest[0] == name);
            assert(rest.drop_first() =~= elements_view(path@).skip(from + 1));
            lemma_names_sorted(s0);
        }
        let (pos, found) = position(&subs, &path[from]);
        proof {
            lemma_names_has(s0, name);
        }
        let child = if found {
            proof {
                lemma_names_at(s0, name, pos as int);
                lemma_map_at(c0, pos as int);
                lemma_remove_sorted(c0, pos as int);
            }
            let (_, c) = subs.remove(pos);
            proof {
                lemma_children_view(subs@);
                assert(children_view(subs@) =~= c0.remove(pos as int));
            }
            c
        } else {
            proof {
                lemma_absent(c0, name);
            }
            PathTree::new()
        };
        proof {
            if found {
                assert(has_name(c0, name));
                assert(index_of(c0, name) == pos);
            }
        }
        assert(child@ == child_tree(t, name));
        let ghost s1 = subs@;
        let ghost c1 = children_view(s1);
        let below = child.insert_from(path, from + 1, value);
        let ghost e = (name, below@);
        proof {
            lemma_children_view(s1);
            lemma_names_sorted(s1);
            assert forall|k: int| 0 <= k < pos implies lex_lt(#[trigger] c1[k].0, name) by {
                assert(c1[k].0 == names_view(s0)[k].0);
            }
            assert forall|k: int| pos <= k < c1.len() implies lex_lt(name, #[trigger] c1[k].0) by {
                if found {
                    assert(c1[k] == c0[k + 1]);
                    assert(c0[pos as int].0 == name);
                } else {
                    assert(c1[k] == c0[k]);
                    assert(c0[k].0 == names_view(s0)[k].0);
                    if !lex_lt(name, c1[k].0) {
                        lemma_lex_total(name, c1[k].0);
                        assert(names_at(names_view(s0), name, k));
                    }
                }
            }
            lemma_insert_sorted(c1, pos as int, e);
            assert(entries_map(c0).remove(name).insert(name, below@) =~= entries_map(c0).insert(name, below@));
            lemma_sorted_entries(c1.insert(pos as int, e));
        }
        subs.insert(pos, (path[from].clone(), below));
        proof {
            lemma_children_view(subs@);
            assert(children_view(subs@) =~= c1.insert(pos as int, e));
        }
        PathTree { value: old_value, subentries: subs }
    }

    /// The tree with `value` at `path`: the nodes on the way are made
    /// where they are missing, and a value that was at `path` gives way.
    pub fn insert(self, path: &MPath, value: V) -> (r: PathTree<V>)
        ensures
            r@ == tree_insert(self@, path@, value),
    {
        assert(path@.skip(0) =~= path@);
        self.insert_from(&path.elements, 0, value)
    }

    /// The tree that holds each of the values at its path; of two values
    /// at one path the later one stays.
    pub fn from_iter(pairs: Vec<(MPath, V)>) -> (r: PathTree<V>)
        ensures
            r@ == tree_from_pairs(pairs_view(pairs@)),
    {
        let ghost pv = pairs_view(pairs@);
        let mut tree: PathTree<V> = PathTree::new();
        proof {
            assert(pv.take(0) =~= Seq::empty());
        }
        for pair in it: pairs.into_iter()
            invariant
                pv == pairs_view(pairs@),
                it.seq() == pairs@,
                tree@ == tree_from_pairs(pv.take(it.index() as int)),
        {
            proof {
                let i = it.index() as int;
                assert(pv.take(i + 1).drop_last() =~= pv.take(i));
                assert(pv.take(i + 1).last() == pv[i]);
            }
            let (path, value) = pair;
            tree = tree.insert(&path, value);
        }
        assert(pv.take(pv.len() as int) =~= pv);
        tree
    }

    /// The value at the root of the tree.
    pub fn value(&self) -> (v: &Option<V>)
        ensures
            *v == self@.value,
    {
        &self.value
    }

    /// How many trees stand below the root.
    pub fn len(&self) -> (n: usize)
        ensures
            n == self@.children.len(),
            strictly_sorted(self@.children),
    {
        proof {
            use_type_invariant(self);
            lemma_children_view(self.subentries@);
        }
        self.subentries.len()
    }

    /// The name of the `i`-th tree below the root.
    pub fn name(&self, i: usize) -> (n: &PathElement)
        requires
            i < self@.children.len(),
        ensures
            n@ == self@.children[i as int].0,
    {
        proof {
            lemma_children_view(self.subentries@);
        }
        &self.subentries[i].0
    }

    /// The `i`-th tree below the root.
    pub fn child(&self, i: usize) -> (t: &PathTree<V>)
        requires
            i < self@.children.len(),
        ensures
            t@ == self@.children[i as int].1,
    {
        proof {
            lemma_children_view(self.subentries@);
        }
        &self.subentries[i].1
    }
}

} // verus!
