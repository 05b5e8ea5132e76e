//! The first half of the visit of a node: what happens to the node, and
//! which nodes below it are visited.

use vstd::prelude::*;
use crate::changes::PathChange;
use crate::derive::{DeletedManifestDeriver, DeriveError};
use crate::entries::{entries_map, has_name, index_of, lemma_absent_all, lemma_map_at, lemma_sorted_entries, names_at, names_view, position, put_entry, sorted_entries, strictly_sorted};
use crate::hash::ManifestId;
use crate::manifest::{DeletedManifest, ManifestView};
use crate::path::{lex_lt, PathElement};
use crate::path_tree::{PathTree, TreeView};

verus! {

/// What the derivation does with a node.
#[derive(Clone, Copy, Debug, PartialEq, Eq, Structural)]
pub enum DeletedManifestChangeType {
    /// The path was deleted: a node is made for it, with the changeset as
    /// its linknode.
    CreateDeleted,
    /// The path exists: a node is kept for it only if something below it
    /// is still deleted.
    RemoveIfNowEmpty,
    /// Nothing changed at the path or below it, and at most one parent has
    /// a node for it: that node, if any, is taken as it is.
    Reuse,
}

/// The decision taken at a node before the nodes below it are visited.
pub struct DeletedManifestChange {
    /// What happens to the node.
    pub change_type: DeletedManifestChangeType,
    /// The parent's node whose subentries the new node starts from.
    pub copy_subentries_from: Option<DeletedManifest>,
}

/// A node that the derivation has yet to visit.
pub struct DeletedManifestUnfoldNode<'a> {
    /// The name of the node under the node above it; `None` at the root.
    pub path_element: Option<PathElement>,
    /// The changes at the node's path and below it, if there are any.
    pub changes: Option<&'a PathTree<PathChange>>,
    /// The parents' nodes for the path, each once.
    pub parents: Vec<ManifestId>,
}

/// A node to visit, without its name.
pub struct UnfoldView {
    pub changes: Option<TreeView<PathChange>>,
    pub parents: Seq<ManifestId>,
}

/// The view of a tree that may be absent.
pub open spec fn opt_tree_view(t: Option<&PathTree<PathChange>>) -> Option<TreeView<PathChange>> {
    match t {
        Some(t) => Some(t@),
        None => None,
    }
}

/// The change at the root of a tree of changes: none where the tree is
/// absent.
pub open spec fn change_at(t: Option<TreeView<PathChange>>) -> Option<PathChange> {
    match t {
        Some(t) => t.value,
        None => None,
    }
}

/// The trees of changes below the root: none where the tree is absent.
pub open spec fn changes_below(t: Option<TreeView<PathChange>>) -> Seq<(Seq<u8>, TreeView<PathChange>)> {
    match t {
        Some(t) => t.children,
        None => Seq::empty(),
    }
}

/// The name and the view of a node to visit.
pub open spec fn node_view(n: DeletedManifestUnfoldNode) -> (Seq<u8>, UnfoldView) {
    (
        match n.path_element {
            Some(p) => p@,
            None => Seq::empty(),
        },
        UnfoldView { changes: opt_tree_view(n.changes), parents: n.parents@ },
    )
}

/// The names and views of a list of nodes to visit.
pub open spec fn node_views(v: Seq<DeletedManifestUnfoldNode>) -> Seq<(Seq<u8>, UnfoldView)> {
    v.map_values(|n: DeletedManifestUnfoldNode| node_view(n))
}

/// The views of a list of manifest nodes.
pub open spec fn manifest_views(v: Seq<DeletedManifest>) -> Seq<ManifestView> {
    v.map_values(|m: DeletedManifest| m@)
}

/// The parents' nodes are all deleted, or all not.
pub open spec fn parents_agree(ps: Seq<ManifestView>) -> bool {
    forall|i: int| 0 <= i < ps.len() ==> (#[trigger] ps[i]).is_deleted() == ps[0].is_deleted()
}

/// What happens to a node, given the change at its path, whether there
/// are changes below it, and the parents' nodes for the path. `None`
/// where the parents disagree and nothing decides between them.
pub open spec fn change_type_of(change: Option<PathChange>, has_sub: bool, ps: Seq<ManifestView>) -> Option<
    DeletedManifestChangeType,
> {
    match change {
        None => if has_sub {
            Some(DeletedManifestChangeType::RemoveIfNowEmpty)
        } else if ps.len() <= 1 {
            Some(DeletedManifestChangeType::Reuse)
        } else if !parents_agree(ps) {
            None
        } else if ps[0].is_deleted() {
            Some(DeletedManifestChangeType::CreateDeleted)
        } else {
            Some(DeletedManifestChangeType::RemoveIfNowEmpty)
        },
        Some(PathChange::Add) => Some(DeletedManifestChangeType::RemoveIfNowEmpty),
        Some(PathChange::Remove) => Some(DeletedManifestChangeType::CreateDeleted),
        Some(PathChange::FileDirConflict) => Some(DeletedManifestChangeType::RemoveIfNowEmpty),
    }
}

/// The parent's node whose subentries a new node starts from: the only
/// parent's, where there is exactly one.
pub open spec fn base_of(ps: Seq<ManifestView>) -> Option<ManifestView> {
    if ps.len() == 1 {
        Some(ps[0])
    } else {
        None
    }
}

/// One of the parents' nodes has a subentry named `n`.
pub open spec fn in_some_parent(ps: Seq<ManifestView>, n: Seq<u8>) -> bool {
    exists|i: int| 0 <= i < ps.len() && (#[trigger] ps[i]).subentries.dom().contains(n)
}

/// The nodes that the parents' nodes have under the name `n`, each once,
/// in the order of the parents.
pub open spec fn child_parents(ps: Seq<ManifestView>, n: Seq<u8>) -> Seq<ManifestId>
    decreases ps.len(),
{
    if ps.len() == 0 {
        Seq::empty()
    } else {
        let rest = child_parents(ps.drop_last(), n);
        let p = ps.last();
        if p.subentries.dom().contains(n) && !rest.contains(p.subentries[n]) {
            rest.push(p.subentries[n])
        } else {
            rest
        }
    }
}

/// Whether the node named `n` below a node is visited: it is where there
/// are changes under that name, and, with several parents, where one of
/// them has a subentry of that name.
pub open spec fn is_kid(sub: Seq<(Seq<u8>, TreeView<PathChange>)>, ps: Seq<ManifestView>, n: Seq<u8>) -> bool {
    has_name(sub, n) || (ps.len() >= 2 && in_some_parent(ps, n))
}

/// The node to visit under the name `n`.
pub open spec fn kid_of(sub: Seq<(Seq<u8>, TreeView<PathChange>)>, ps: Seq<ManifestView>, n: Seq<u8>) -> UnfoldView {
    UnfoldView {
        changes: if has_name(sub, n) {
            Some(sub[index_of(sub, n)].1)
        } else {
            None
        },
        parents: child_parents(ps, n),
    }
}

/// The nodes to visit below a node, by name.
pub open spec fn kids_map(sub: Seq<(Seq<u8>, TreeView<PathChange>)>, ps: Seq<ManifestView>) -> Map<
    Seq<u8>,
    UnfoldView,
> {
    Map::new(|n: Seq<u8>| is_kid(sub, ps, n), |n: Seq<u8>| kid_of(sub, ps, n))
}

/// The nodes to visit below a node, in the order of their names.
pub open spec fn kids_of(sub: Seq<(Seq<u8>, TreeView<PathChange>)>, ps: Seq<ManifestView>) -> Seq<
    (Seq<u8>, UnfoldView),
> {
    sorted_entries(kids_map(sub, ps))
}

/// Whether the parents' nodes are all deleted or all not. `None` where
/// they are not, `Some(false)` where there is no parent.
pub fn check_consistency(manifests: &Vec<DeletedManifest>) -> (r: Option<bool>)
    ensures
        r is Some <==> parents_agree(manifest_views(manifests@)),
        r matches Some(b) ==> b == (manifests.len() > 0 && manifests[0]@.is_deleted()),
{
    let ghost ps = manifest_views(manifests@);
    if manifests.len() == 0 {
        return Some(false);
    }
    let status = manifests[0].is_deleted();
    let mut i: usize = 1;
    while i < manifests.len()
        invariant
            1 <= i <= manifests.len(),
            ps == manifest_views(manifests@),
            status == ps[0].is_deleted(),
            forall|k: int| 0 <= k < i ==> (#[trigger] ps[k]).is_deleted() == status,
        decreases manifests.len() - i,
    {
        if manifests[i].is_deleted() != status {
            assert(ps[i as int].is_deleted() != ps[0].is_deleted());
            return None;
        }
        i += 1;
    }
    Some(status)
}

/// Whether `v` holds `id`.
pub fn holds_id(v: &Vec<ManifestId>, id: ManifestId) -> (r: bool)
    ensures
        r == v@.contains(id),
{
    let mut i: usize = 0;
    while i < v.len()
        invariant
            i <= v.len(),
            forall|k: int| 0 <= k < i ==> v@[k] != id,
        decreases v.len() - i,
    {
        if v[i] == id {
            return true;
        }
        i += 1;
    }
    false
}

/// The nodes that the parents' nodes have under `name`, each once.
pub fn gather_parents(manifests: &Vec<DeletedManifest>, name: &PathElement) -> (r: Vec<ManifestId>)
    ensures
        r@ == child_parents(manifest_views(manifests@), name@),
{
    let ghost ps = manifest_views(manifests@);
    let mut out: Vec<ManifestId> = Vec::new();
    let mut i: usize = 0;
    proof {
        assert(ps.take(0) =~= Seq::empty());
    }
    while i < manifests.len()
        invariant
            i <= manifests.len(),
            ps == manifest_views(manifests@),
            out@ == child_parents(ps.take(i as int), name@),
        decreases manifests.len() - i,
    {
        proof {
            assert(ps.take(i + 1).drop_last() =~= ps.take(i as int));
            assert(ps.take(i + 1).last() == ps[i as int]);
        }
        match manifests[i].lookup(name) {
            Some(id) => {
                if !holds_id(&out, id) {
                    out.push(id);
                }
            },
            None => {},
        }
        i += 1;
    }
    assert(ps.take(i as int) =~= ps);
    out
}

/// One of the first `i` of the parents' nodes has a subentry named `n`.
pub open spec fn seen(ps: Seq<ManifestView>, i: int, n: Seq<u8>) -> bool {
    exists|k: int| 0 <= k < i && k < ps.len() && (#[trigger] ps[k]).subentries.dom().contains(n)
}

/// One of the first `j` entries of `es` is named `n`.
pub open spec fn seen_in(es: Seq<(Seq<u8>, ManifestId)>, j: int, n: Seq<u8>) -> bool {
    exists|k: int| 0 <= k < j && names_at(es, n, k)
}

/// The names in `m` are those of the changes in `sub`, of the subentries
/// of the first `i` parents, and of the first `j` entries of `es`, as far
/// as the name `n` goes.
pub open spec fn covers(
    m: Map<Seq<u8>, Option<usize>>,
    sub: Seq<(Seq<u8>, TreeView<PathChange>)>,
    ps: Seq<ManifestView>,
    i: int,
    es: Seq<(Seq<u8>, ManifestId)>,
    j: int,
    n: Seq<u8>,
) -> bool {
    m.dom().contains(n) <==> (has_name(sub, n) || seen(ps, i, n) || seen_in(es, j, n))
}

/// What the list of names holds for each name: the place of the changes
/// under that name, if there are any.
pub open spec fn names_ok(
    m: Map<Seq<u8>, Option<usize>>,
    sub: Seq<(Seq<u8>, TreeView<PathChange>)>,
) -> bool {
    forall|n: Seq<u8>| #[trigger]
        m.dom().contains(n) ==> match m[n] {
            Some(x) => names_at(sub, n, x as int),
            None => !has_name(sub, n),
        }
}

/// The names of the nodes to visit below a node, sorted, each with the
/// place of the changes under that name, if there are any.
fn kid_names(changes: Option<&PathTree<PathChange>>, parent_manifests: &Vec<DeletedManifest>) -> (names: Vec<
    (PathElement, Option<usize>),
>)
    ensures
        strictly_sorted(names_view(names@)),
        forall|n: Seq<u8>|
            entries_map(names_view(names@)).dom().contains(n) <==> is_kid(
                changes_below(opt_tree_view(changes)),
                manifest_views(parent_manifests@),
                n,
            ),
        names_ok(entries_map(names_view(names@)), changes_below(opt_tree_view(changes))),
{
    let ghost sub = changes_below(opt_tree_view(changes));
    let ghost ps = manifest_views(parent_manifests@);
    let mut names: Vec<(PathElement, Option<usize>)> = Vec::new();
    match changes {
        Some(t) => {
            let n_sub = t.len();
            let mut i: usize = 0;
            while i < n_sub
                invariant
                    i <= n_sub,
                    n_sub == sub.len(),
                    sub == t@.children,
                    strictly_sorted(sub),
                    names.len() == i,
                    forall|k: int| 0 <= k < i ==> #[trigger] names_view(names@)[k] == (sub[k].0, Some(k as usize)),
                decreases n_sub - i,
            {
                let name = t.name(i).clone();
                let ghost before = names_view(names@);
                names.push((name, Some(i)));
                assert(names_view(names@) =~= before.push((sub[i as int].0, Some(i))));
                i += 1;
            }
        },
        None => {},
    }
    proof {
        let nv = names_view(names@);
        assert(nv.len() == sub.len());
        assert forall|a: int, b: int| 0 <= a < b < nv.len() implies lex_lt(
            #[trigger] nv[a].0,
            #[trigger] nv[b].0,
        ) by {
            assert(nv[a].0 == sub[a].0);
            assert(nv[b].0 == sub[b].0);
        }
        assert forall|n: Seq<u8>| has_name(nv, n) <==> has_name(sub, n) by {
            if has_name(nv, n) {
                let k = index_of(nv, n);
                assert(names_at(nv, n, k));
                assert(names_at(sub, n, k));
            }
            if has_name(sub, n) {
                let k = index_of(sub, n);
                assert(names_at(sub, n, k));
                assert(names_at(nv, n, k));
            }
        }
        assert forall|n: Seq<u8>| #[trigger] entries_map(nv).dom().contains(n) implies match entries_map(nv)[n] {
            Some(x) => names_at(sub, n, x as int),
            None => !has_name(sub, n),
        } by {
            let k = index_of(nv, n);
            assert(names_at(nv, n, k));
            lemma_map_at(nv, k);
        }
    }
    let ghost none: Seq<(Seq<u8>, ManifestId)> = Seq::empty();
    proof {
        let m = entries_map(names_view(names@));
        assert forall|n: Seq<u8>| #[trigger] covers(m, sub, ps, 0, none, 0, n) by {
            assert(m.dom().contains(n) <==> has_name(names_view(names@), n));
        }
    }
    if parent_manifests.len() >= 2 {
        let mut i: usize = 0;
        while i < parent_manifests.len()
            invariant
                i <= parent_manifests.len(),
                ps == manifest_views(parent_manifests@),
                none.len() == 0,
                strictly_sorted(names_view(names@)),
                forall|n: Seq<u8>| #[trigger] covers(entries_map(names_view(names@)), sub, ps, i as int, none, 0, n),
                names_ok(entries_map(names_view(names@)), sub),
            decreases parent_manifests.len() - i,
        {
            let entries = parent_manifests[i].subentries();
            let ghost es = names_view(entries@);
            let mut j: usize = 0;
            proof {
                let m = entries_map(names_view(names@));
                assert forall|n: Seq<u8>| #[trigger] covers(m, sub, ps, i as int, es, 0, n) by {
                    assert(covers(m, sub, ps, i as int, none, 0, n));
                }
            }
            while j < entries.len()
                invariant
                    j <= entries.len(),
                    i < parent_manifests.len(),
                    ps == manifest_views(parent_manifests@),
                    es == names_view(entries@),
                    strictly_sorted(names_view(names@)),
                    forall|n: Seq<u8>| #[trigger]
                        covers(entries_map(names_view(names@)), sub, ps, i as int, es, j as int, n),
                    names_ok(entries_map(names_view(names@)), sub),
                decreases entries.len() - j,
            {
                let (_, found) = position(&names, &entries[j].0);
                let ghost before = entries_map(names_view(names@));
                let ghost name = es[j as int].0;
                assert(name == entries@[j as int].0@);
                assert(found <==> before.dom().contains(name));
                assert(covers(before, sub, ps, i as int, es, j as int, name));
                if !found {
                    put_entry(&mut names, entries[j].0.clone(), None);
                }
                proof {
                    let after = entries_map(names_view(names@));
                    assert(after.dom() =~= before.dom().insert(name));
                    assert(names_at(es, name, j as int));
                    assert forall|n: Seq<u8>| #[trigger] covers(after, sub, ps, i as int, es, j + 1, n) by {
                        assert(covers(before, sub, ps, i as int, es, j as int, n));
                        if seen_in(es, j + 1, n) {
                            let k = choose|k: int| 0 <= k < j + 1 && names_at(es, n, k);
                            if k < j {
                                assert(seen_in(es, j as int, n));
                            }
                        }
                        if seen_in(es, j as int, n) {
                            let k = choose|k: int| 0 <= k < j && names_at(es, n, k);
                            assert(0 <= k < j + 1 && names_at(es, n, k));
                        }
                    }
                    assert forall|n: Seq<u8>| #[trigger] after.dom().contains(n) implies match after[n] {
                        Some(x) => names_at(sub, n, x as int),
                        None => !has_name(sub, n),
                    } by {
                        if before.dom().contains(n) {
                            assert(after[n] == before[n]);
                        }
                    }
                }
                j += 1;
            }
            proof {
                let m = entries_map(names_view(names@));
                assert(ps[i as int] == parent_manifests@[i as int]@);
                assert forall|n: Seq<u8>| #[trigger] covers(m, sub, ps, i + 1, none, 0, n) by {
                    assert(covers(m, sub, ps, i as int, es, j as int, n));
                    if seen(ps, i + 1, n) {
                        let k = choose|k: int| 0 <= k < i + 1 && k < ps.len() && (#[trigger] ps[k]).subentries.dom().contains(n);
                        if k == i {
                            let x = index_of(es, n);
                            assert(names_at(es, n, x));
                            assert(0 <= x < j && names_at(es, n, x));
                        } else {
                            assert(0 <= k < i && k < ps.len() && ps[k].subentries.dom().contains(n));
                        }
                    }
                    if seen_in(es, j as int, n) {
                        let k = choose|k: int| 0 <= k < j && names_at(es, n, k);
                        assert(names_at(es, n, k));
                        assert(ps[i as int].subentries.dom().contains(n));
                    }
                    if seen(ps, i as int, n) {
                        let k = choose|k: int| 0 <= k < i && k < ps.len() && (#[trigger] ps[k]).subentries.dom().contains(n);
                        assert(0 <= k < i + 1 && k < ps.len() && ps[k].subentries.dom().contains(n));
                    }
                }
            }
            i += 1;
        }
    }
    proof {
        let m = entries_map(names_view(names@));
        assert forall|n: Seq<u8>| m.dom().contains(n) <==> is_kid(sub, ps, n) by {
            if parent_manifests.len() >= 2 {
                assert(covers(m, sub, ps, ps.len() as int, none, 0, n));
                if seen(ps, ps.len() as int, n) {
                    let k = choose|k: int| 0 <= k < ps.len() && k < ps.len() && (#[trigger] ps[k]).subentries.dom().contains(n);
                    assert(ps[k].subentries.dom().contains(n));
                }
                if in_some_parent(ps, n) {
                    let k = choose|k: int| 0 <= k < ps.len() && (#[trigger] ps[k]).subentries.dom().contains(n);
                    assert(0 <= k < ps.len() && k < ps.len() && ps[k].subentries.dom().contains(n));
                }
            } else {
                assert(covers(m, sub, ps, 0, none, 0, n));
            }
        }
    }
    names
}

/// The view of a manifest node that may be absent.
pub open spec fn opt_manifest_view(m: Option<DeletedManifest>) -> Option<ManifestView> {
    match m {
        Some(m) => Some(m@),
        None => None,
    }
}

impl DeletedManifestDeriver {
    /// Decides what happens to a node and which nodes below it are visited,
    /// given the changes at the node's path and below it, and the parents'
    /// nodes for the path, each once.
    pub fn do_unfold<'a>(changes: Option<&'a PathTree<PathChange>>, parent_manifests: &Vec<DeletedManifest>) -> (r:
        Result<(DeletedManifestChange, Vec<DeletedManifestUnfoldNode<'a>>), DeriveError>)
        ensures
            match change_type_of(
                change_at(opt_tree_view(changes)),
                changes_below(opt_tree_view(changes)).len() > 0,
                manifest_views(parent_manifests@),
            ) {
                None => r matches Err(e) && e == DeriveError::InconsistentParents,
                Some(ct) => r matches Ok((change, kids)) && change.change_type == ct && opt_manifest_view(
                    change.copy_subentries_from,
                ) == base_of(manifest_views(parent_manifests@)) && node_views(kids@) == kids_of(
                    changes_below(opt_tree_view(changes)),
                    manifest_views(parent_manifests@),
                ) && forall|i: int| 0 <= i < kids.len() ==> (#[trigger] kids[i]).path_element is Some,
            },
            r matches Ok((change, kids)) ==> strictly_sorted(node_views(kids@)) && entries_map(node_views(kids@))
                == kids_map(changes_below(opt_tree_view(changes)), manifest_views(parent_manifests@)),
            strictly_sorted(changes_below(opt_tree_view(changes))),
    {
        proof {
            if changes is None {
                lemma_absent_all(changes_below(opt_tree_view(changes)));
            }
        }
        let ghost sub = changes_below(opt_tree_view(changes));
        let ghost ps = manifest_views(parent_manifests@);
        let n_sub: usize = match changes {
            Some(t) => t.len(),
            None => 0,
        };
        let change: Option<PathChange> = match changes {
            Some(t) => *t.value(),
            None => None,
        };
        let change_type = match change {
            None => {
                if n_sub > 0 {
                    DeletedManifestChangeType::RemoveIfNowEmpty
                } else if parent_manifests.len() <= 1 {
                    DeletedManifestChangeType::Reuse
                } else {
                    match check_consistency(parent_manifests) {
                        None => {
                            return Err(DeriveError::InconsistentParents);
                        },
                        Some(true) => DeletedManifestChangeType::CreateDeleted,
                        Some(false) => DeletedManifestChangeType::RemoveIfNowEmpty,
                    }
                }
            },
            Some(PathChange::Add) => DeletedManifestChangeType::RemoveIfNowEmpty,
            Some(PathChange::Remove) => DeletedManifestChangeType::CreateDeleted,
            Some(PathChange::FileDirConflict) => DeletedManifestChangeType::RemoveIfNowEmpty,
        };
        let copy_subentries_from = if parent_manifests.len() == 1 {
            Some(parent_manifests[0].clone())
        } else {
            None
        };
        let names = kid_names(changes, parent_manifests);
        let ghost nv = names_view(names@);
        let mut kids: Vec<DeletedManifestUnfoldNode<'a>> = Vec::new();
        let mut k: usize = 0;
        while k < names.len()
            invariant
                k <= names.len(),
                nv == names_view(names@),
                sub == changes_below(opt_tree_view(changes)),
                ps == manifest_views(parent_manifests@),
                strictly_sorted(nv),
                names_ok(entries_map(nv), sub),
                changes is Some ==> strictly_sorted(sub),
                kids.len() == k,
                forall|q: int| 0 <= q < k ==> (#[trigger] kids[q]).path_element is Some,
                forall|q: int| 0 <= q < k ==> #[trigger] node_views(kids@)[q] == (nv[q].0, kid_of(sub, ps, nv[q].0)),
            decreases names.len() - k,
        {
            let name = names[k].0.clone();
            let ghost n = nv[k as int].0;
            assert(n == names@[k as int].0@);
            proof {
                lemma_map_at(nv, k as int);
                assert(entries_map(nv).dom().contains(n));
            }
            let kid_changes: Option<&'a PathTree<PathChange>> = match names[k].1 {
                Some(x) => {
                    match changes {
                        Some(t) => {
                            proof {
                                assert(names_at(sub, n, x as int));
                                lemma_map_at(sub, x as int);
                            }
                            Some(t.child(x))
                        },
                        None => None,
                    }
                },
                None => None,
            };
            let parents = gather_parents(parent_manifests, &name);
            let ghost old_kids = node_views(kids@);
            kids.push(DeletedManifestUnfoldNode { path_element: Some(name), changes: kid_changes, parents });
            proof {
                assert(node_views(kids@) =~= old_kids.push(node_view(kids@[k as int])));
                assert(node_view(kids@[k as int]).1.changes == kid_of(sub, ps, n).changes);
            }
            k += 1;
        }
        proof {
            let kv = node_views(kids@);
            assert(kv.len() == nv.len());
            assert forall|a: int, b: int| 0 <= a < b < kv.len() implies lex_lt(
                #[trigger] kv[a].0,
                #[trigger] kv[b].0,
            ) by {
                assert(kv[a].0 == nv[a].0);
                assert(kv[b].0 == nv[b].0);
            }
            assert forall|n: Seq<u8>| has_name(kv, n) <==> has_name(nv, n) by {
                if has_name(kv, n) {
                    let x = index_of(kv, n);
                    assert(names_at(kv, n, x));
                    assert(names_at(nv, n, x));
                }
                if has_name(nv, n) {
                    let x = index_of(nv, n);
                    assert(names_at(nv, n, x));
                    assert(names_at(kv, n, x));
                }
            }
            assert forall|n: Seq<u8>| has_name(kv, n) implies #[trigger] entries_map(kv)[n] == kid_of(sub, ps, n) by {
                let x = index_of(kv, n);
                assert(names_at(kv, n, x));
                lemma_map_at(kv, x);
            }
            assert forall|n: Seq<u8>| entries_map(kv).dom().contains(n) <==> kids_map(sub, ps).dom().contains(n) by {
                assert(entries_map(nv).dom().contains(n) <==> is_kid(sub, ps, n));
            }
            assert(entries_map(kv) =~= kids_map(sub, ps));
            lemma_sorted_entries(kv);
        }
        Ok((DeletedManifestChange { change_type, copy_subentries_from }, kids))
    }
}

} // verus!
