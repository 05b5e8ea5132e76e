//! What holds of every derivation.

use vstd::prelude::*;
use vstd::set_lib::lemma_len_subset;
use crate::changes::PathChange;
use crate::derive::{all_present, all_saved, dedup, derive_kids, derive_made, derive_node, derived, kids_made, lemma_child_parents, lemma_dedup, lemma_kid_smaller, load_all, parents_rank, rank_of, root_made, smaller};
use crate::fold::{fold_result, folded_node};
use crate::unfold::{base_of, change_at, change_type_of, changes_below, parents_agree, child_parents, is_kid, kid_of, kids_map, kids_of, DeletedManifestChangeType, UnfoldView};
use crate::entries::{entries_map, has_name, index_of, lemma_map_at, lemma_map_finite, lemma_sorted_exists, names_at, strictly_sorted};
use crate::path::lex_lt;
use crate::hash::{ChangesetId, ManifestId};
use crate::manifest::{apply_updates, manifest_id, updated_view, ManifestView};
use crate::path_tree::{opt_height, TreeView};
use crate::store::{lemma_extends_load, store_at, store_extends, store_has, store_has_below, store_load, store_ok, store_rank, StoreView};

verus! {

/// All names that a node to visit below a node can have.
pub open spec fn names_bound(sub: Seq<(Seq<u8>, TreeView<PathChange>)>, ps: Seq<ManifestView>) -> Set<Seq<u8>>
    decreases ps.len(),
{
    if ps.len() == 0 {
        entries_map(sub).dom()
    } else {
        names_bound(sub, ps.drop_last()).union(ps.last().subentries.dom())
    }
}

proof fn lemma_names_bound(sub: Seq<(Seq<u8>, TreeView<PathChange>)>, ps: Seq<ManifestView>)
    requires
        forall|i: int| 0 <= i < ps.len() ==> (#[trigger] ps[i]).subentries.dom().finite(),
    ensures
        names_bound(sub, ps).finite(),
        forall|n: Seq<u8>| has_name(sub, n) ==> #[trigger] names_bound(sub, ps).contains(n),
        forall|i: int, n: Seq<u8>|
            0 <= i < ps.len() && (#[trigger] ps[i]).subentries.dom().contains(n) ==> #[trigger] names_bound(
                sub,
                ps,
            ).contains(n),
    decreases ps.len(),
{
    if ps.len() == 0 {
        lemma_map_finite(sub);
    } else {
        let rest = ps.drop_last();
        assert forall|i: int| 0 <= i < rest.len() implies (#[trigger] rest[i]).subentries.dom().finite() by {
            assert(rest[i] == ps[i]);
        }
        lemma_names_bound(sub, rest);
        assert(ps.last() == ps[ps.len() - 1]);
        assert forall|i: int, n: Seq<u8>|
            0 <= i < ps.len() && (#[trigger] ps[i]).subentries.dom().contains(n) implies #[trigger] names_bound(
            sub,
            ps,
        ).contains(n) by {
            if i < rest.len() {
                assert(rest[i] == ps[i]);
            }
        }
    }
}

/// Below a node there are finitely many nodes to visit, so they can be
/// listed in the order of their names.
pub proof fn lemma_kids_of(sub: Seq<(Seq<u8>, TreeView<PathChange>)>, ps: Seq<ManifestView>)
    requires
        forall|i: int| 0 <= i < ps.len() ==> (#[trigger] ps[i]).subentries.dom().finite(),
    ensures
        strictly_sorted(kids_of(sub, ps)),
        entries_map(kids_of(sub, ps)) == kids_map(sub, ps),
        forall|q: int|
            0 <= q < kids_of(sub, ps).len() ==> is_kid(sub, ps, (#[trigger] kids_of(sub, ps)[q]).0) && kids_of(
                sub,
                ps,
            )[q].1 == kid_of(sub, ps, kids_of(sub, ps)[q].0),
{
    lemma_names_bound(sub, ps);
    let dom = kids_map(sub, ps).dom();
    let bound = names_bound(sub, ps);
    assert forall|n: Seq<u8>| dom.contains(n) implies bound.contains(n) by {
        if has_name(sub, n) {
        } else {
            let i = choose|i: int| 0 <= i < ps.len() && (#[trigger] ps[i]).subentries.dom().contains(n);
            assert(ps[i].subentries.dom().contains(n));
        }
    }
    lemma_len_subset(dom, bound);
    lemma_sorted_exists(kids_map(sub, ps));
    let kids = kids_of(sub, ps);
    assert forall|q: int| 0 <= q < kids.len() implies is_kid(sub, ps, (#[trigger] kids[q]).0) && kids[q].1 == kid_of(
        sub,
        ps,
        kids[q].0,
    ) by {
        lemma_map_at(kids, q);
        assert(kids_map(sub, ps).dom().contains(kids[q].0));
    }
}

/// The nodes that a store holds under identifiers that it has are nodes
/// with finitely many subentries.
pub proof fn lemma_loaded_finite(s: StoreView, ids: Seq<ManifestId>)
    requires
        store_ok(s),
        all_present(s, ids),
    ensures
        forall|i: int| 0 <= i < ids.len() ==> (#[trigger] load_all(s, ids)[i]).subentries.dom().finite(),
{
    assert forall|i: int| 0 <= i < ids.len() implies (#[trigger] load_all(s, ids)[i]).subentries.dom().finite() by {
        assert(store_has(s, ids[i]));
        let k = store_rank(s, ids[i]);
        assert(store_at(s, ids[i], k));
        assert(s[k].1.subentries.dom().finite());
    }
}

/// What holds of each node to visit below a node: its parents are nodes
/// of the store, and it lies deeper.
pub proof fn lemma_kids_facts(
    s: StoreView,
    changes: Option<TreeView<PathChange>>,
    parents: Seq<ManifestId>,
)
    requires
        store_ok(s),
        all_present(s, parents),
    ensures
        ({
            let sub = changes_below(changes);
            let ps = load_all(s, parents);
            let kids = kids_of(sub, ps);
            &&& strictly_sorted(kids)
            &&& entries_map(kids) == kids_map(sub, ps)
            &&& forall|q: int|
                0 <= q < kids.len() ==> {
                    &&& is_kid(sub, ps, (#[trigger] kids[q]).0)
                    &&& kids[q].1 == kid_of(sub, ps, kids[q].0)
                    &&& all_present(s, kids[q].1.parents)
                    &&& smaller(s, kids[q].1, parents_rank(s, parents), opt_height(changes))
                }
        }),
{
    let sub = changes_below(changes);
    let ps = load_all(s, parents);
    let kids = kids_of(sub, ps);
    lemma_loaded_finite(s, parents);
    lemma_kids_of(sub, ps);
    assert forall|q: int| 0 <= q < kids.len() implies {
        &&& is_kid(sub, ps, (#[trigger] kids[q]).0)
        &&& kids[q].1 == kid_of(sub, ps, kids[q].0)
        &&& all_present(s, kids[q].1.parents)
        &&& smaller(s, kids[q].1, parents_rank(s, parents), opt_height(changes))
    } by {
        lemma_kid_smaller(s, changes, parents, kids[q].0);
    }
}

/// A store that extends another holds the same nodes under the
/// identifiers that the other has, at the same ranks.
pub proof fn lemma_loads_extend(s: StoreView, s2: StoreView, ids: Seq<ManifestId>)
    requires
        store_ok(s),
        store_ok(s2),
        store_extends(s2, s),
        all_present(s, ids),
    ensures
        all_present(s2, ids),
        load_all(s2, ids) == load_all(s, ids),
        parents_rank(s2, ids) == parents_rank(s, ids),
    decreases ids.len(),
{
    assert forall|i: int| 0 <= i < ids.len() implies store_has(s2, #[trigger] ids[i]) && load_all(s2, ids)[i]
        == load_all(s, ids)[i] && rank_of(s2, ids[i]) == rank_of(s, ids[i]) by {
        assert(store_has(s, ids[i]));
        lemma_extends_load(s2, s, ids[i]);
    }
    assert(load_all(s2, ids) =~= load_all(s, ids));
    if ids.len() > 0 {
        let rest = ids.drop_last();
        assert forall|i: int| 0 <= i < rest.len() implies store_has(s, #[trigger] rest[i]) by {
            assert(rest[i] == ids[i]);
        }
        lemma_loads_extend(s, s2, rest);
        assert(ids.last() == ids[ids.len() - 1]);
    }
}

/// A derivation reads only what the store held when it began: in a store
/// that extends that store it gives the same, and makes the same nodes.
pub proof fn lemma_derive_extends(
    s: StoreView,
    s2: StoreView,
    cs_id: ChangesetId,
    changes: Option<TreeView<PathChange>>,
    parents: Seq<ManifestId>,
)
    requires
        store_ok(s),
        store_ok(s2),
        store_extends(s2, s),
        all_present(s, parents),
    ensures
        derive_node(s2, cs_id, changes, parents) == derive_node(s, cs_id, changes, parents),
        derive_made(s2, cs_id, changes, parents) == derive_made(s, cs_id, changes, parents),
    decreases parents_rank(s, parents), opt_height(changes), 1nat, 0nat,
{
    lemma_loads_extend(s, s2, parents);
    lemma_kids_facts(s, changes, parents);
    let ps = load_all(s, parents);
    let sub = changes_below(changes);
    let kids = kids_of(sub, ps);
    lemma_kids_extend(s, s2, cs_id, kids, parents_rank(s, parents), opt_height(changes));
}

/// The same, for the nodes below a node.
pub proof fn lemma_kids_extend(
    s: StoreView,
    s2: StoreView,
    cs_id: ChangesetId,
    kids: Seq<(Seq<u8>, UnfoldView)>,
    r: nat,
    h: nat,
)
    requires
        store_ok(s),
        store_ok(s2),
        store_extends(s2, s),
        forall|q: int| 0 <= q < kids.len() ==> all_present(s, (#[trigger] kids[q]).1.parents),
    ensures
        derive_kids(s2, cs_id, kids, r, h) == derive_kids(s, cs_id, kids, r, h),
        kids_made(s2, cs_id, kids, r, h) == kids_made(s, cs_id, kids, r, h),
    decreases r, h, 0nat, kids.len(),
{
    if kids.len() > 0 {
        let rest = kids.drop_last();
        let k = kids[kids.len() - 1];
        assert(kids.last() == k);
        assert forall|q: int| 0 <= q < rest.len() implies all_present(s, (#[trigger] rest[q]).1.parents) by {
            assert(rest[q] == kids[q]);
        }
        lemma_kids_extend(s, s2, cs_id, rest, r, h);
        lemma_loads_extend(s, s2, k.1.parents);
        if smaller(s, k.1, r, h) {
            lemma_derive_extends(s, s2, cs_id, k.1.changes, k.1.parents);
        }
    }
}

/// Listing identifiers once keeps them among those that the store has.
pub proof fn lemma_dedup_present(s: StoreView, ids: Seq<ManifestId>)
    requires
        all_present(s, ids),
    ensures
        all_present(s, dedup(ids)),
{
    let d = dedup(ids);
    assert forall|i: int| 0 <= i < d.len() implies store_has(s, #[trigger] d[i]) by {
        assert(d.contains(d[i]));
        lemma_dedup(ids, d[i]);
        let j = choose|j: int| 0 <= j < ids.len() && ids[j] == d[i];
        assert(store_has(s, ids[j]));
    }
}

/// Idempotence: deriving once more, from the store that the first
/// derivation left, gives the same root and puts nothing into the store.
pub proof fn law_idempotence(
    s: StoreView,
    s1: StoreView,
    s2: StoreView,
    cs_id: ChangesetId,
    changes: TreeView<PathChange>,
    parents: Seq<ManifestId>,
    root1: ManifestId,
    root2: ManifestId,
)
    requires
        store_ok(s),
        derived(s, s1, cs_id, changes, parents, root1),
        derived(s1, s2, cs_id, changes, parents, root2),
    ensures
        root2 == root1,
        s2 == s1,
{
    lemma_dedup_present(s, parents);
    lemma_derive_extends(s, s1, cs_id, Some(changes), dedup(parents));
    let made = root_made(s, cs_id, changes, parents);
    assert(root_made(s1, cs_id, changes, parents) == made);
    if s2.len() > s1.len() {
        let i = s1.len() as int;
        assert(made.contains(s2[i].1) && !store_has(s1, s2[i].0));
        assert(s2[i].0 == manifest_id(s2[i].1));
        assert(store_has(s1, manifest_id(s2[i].1)));
    }
    assert(s2 =~= s1);
}

/// Content addressing: two nodes with the same linknode and the same
/// subentries have the same identifier.
pub proof fn law_content_addressing(a: ManifestView, b: ManifestView)
    requires
        a.linknode == b.linknode,
        forall|n: Seq<u8>| a.subentries.dom().contains(n) <==> b.subentries.dom().contains(n),
        forall|n: Seq<u8>| a.subentries.dom().contains(n) ==> a.subentries[n] == b.subentries[n],
    ensures
        manifest_id(a) == manifest_id(b),
{
    assert(a.subentries =~= b.subentries);
}

/// Reuse: where the changes say nothing of a path nor of what is below
/// it, and at most one parent has a node for it, the derivation makes no
/// node there: it hands up the parent's node, if there is one.
pub proof fn law_reuse(
    s: StoreView,
    cs_id: ChangesetId,
    changes: Option<TreeView<PathChange>>,
    parents: Seq<ManifestId>,
)
    requires
        store_ok(s),
        all_present(s, parents),
        parents.len() <= 1,
        change_at(changes) is None,
        changes_below(changes).len() == 0,
    ensures
        derive_node(s, cs_id, changes, parents) == Some(
            if parents.len() == 1 {
                Some(parents[0])
            } else {
                None
            },
        ),
        derive_made(s, cs_id, changes, parents) == Set::<ManifestView>::empty(),
{
    let ps = load_all(s, parents);
    let sub = changes_below(changes);
    lemma_kids_facts(s, changes, parents);
    let kids = kids_of(sub, ps);
    if kids.len() > 0 {
        assert(is_kid(sub, ps, kids[0].0));
        if has_name(sub, kids[0].0) {
            let i = index_of(sub, kids[0].0);
            assert(names_at(sub, kids[0].0, i));
        }
    }
    if parents.len() == 1 {
        assert(store_has(s, parents[0]));
        let k = store_rank(s, parents[0]);
        assert(store_at(s, parents[0], k));
        assert(ps[0] == s[k].1);
    }
}

/// Deletion attribution: a node with at most one parent gets the
/// changeset as its linknode only where the changeset removes its path.
pub proof fn law_deletion_attribution(
    cs_id: ChangesetId,
    change: Option<PathChange>,
    has_sub: bool,
    ps: Seq<ManifestView>,
    ups: Seq<(Seq<u8>, Option<ManifestId>)>,
)
    requires
        ps.len() <= 1,
        change_type_of(change, has_sub, ps) matches Some(ct) && (folded_node(cs_id, ct, base_of(ps), ups) matches Some(v)
            && v.linknode == Some(cs_id)),
    ensures
        change == Some(PathChange::Remove),
{
}

/// Deletion attribution, merges included: the node made for a path has
/// the changeset as its linknode exactly where the changeset removes the
/// path, or where it says nothing of the path nor of what is below it
/// while several parents have a node for the path and all those nodes
/// are deleted. No other node that is made has a linknode.
pub proof fn law_linknode(
    cs_id: ChangesetId,
    change: Option<PathChange>,
    has_sub: bool,
    ps: Seq<ManifestView>,
    ups: Seq<(Seq<u8>, Option<ManifestId>)>,
)
    requires
        change_type_of(change, has_sub, ps) matches Some(ct) && folded_node(cs_id, ct, base_of(ps), ups) is Some,
    ensures
        ({
            let ct = change_type_of(change, has_sub, ps)->Some_0;
            let v = folded_node(cs_id, ct, base_of(ps), ups)->Some_0;
            let removed = change == Some(PathChange::Remove);
            let merged = change is None && !has_sub && ps.len() >= 2 && parents_agree(ps) && ps[0].is_deleted();
            &&& v.linknode == if removed || merged {
                Some(cs_id)
            } else {
                None
            }
            &&& v.subentries == updated_view(base_of(ps), v.linknode, ups).subentries
        }),
{
}

/// Reincarnation: where the changeset adds a path, or makes a directory
/// of a file or a file of a directory, the node made for the path has no
/// linknode, and it is made only where something below the path is still
/// deleted.
pub proof fn law_reincarnation(
    cs_id: ChangesetId,
    change: PathChange,
    has_sub: bool,
    ps: Seq<ManifestView>,
    ups: Seq<(Seq<u8>, Option<ManifestId>)>,
)
    requires
        change != PathChange::Remove,
    ensures
        change_type_of(Some(change), has_sub, ps) == Some(DeletedManifestChangeType::RemoveIfNowEmpty),
        match folded_node(cs_id, DeletedManifestChangeType::RemoveIfNowEmpty, base_of(ps), ups) {
            Some(v) => v.linknode is None && !v.is_empty() && v == updated_view(base_of(ps), None, ups),
            None => updated_view(base_of(ps), None, ups).is_empty(),
        },
        fold_result(cs_id, DeletedManifestChangeType::RemoveIfNowEmpty, base_of(ps), ups) is None <==> updated_view(
            base_of(ps),
            None,
            ups,
        ).is_empty(),
{
}

/// No node of the store has a subentry that names a node without
/// linknode and without subentries: such a node stands in the store only
/// as the root of a manifest.
pub open spec fn store_proper(s: StoreView) -> bool {
    forall|i: int, n: Seq<u8>|
        0 <= i < s.len() && #[trigger] s[i].1.subentries.dom().contains(n) ==> !store_load(
            s,
            s[i].1.subentries[n],
        ).is_bare()
}

/// Each of the nodes `made` that the store has an identifier for is the
/// node that the store holds under it: no other node has the same
/// identifier.
pub open spec fn agrees(new: StoreView, made: Set<ManifestView>) -> bool {
    forall|v: ManifestView| #[trigger]
        made.contains(v) && store_has(new, manifest_id(v)) ==> store_load(new, manifest_id(v)) == v
}

/// A node of the store has a subentry that names `t`.
pub open spec fn old_target(s: StoreView, t: ManifestId) -> bool {
    exists|j: int, n: Seq<u8>|
        0 <= j < s.len() && #[trigger] s[j].1.subentries.dom().contains(n) && s[j].1.subentries[n] == t
}

/// `t` is the identifier of one of the nodes `made`, which has a linknode
/// or subentries.
pub open spec fn made_target(made: Set<ManifestView>, t: ManifestId) -> bool {
    exists|w: ManifestView| #[trigger] made.contains(w) && manifest_id(w) == t && !w.is_bare()
}

/// The node `v` has a linknode or subentries, and each of its subentries
/// names what a node of the store names, or one of the nodes `made`.
pub open spec fn sound_node(s: StoreView, made: Set<ManifestView>, v: ManifestView) -> bool {
    &&& !v.is_bare()
    &&& forall|n: Seq<u8>| #[trigger]
        v.subentries.dom().contains(n) ==> old_target(s, v.subentries[n]) || made_target(made, v.subentries[n])
}

proof fn lemma_sound_mono(s: StoreView, m1: Set<ManifestView>, m2: Set<ManifestView>, v: ManifestView)
    requires
        sound_node(s, m1, v),
        m1.subset_of(m2),
    ensures
        sound_node(s, m2, v),
{
    assert forall|n: Seq<u8>| #[trigger] v.subentries.dom().contains(n) implies old_target(s, v.subentries[n])
        || made_target(m2, v.subentries[n]) by {
        let t = v.subentries[n];
        if made_target(m1, t) {
            let w = choose|w: ManifestView| #[trigger] m1.contains(w) && manifest_id(w) == t && !w.is_bare();
            assert(m2.contains(w));
        }
    }
}

/// Where the derivation succeeds on a list of nodes, it hands up one
/// result for each.
pub proof fn lemma_kids_results(
    s: StoreView,
    cs_id: ChangesetId,
    kids: Seq<(Seq<u8>, UnfoldView)>,
    r: nat,
    h: nat,
)
    requires
        derive_kids(s, cs_id, kids, r, h) is Some,
    ensures
        ({
            let ups = derive_kids(s, cs_id, kids, r, h)->Some_0;
            &&& ups.len() == kids.len()
            &&& forall|q: int|
                0 <= q < kids.len() ==> {
                    &&& (#[trigger] ups[q]).0 == kids[q].0
                    &&& smaller(s, kids[q].1, r, h)
                    &&& derive_node(s, cs_id, kids[q].1.changes, kids[q].1.parents) == Some(ups[q].1)
                }
        }),
    decreases kids.len(),
{
    if kids.len() > 0 {
        let rest = kids.drop_last();
        lemma_kids_results(s, cs_id, rest, r, h);
        let ups = derive_kids(s, cs_id, kids, r, h)->Some_0;
        let before = derive_kids(s, cs_id, rest, r, h)->Some_0;
        let k = kids[kids.len() - 1];
        assert(kids.last() == k);
        assert forall|q: int| 0 <= q < kids.len() implies {
            &&& (#[trigger] ups[q]).0 == kids[q].0
            &&& smaller(s, kids[q].1, r, h)
            &&& derive_node(s, cs_id, kids[q].1.changes, kids[q].1.parents) == Some(ups[q].1)
        } by {
            if q < rest.len() {
                assert(rest[q] == kids[q]);
                assert(ups[q] == before[q]);
            }
        }
    }
}

/// What is made at one of the nodes of a list is among what is made at
/// the nodes of the list.
pub proof fn lemma_kids_made_member(
    s: StoreView,
    cs_id: ChangesetId,
    kids: Seq<(Seq<u8>, UnfoldView)>,
    r: nat,
    h: nat,
    q: int,
)
    requires
        0 <= q < kids.len(),
        smaller(s, kids[q].1, r, h),
    ensures
        derive_made(s, cs_id, kids[q].1.changes, kids[q].1.parents).subset_of(kids_made(s, cs_id, kids, r, h)),
    decreases kids.len(),
{
    let k = kids[kids.len() - 1];
    assert(kids.last() == k);
    if q < kids.len() - 1 {
        let rest = kids.drop_last();
        assert(rest[q] == kids[q]);
        lemma_kids_made_member(s, cs_id, rest, r, h, q);
    }
}

/// Where a subentry of changed subentries comes from: it was there
/// before, or one of the changes put it.
pub proof fn lemma_updates_source(
    m: Map<Seq<u8>, ManifestId>,
    ups: Seq<(Seq<u8>, Option<ManifestId>)>,
    n: Seq<u8>,
)
    requires
        apply_updates(m, ups).dom().contains(n),
    ensures
        (m.dom().contains(n) && apply_updates(m, ups)[n] == m[n]) || exists|q: int|
            0 <= q < ups.len() && #[trigger] ups[q] == (n, Some(apply_updates(m, ups)[n])),
    decreases ups.len(),
{
    if ups.len() > 0 {
        let rest = ups.drop_last();
        let u = ups[ups.len() - 1];
        assert(ups.last() == u);
        let before = apply_updates(m, rest);
        let t = apply_updates(m, ups)[n];
        if u.0 == n {
            assert(u.1 == Some(t));
            assert(ups[ups.len() - 1] == (n, Some(t)));
        } else {
            assert(before.dom().contains(n) && before[n] == t);
            lemma_updates_source(m, rest, n);
            if !(m.dom().contains(n) && before[n] == m[n]) {
                let q = choose|q: int| 0 <= q < rest.len() && #[trigger] rest[q] == (n, Some(before[n]));
                assert(ups[q] == rest[q]);
            }
        }
    }
}

/// What a node hands up is its only parent's node, or a node made at it.
pub proof fn lemma_result(
    s: StoreView,
    cs_id: ChangesetId,
    changes: Option<TreeView<PathChange>>,
    parents: Seq<ManifestId>,
    t: ManifestId,
)
    requires
        store_ok(s),
        all_present(s, parents),
        derive_node(s, cs_id, changes, parents) == Some(Some(t)),
    ensures
        (parents.len() == 1 && t == parents[0]) || made_target(derive_made(s, cs_id, changes, parents), t),
{
    let ps = load_all(s, parents);
    let sub = changes_below(changes);
    let ct = change_type_of(change_at(changes), sub.len() > 0, ps)->Some_0;
    let kids = kids_of(sub, ps);
    let ups = derive_kids(s, cs_id, kids, parents_rank(s, parents), opt_height(changes))->Some_0;
    if ct == DeletedManifestChangeType::Reuse {
        assert(store_has(s, parents[0]));
        let k = store_rank(s, parents[0]);
        assert(store_at(s, parents[0], k));
        assert(ps[0] == s[k].1);
    } else {
        let v = folded_node(cs_id, ct, base_of(ps), ups)->Some_0;
        assert(derive_made(s, cs_id, changes, parents).contains(v));
        assert(!v.is_bare());
    }
}

/// Every node that the derivation makes at a node or below it has a
/// linknode or subentries, and each of its subentries names what a node
/// of the store names, or another node that the derivation makes.
pub proof fn lemma_made_sound(
    s: StoreView,
    cs_id: ChangesetId,
    changes: Option<TreeView<PathChange>>,
    parents: Seq<ManifestId>,
)
    requires
        store_ok(s),
        all_present(s, parents),
    ensures
        forall|v: ManifestView| #[trigger]
            derive_made(s, cs_id, changes, parents).contains(v) ==> sound_node(
                s,
                derive_made(s, cs_id, changes, parents),
                v,
            ),
    decreases parents_rank(s, parents), opt_height(changes), 1nat, 0nat,
{
    let made = derive_made(s, cs_id, changes, parents);
    let ps = load_all(s, parents);
    let sub = changes_below(changes);
    let rank = parents_rank(s, parents);
    let height = opt_height(changes);
    let kids = kids_of(sub, ps);
    let below = kids_made(s, cs_id, kids, rank, height);
    lemma_kids_facts(s, changes, parents);
    if change_type_of(change_at(changes), sub.len() > 0, ps) is Some {
        let ct = change_type_of(change_at(changes), sub.len() > 0, ps)->Some_0;
        lemma_kids_made_sound(s, cs_id, kids, rank, height);
        assert(below.subset_of(made));
        assert forall|v: ManifestView| #[trigger] made.contains(v) implies sound_node(s, made, v) by {
            if below.contains(v) {
                lemma_sound_mono(s, below, made, v);
            } else {
                let ups = derive_kids(s, cs_id, kids, rank, height)->Some_0;
                assert(folded_node(cs_id, ct, base_of(ps), ups) == Some(v));
                lemma_kids_results(s, cs_id, kids, rank, height);
                let start = match base_of(ps) {
                    Some(b) => b.subentries,
                    None => Map::empty(),
                };
                assert(v.subentries == apply_updates(start, ups));
                assert forall|n: Seq<u8>| #[trigger] v.subentries.dom().contains(n) implies old_target(
                    s,
                    v.subentries[n],
                ) || made_target(made, v.subentries[n]) by {
                    let t = v.subentries[n];
                    lemma_updates_source(start, ups, n);
                    if start.dom().contains(n) && t == start[n] {
                        assert(store_has(s, parents[0]));
                        let k = store_rank(s, parents[0]);
                        assert(store_at(s, parents[0], k));
                        assert(ps[0] == s[k].1);
                        assert(s[k].1.subentries.dom().contains(n) && s[k].1.subentries[n] == t);
                    } else {
                        let q = choose|q: int| 0 <= q < ups.len() && #[trigger] ups[q] == (n, Some(t));
                        let kid = kids[q];
                        assert(ups[q].0 == kid.0);
                        lemma_result(s, cs_id, kid.1.changes, kid.1.parents, t);
                        if kid.1.parents.len() == 1 && t == kid.1.parents[0] {
                            lemma_child_parents(ps, kid.0);
                            assert(kid.1.parents == child_parents(ps, kid.0));
                            let i = choose|i: int|
                                0 <= i < ps.len() && (#[trigger] ps[i]).subentries.dom().contains(kid.0)
                                    && ps[i].subentries[kid.0] == child_parents(ps, kid.0)[0];
                            assert(store_has(s, parents[i]));
                            let k = store_rank(s, parents[i]);
                            assert(store_at(s, parents[i], k));
                            assert(ps[i] == s[k].1);
                            assert(s[k].1.subentries.dom().contains(kid.0) && s[k].1.subentries[kid.0] == t);
                        } else {
                            let km = derive_made(s, cs_id, kid.1.changes, kid.1.parents);
                            lemma_kids_made_member(s, cs_id, kids, rank, height, q);
                            let w = choose|w: ManifestView| #[trigger]
                                km.contains(w) && manifest_id(w) == t && !w.is_bare();
                            assert(below.contains(w));
                            assert(made.contains(w));
                        }
                    }
                }
            }
        }
    }
}

/// The same, for the nodes below a node.
pub proof fn lemma_kids_made_sound(
    s: StoreView,
    cs_id: ChangesetId,
    kids: Seq<(Seq<u8>, UnfoldView)>,
    r: nat,
    h: nat,
)
    requires
        store_ok(s),
        forall|q: int| 0 <= q < kids.len() ==> all_present(s, (#[trigger] kids[q]).1.parents),
    ensures
        forall|v: ManifestView| #[trigger]
            kids_made(s, cs_id, kids, r, h).contains(v) ==> sound_node(s, kids_made(s, cs_id, kids, r, h), v),
    decreases r, h, 0nat, kids.len(),
{
    if kids.len() > 0 {
        let rest = kids.drop_last();
        let k = kids[kids.len() - 1];
        assert(kids.last() == k);
        assert forall|q: int| 0 <= q < rest.len() implies all_present(s, (#[trigger] rest[q]).1.parents) by {
            assert(rest[q] == kids[q]);
        }
        lemma_kids_made_sound(s, cs_id, rest, r, h);
        let all = kids_made(s, cs_id, kids, r, h);
        let before = kids_made(s, cs_id, rest, r, h);
        if smaller(s, k.1, r, h) {
            lemma_made_sound(s, cs_id, k.1.changes, k.1.parents);
        }
        assert forall|v: ManifestView| #[trigger] all.contains(v) implies sound_node(s, all, v) by {
            if before.contains(v) {
                lemma_sound_mono(s, before, all, v);
            } else {
                lemma_sound_mono(s, derive_made(s, cs_id, k.1.changes, k.1.parents), all, v);
            }
        }
    }
}

/// No bare live nodes: where no node of the store named a node without
/// linknode and without subentries before a derivation, none does after
/// it. Such a node can only be the root of a manifest. This holds where
/// the nodes that the derivation made are the nodes that the store holds
/// under their identifiers.
pub proof fn law_no_bare_live_nodes(
    old: StoreView,
    new: StoreView,
    cs_id: ChangesetId,
    changes: TreeView<PathChange>,
    parents: Seq<ManifestId>,
    root: ManifestId,
)
    requires
        store_ok(old),
        store_proper(old),
        derived(old, new, cs_id, changes, parents, root),
        agrees(new, root_made(old, cs_id, changes, parents)),
    ensures
        store_proper(new),
{
    let all = root_made(old, cs_id, changes, parents);
    let made = derive_made(old, cs_id, Some(changes), dedup(parents));
    lemma_dedup_present(old, parents);
    lemma_made_sound(old, cs_id, Some(changes), dedup(parents));
    assert forall|i: int, n: Seq<u8>|
        0 <= i < new.len() && #[trigger] new[i].1.subentries.dom().contains(n) implies !store_load(
        new,
        new[i].1.subentries[n],
    ).is_bare() by {
        let t = new[i].1.subentries[n];
        if i < old.len() {
            assert(new[i] == old[i]);
            assert(old[i].1.subentries.dom().contains(n));
            lemma_old_target(old, new, t);
        } else {
            let v = new[i].1;
            assert(all.contains(v));
            assert(made.contains(v));
            assert(sound_node(old, made, v));
            if old_target(old, t) {
                lemma_old_target(old, new, t);
            } else {
                let w = choose|w: ManifestView| #[trigger] made.contains(w) && manifest_id(w) == t && !w.is_bare();
                assert(all.contains(w));
                assert(store_has(new, manifest_id(w)));
            }
        }
    }
}

proof fn lemma_old_target(old: StoreView, new: StoreView, t: ManifestId)
    requires
        store_ok(old),
        store_ok(new),
        store_proper(old),
        store_extends(new, old),
        old_target(old, t),
    ensures
        !store_load(new, t).is_bare(),
{
    let (j, n) = choose|j: int, n: Seq<u8>|
        0 <= j < old.len() && #[trigger] old[j].1.subentries.dom().contains(n) && old[j].1.subentries[n] == t;
    assert(store_has_below(old, t, j));
    let k = choose|k: int| store_at(old, t, k) && k < j;
    assert(store_at(old, t, k));
    lemma_extends_load(new, old, t);
}

/// The node reached from the node under `id` along `path`, if there is
/// one.
pub open spec fn node_at(s: StoreView, id: ManifestId, path: Seq<Seq<u8>>) -> Option<ManifestId>
    decreases path.len(),
{
    if path.len() == 0 {
        Some(id)
    } else if store_has(s, id) && store_load(s, id).subentries.dom().contains(path[0]) {
        node_at(s, store_load(s, id).subentries[path[0]], path.drop_first())
    } else {
        None
    }
}

/// In a store of which no node names a node without linknode and without
/// subentries, every node that is reached from a root, but the root
/// itself, has a linknode or subentries.
pub proof fn law_reachable_not_bare(s: StoreView, root: ManifestId, path: Seq<Seq<u8>>)
    requires
        store_ok(s),
        store_proper(s),
        path.len() > 0,
        node_at(s, root, path) is Some,
    ensures
        store_has(s, node_at(s, root, path)->Some_0),
        !store_load(s, node_at(s, root, path)->Some_0).is_bare(),
    decreases path.len(),
{
    let k = store_rank(s, root);
    assert(store_at(s, root, k));
    let next = s[k].1.subentries[path[0]];
    assert(s[k].1.subentries.dom().contains(path[0]));
    assert(store_has_below(s, next, k));
    let j = choose|j: int| store_at(s, next, j) && j < k;
    assert(store_at(s, next, j));
    if path.len() > 1 {
        law_reachable_not_bare(s, next, path.drop_first());
    } else {
        assert(path.drop_first().len() == 0);
    }
}

/// What changes with different names make of subentries: a name that a
/// change has is there where the change puts a node under it, and a name
/// that no change has is as it was.
pub proof fn lemma_updates_sorted(
    m: Map<Seq<u8>, ManifestId>,
    ups: Seq<(Seq<u8>, Option<ManifestId>)>,
    n: Seq<u8>,
)
    requires
        strictly_sorted(ups),
    ensures
        has_name(ups, n) ==> (apply_updates(m, ups).dom().contains(n) <==> entries_map(ups)[n] is Some) && (
        entries_map(ups)[n] matches Some(id) ==> apply_updates(m, ups)[n] == id),
        !has_name(ups, n) ==> (apply_updates(m, ups).dom().contains(n) <==> m.dom().contains(n)) && (m.dom().contains(
            n,
        ) ==> apply_updates(m, ups)[n] == m[n]),
    decreases ups.len(),
{
    if ups.len() > 0 {
        let rest = ups.drop_last();
        let u = ups[ups.len() - 1];
        assert(ups.last() == u);
        assert forall|i: int, j: int| 0 <= i < j < rest.len() implies lex_lt(
            #[trigger] rest[i].0,
            #[trigger] rest[j].0,
        ) by {
            assert(rest[i] == ups[i] && rest[j] == ups[j]);
        }
        lemma_updates_sorted(m, rest, n);
        lemma_map_at(ups, ups.len() - 1);
        if u.0 == n {
            assert(names_at(ups, n, ups.len() - 1));
        } else {
            if has_name(ups, n) {
                let i = index_of(ups, n);
                assert(names_at(ups, n, i));
                assert(names_at(rest, n, i));
                lemma_map_at(ups, i);
                lemma_map_at(rest, i);
            }
            if has_name(rest, n) {
                let i = index_of(rest, n);
                assert(names_at(rest, n, i));
                assert(names_at(ups, n, i));
            }
        }
    } else {
        if has_name(ups, n) {
            let i = index_of(ups, n);
            assert(names_at(ups, n, i));
        }
    }
}

/// The subentries of a node that the derivation makes. Under the name of
/// a node that was visited below it stands what that node handed up, if
/// it handed up anything; under any other name stands what the only
/// parent's node has there, if there is an only parent.
pub proof fn law_node_subentries(
    s: StoreView,
    cs_id: ChangesetId,
    changes: Option<TreeView<PathChange>>,
    parents: Seq<ManifestId>,
    linknode: Option<ChangesetId>,
    n: Seq<u8>,
)
    requires
        store_ok(s),
        all_present(s, parents),
        derive_node(s, cs_id, changes, parents) is Some,
    ensures
        ({
            let ps = load_all(s, parents);
            let sub = changes_below(changes);
            let ups = derive_kids(s, cs_id, kids_of(sub, ps), parents_rank(s, parents), opt_height(changes))->Some_0;
            let v = updated_view(base_of(ps), linknode, ups);
            let kid = kid_of(sub, ps, n);
            let start = match base_of(ps) {
                Some(b) => b.subentries,
                None => Map::empty(),
            };
            if is_kid(sub, ps, n) {
                match derive_node(s, cs_id, kid.changes, kid.parents) {
                    Some(Some(id)) => v.subentries.dom().contains(n) && v.subentries[n] == id,
                    _ => !v.subentries.dom().contains(n),
                }
            } else {
                (v.subentries.dom().contains(n) <==> start.dom().contains(n)) && (start.dom().contains(n)
                    ==> v.subentries[n] == start[n])
            }
        }),
{
    let ps = load_all(s, parents);
    let sub = changes_below(changes);
    let kids = kids_of(sub, ps);
    let rank = parents_rank(s, parents);
    let height = opt_height(changes);
    lemma_kids_facts(s, changes, parents);
    lemma_kids_results(s, cs_id, kids, rank, height);
    let ups = derive_kids(s, cs_id, kids, rank, height)->Some_0;
    let start = match base_of(ps) {
        Some(b) => b.subentries,
        None => Map::empty(),
    };
    assert forall|i: int, j: int| 0 <= i < j < ups.len() implies lex_lt(
        #[trigger] ups[i].0,
        #[trigger] ups[j].0,
    ) by {
        assert(ups[i].0 == kids[i].0 && ups[j].0 == kids[j].0);
    }
    lemma_updates_sorted(start, ups, n);
    if has_name(ups, n) {
        let i = index_of(ups, n);
        assert(names_at(ups, n, i));
        assert(names_at(kids, n, i));
        lemma_map_at(ups, i);
        lemma_map_at(kids, i);
        assert(kids_map(sub, ps).dom().contains(n));
    }
    if is_kid(sub, ps, n) {
        assert(kids_map(sub, ps).dom().contains(n));
        assert(has_name(kids, n));
        let i = index_of(kids, n);
        assert(names_at(kids, n, i));
        assert(names_at(ups, n, i));
    }
}

/// The node that the derived manifest has at `path` below a node of the
/// derivation, told from the store as it was before the derivation.
/// Where the parent's node was taken as it is, this is what the parent's
/// manifest has there. Else, below a node that was visited it is what the
/// derivation gives there, and below any other name it is what the only
/// parent's manifest has there.
pub open spec fn derived_at(
    s: StoreView,
    cs_id: ChangesetId,
    changes: Option<TreeView<PathChange>>,
    parents: Seq<ManifestId>,
    path: Seq<Seq<u8>>,
) -> Option<ManifestId>
    decreases path.len(),
{
    let ps = load_all(s, parents);
    let sub = changes_below(changes);
    match derive_node(s, cs_id, changes, parents) {
        Some(Some(id)) => if path.len() == 0 {
            Some(id)
        } else if change_type_of(change_at(changes), sub.len() > 0, ps) == Some(DeletedManifestChangeType::Reuse) {
            node_at(s, id, path)
        } else if is_kid(sub, ps, path[0]) {
            let kid = kid_of(sub, ps, path[0]);
            derived_at(s, cs_id, kid.changes, kid.parents, path.drop_first())
        } else {
            match base_of(ps) {
                Some(b) => if b.subentries.dom().contains(path[0]) {
                    node_at(s, b.subentries[path[0]], path.drop_first())
                } else {
                    None
                },
                None => None,
            }
        },
        _ => None,
    }
}

/// What a store has below a node stays below it in every store that
/// extends it.
pub proof fn lemma_node_at_extends(s: StoreView, s2: StoreView, id: ManifestId, path: Seq<Seq<u8>>)
    requires
        store_ok(s),
        store_ok(s2),
        store_extends(s2, s),
        store_has(s, id),
    ensures
        node_at(s2, id, path) == node_at(s, id, path),
    decreases path.len(),
{
    lemma_extends_load(s2, s, id);
    if path.len() > 0 {
        let k = store_rank(s, id);
        assert(store_at(s, id, k));
        if s[k].1.subentries.dom().contains(path[0]) {
            let next = s[k].1.subentries[path[0]];
            assert(store_has_below(s, next, k));
            let j = choose|j: int| store_at(s, next, j) && j < k;
            assert(store_at(s, next, j));
            lemma_node_at_extends(s, s2, next, path.drop_first());
        }
    }
}

/// What is made at a node of the derivation holds what is made at each
/// node below it.
pub proof fn lemma_kid_made(
    s: StoreView,
    cs_id: ChangesetId,
    changes: Option<TreeView<PathChange>>,
    parents: Seq<ManifestId>,
    n: Seq<u8>,
)
    requires
        store_ok(s),
        all_present(s, parents),
        derive_node(s, cs_id, changes, parents) is Some,
        is_kid(changes_below(changes), load_all(s, parents), n),
    ensures
        ({
            let kid = kid_of(changes_below(changes), load_all(s, parents), n);
            &&& all_present(s, kid.parents)
            &&& derive_node(s, cs_id, kid.changes, kid.parents) is Some
            &&& derive_made(s, cs_id, kid.changes, kid.parents).subset_of(derive_made(s, cs_id, changes, parents))
        }),
{
    let ps = load_all(s, parents);
    let sub = changes_below(changes);
    let kids = kids_of(sub, ps);
    let rank = parents_rank(s, parents);
    let height = opt_height(changes);
    lemma_kids_facts(s, changes, parents);
    lemma_kids_results(s, cs_id, kids, rank, height);
    assert(kids_map(sub, ps).dom().contains(n));
    assert(has_name(kids, n));
    let q = index_of(kids, n);
    assert(names_at(kids, n, q));
    lemma_kids_made_member(s, cs_id, kids, rank, height, q);
    let ups = derive_kids(s, cs_id, kids, rank, height)->Some_0;
    assert(ups[q].0 == kids[q].0);
}

/// The derived manifest, path by path: what the store holds below the
/// node that the derivation handed up is what the derivation gives
/// there. This holds where the nodes that the derivation made are the
/// nodes that the store holds under their identifiers.
pub proof fn law_path_semantics(
    old: StoreView,
    new: StoreView,
    cs_id: ChangesetId,
    changes: Option<TreeView<PathChange>>,
    parents: Seq<ManifestId>,
    path: Seq<Seq<u8>>,
)
    requires
        store_ok(old),
        store_ok(new),
        store_extends(new, old),
        all_present(old, parents),
        derive_node(old, cs_id, changes, parents) matches Some(Some(id)),
        all_saved(new, derive_made(old, cs_id, changes, parents)),
        agrees(new, derive_made(old, cs_id, changes, parents)),
    ensures
        node_at(new, derive_node(old, cs_id, changes, parents)->Some_0->Some_0, path) == derived_at(
            old,
            cs_id,
            changes,
            parents,
            path,
        ),
    decreases path.len(),
{
    let id = derive_node(old, cs_id, changes, parents)->Some_0->Some_0;
    let ps = load_all(old, parents);
    let sub = changes_below(changes);
    let made = derive_made(old, cs_id, changes, parents);
    let ct = change_type_of(change_at(changes), sub.len() > 0, ps)->Some_0;
    let kids = kids_of(sub, ps);
    let ups = derive_kids(old, cs_id, kids, parents_rank(old, parents), opt_height(changes))->Some_0;
    if path.len() > 0 {
        let n = path[0];
        let rest = path.drop_first();
        if ct == DeletedManifestChangeType::Reuse {
            assert(store_has(old, parents[0]));
            let k = store_rank(old, parents[0]);
            assert(store_at(old, parents[0], k));
            assert(ps[0] == old[k].1);
            lemma_node_at_extends(old, new, id, path);
        } else {
            let v = folded_node(cs_id, ct, base_of(ps), ups)->Some_0;
            assert(made.contains(v));
            assert(store_has(new, id) && store_load(new, id) == v);
            law_node_subentries(old, cs_id, changes, parents, v.linknode, n);
            if is_kid(sub, ps, n) {
                let kid = kid_of(sub, ps, n);
                lemma_kid_made(old, cs_id, changes, parents, n);
                let km = derive_made(old, cs_id, kid.changes, kid.parents);
                match derive_node(old, cs_id, kid.changes, kid.parents) {
                    Some(Some(kid_id)) => {
                        assert forall|w: ManifestView| #[trigger] km.contains(w) implies store_has(
                            new,
                            manifest_id(w),
                        ) by {
                            assert(made.contains(w));
                        }
                        assert forall|w: ManifestView| #[trigger]
                            km.contains(w) && store_has(new, manifest_id(w)) implies store_load(
                            new,
                            manifest_id(w),
                        ) == w by {
                            assert(made.contains(w));
                        }
                        law_path_semantics(old, new, cs_id, kid.changes, kid.parents, rest);
                    },
                    _ => {},
                }
            } else {
                match base_of(ps) {
                    Some(b) => {
                        if b.subentries.dom().contains(n) {
                            assert(store_has(old, parents[0]));
                            let k = store_rank(old, parents[0]);
                            assert(store_at(old, parents[0], k));
                            assert(ps[0] == old[k].1);
                            let next = b.subentries[n];
                            assert(old[k].1.subentries.dom().contains(n));
                            assert(store_has_below(old, next, k));
                            let j = choose|j: int| store_at(old, next, j) && j < k;
                            assert(store_at(old, next, j));
                            lemma_node_at_extends(old, new, next, rest);
                        }
                    },
                    None => {},
                }
            }
        }
    }
}

/// Reuse, path by path: below a path of which the changes say nothing,
/// and for which at most one parent has a node, the derived manifest has
/// what the parent's manifest has.
pub proof fn law_reuse_below(
    s: StoreView,
    cs_id: ChangesetId,
    changes: Option<TreeView<PathChange>>,
    parents: Seq<ManifestId>,
    path: Seq<Seq<u8>>,
)
    requires
        store_ok(s),
        all_present(s, parents),
        parents.len() <= 1,
        change_at(changes) is None,
        changes_below(changes).len() == 0,
    ensures
        derived_at(s, cs_id, changes, parents, path) == if parents.len() == 1 {
            node_at(s, parents[0], path)
        } else {
            None
        },
{
    law_reuse(s, cs_id, changes, parents);
}

/// The derived manifest, path by path, from its root: what the store
/// holds at a path below the root is what the derivation gives there,
/// and where nothing at all is deleted the root has nothing below it.
/// This holds where the nodes that the derivation made are the nodes that
/// the store holds under their identifiers.
pub proof fn law_manifest_paths(
    old: StoreView,
    new: StoreView,
    cs_id: ChangesetId,
    changes: TreeView<PathChange>,
    parents: Seq<ManifestId>,
    root: ManifestId,
    path: Seq<Seq<u8>>,
)
    requires
        store_ok(old),
        derived(old, new, cs_id, changes, parents, root),
        agrees(new, root_made(old, cs_id, changes, parents)),
    ensures
        node_at(new, root, path) == match derive_node(old, cs_id, Some(changes), dedup(parents)) {
            Some(Some(_)) => derived_at(old, cs_id, Some(changes), dedup(parents), path),
            _ => if path.len() == 0 {
                Some(root)
            } else {
                None
            },
        },
{
    let all = root_made(old, cs_id, changes, parents);
    let made = derive_made(old, cs_id, Some(changes), dedup(parents));
    lemma_dedup_present(old, parents);
    match derive_node(old, cs_id, Some(changes), dedup(parents)) {
        Some(Some(_)) => {
            law_path_semantics(old, new, cs_id, Some(changes), dedup(parents), path);
        },
        _ => {
            let empty = ManifestView::empty();
            assert(all.contains(empty));
            assert(store_load(new, root) == empty);
        },
    }
}

/// What is made at the nodes of a list is made at one of them.
pub proof fn lemma_kids_made_source(
    s: StoreView,
    cs_id: ChangesetId,
    kids: Seq<(Seq<u8>, UnfoldView)>,
    r: nat,
    h: nat,
    v: ManifestView,
)
    requires
        kids_made(s, cs_id, kids, r, h).contains(v),
    ensures
        exists|q: int|
            0 <= q < kids.len() && smaller(s, (#[trigger] kids[q]).1, r, h) && derive_made(
                s,
                cs_id,
                kids[q].1.changes,
                kids[q].1.parents,
            ).contains(v),
    decreases kids.len(),
{
    if kids.len() > 0 {
        let rest = kids.drop_last();
        let k = kids[kids.len() - 1];
        assert(kids.last() == k);
        if kids_made(s, cs_id, rest, r, h).contains(v) {
            lemma_kids_made_source(s, cs_id, rest, r, h, v);
            let q = choose|q: int|
                0 <= q < rest.len() && smaller(s, (#[trigger] rest[q]).1, r, h) && derive_made(
                    s,
                    cs_id,
                    rest[q].1.changes,
                    rest[q].1.parents,
                ).contains(v);
            assert(kids[q] == rest[q]);
        } else {
            assert(smaller(s, kids[kids.len() - 1].1, r, h));
        }
    }
}

/// A node under which a node was handed up is handed up itself, and the
/// derived manifest has below it, under the name of that node, what it
/// has below that node.
pub proof fn lemma_path_step(
    s: StoreView,
    cs_id: ChangesetId,
    changes: Option<TreeView<PathChange>>,
    parents: Seq<ManifestId>,
    n: Seq<u8>,
    rest: Seq<Seq<u8>>,
)
    requires
        store_ok(s),
        all_present(s, parents),
        derive_node(s, cs_id, changes, parents) is Some,
        is_kid(changes_below(changes), load_all(s, parents), n),
        ({
            let kid = kid_of(changes_below(changes), load_all(s, parents), n);
            derive_node(s, cs_id, kid.changes, kid.parents) matches Some(Some(_))
        }),
    ensures
        derive_node(s, cs_id, changes, parents)->Some_0 is Some,
        ({
            let kid = kid_of(changes_below(changes), load_all(s, parents), n);
            derived_at(s, cs_id, changes, parents, seq![n] + rest) == derived_at(
                s,
                cs_id,
                kid.changes,
                kid.parents,
                rest,
            )
        }),
{
    let ps = load_all(s, parents);
    let sub = changes_below(changes);
    let ct = change_type_of(change_at(changes), sub.len() > 0, ps)->Some_0;
    if ct == DeletedManifestChangeType::Reuse {
        law_reuse(s, cs_id, changes, parents);
        lemma_kids_facts(s, changes, parents);
        let kids = kids_of(sub, ps);
        assert(kids_map(sub, ps).dom().contains(n));
        assert(has_name(kids, n));
        let q = index_of(kids, n);
        assert(names_at(kids, n, q));
        if has_name(sub, n) {
            let i = index_of(sub, n);
            assert(names_at(sub, n, i));
        }
        assert(false);
    } else {
        assert(derive_node(s, cs_id, changes, parents)->Some_0 is Some) by {
            law_node_subentries(s, cs_id, changes, parents, None, n);
        }
        let path = seq![n] + rest;
        assert(path[0] == n);
        assert(path.drop_first() =~= rest);
    }
}

/// Every node that the derivation makes at a node or below it stands in
/// the derived manifest, at some path below that node.
pub proof fn lemma_made_path(
    s: StoreView,
    cs_id: ChangesetId,
    changes: Option<TreeView<PathChange>>,
    parents: Seq<ManifestId>,
    v: ManifestView,
)
    requires
        store_ok(s),
        all_present(s, parents),
        derive_node(s, cs_id, changes, parents) is Some,
        derive_made(s, cs_id, changes, parents).contains(v),
    ensures
        derive_node(s, cs_id, changes, parents)->Some_0 is Some,
        exists|path: Seq<Seq<u8>>| derived_at(s, cs_id, changes, parents, path) == Some(manifest_id(v)),
    decreases parents_rank(s, parents), opt_height(changes), 1nat, 0nat,
{
    let ps = load_all(s, parents);
    let sub = changes_below(changes);
    let rank = parents_rank(s, parents);
    let height = opt_height(changes);
    let kids = kids_of(sub, ps);
    let below = kids_made(s, cs_id, kids, rank, height);
    if below.contains(v) {
        lemma_kids_facts(s, changes, parents);
        lemma_kids_made_source(s, cs_id, kids, rank, height, v);
        let q = choose|q: int|
            0 <= q < kids.len() && smaller(s, (#[trigger] kids[q]).1, rank, height) && derive_made(
                s,
                cs_id,
                kids[q].1.changes,
                kids[q].1.parents,
            ).contains(v);
        let n = kids[q].0;
        let kid = kids[q].1;
        assert(kid == kid_of(sub, ps, n) && is_kid(sub, ps, n));
        lemma_kid_made(s, cs_id, changes, parents, n);
        lemma_made_path(s, cs_id, kid.changes, kid.parents, v);
        let rest = choose|path: Seq<Seq<u8>>|
            derived_at(s, cs_id, kid.changes, kid.parents, path) == Some(manifest_id(v));
        lemma_path_step(s, cs_id, changes, parents, n, rest);
        assert(derived_at(s, cs_id, changes, parents, seq![n] + rest) == Some(manifest_id(v)));
    } else {
        let path = Seq::<Seq<u8>>::empty();
        assert(derived_at(s, cs_id, changes, parents, path) == Some(manifest_id(v)));
    }
}

/// Every node that a derivation puts into the store is reached from the
/// root of the derived manifest. This holds where the nodes that the
/// derivation made are the nodes that the store holds under their
/// identifiers.
pub proof fn law_written_reachable(
    old: StoreView,
    new: StoreView,
    cs_id: ChangesetId,
    changes: TreeView<PathChange>,
    parents: Seq<ManifestId>,
    root: ManifestId,
    i: int,
)
    requires
        store_ok(old),
        derived(old, new, cs_id, changes, parents, root),
        agrees(new, root_made(old, cs_id, changes, parents)),
        old.len() <= i < new.len(),
    ensures
        exists|path: Seq<Seq<u8>>| node_at(new, root, path) == Some(new[i].0),
{
    let v = new[i].1;
    let made = derive_made(old, cs_id, Some(changes), dedup(parents));
    lemma_dedup_present(old, parents);
    assert(root_made(old, cs_id, changes, parents).contains(v));
    assert(new[i].0 == manifest_id(v));
    if made.contains(v) {
        lemma_made_path(old, cs_id, Some(changes), dedup(parents), v);
        let path = choose|path: Seq<Seq<u8>>|
            derived_at(old, cs_id, Some(changes), dedup(parents), path) == Some(manifest_id(v));
        law_manifest_paths(old, new, cs_id, changes, parents, root, path);
        assert(node_at(new, root, path) == Some(new[i].0));
    } else {
        let path = Seq::<Seq<u8>>::empty();
        assert(node_at(new, root, path) == Some(new[i].0));
    }
}

} // verus!
