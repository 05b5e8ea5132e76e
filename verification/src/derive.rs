//! Derivation of the deleted files manifest of a changeset from the
//! manifests of its parents and the paths that the changeset adds and
//! removes.
//!
//! The derivation walks a tree of nodes, one for each path that the
//! changes or the parents' manifests disagree on. At each node it first
//! decides what happens to the node and which nodes below it to visit
//! (unfold), and, once those are done, makes the node from their results
//! (fold).

use vstd::prelude::*;
use crate::changes::PathChange;
use crate::entries::{has_name, index_of, lemma_map_at, names_at};
use crate::fold::{collect_subentries, fold_resolves, fold_result, folded_node, lemma_extends_has, result_views};
use crate::hash::{ChangesetId, ManifestId};
use crate::manifest::{manifest_id, DeletedManifest, ManifestView};
use crate::path::PathElement;
use crate::path_tree::{lemma_child_height, opt_height, PathTree, TreeView};
use crate::store::{lemma_extends_load, lemma_store_rank, store_at, store_extends, store_has, store_has_below, store_load, store_ok, store_rank, ManifestStore, StoreView};
use crate::unfold::{base_of, change_at, change_type_of, changes_below, child_parents, holds_id, is_kid, kid_of, kids_map, kids_of, manifest_views, node_view, node_views, opt_tree_view, DeletedManifestUnfoldNode, UnfoldView};

verus! {

/// Why a derivation failed.
#[derive(Clone, Copy, Debug, PartialEq, Eq, Structural)]
pub enum DeriveError {
    /// Several parents have a node for a path, some deleted and some not,
    /// and the changeset says nothing of the path.
    InconsistentParents,
    /// A result that is not the root's came without the name of its path.
    SubentryWithoutPath,
    /// A parent's manifest is not in the store.
    MissingManifest,
}

/// Derives deleted files manifests.
pub struct DeletedManifestDeriver {}



/// The nodes that `s` holds under the identifiers `ids`.
pub open spec fn load_all(s: StoreView, ids: Seq<ManifestId>) -> Seq<ManifestView> {
    ids.map_values(|id: ManifestId| store_load(s, id))
}

/// One more than the place of `id` in `s`; 0 where `s` has no such node.
pub open spec fn rank_of(s: StoreView, id: ManifestId) -> nat {
    if store_has(s, id) {
        (store_rank(s, id) + 1) as nat
    } else {
        0
    }
}

/// The highest rank of the identifiers `ids` in `s`; 0 where there is
/// none.
pub open spec fn parents_rank(s: StoreView, ids: Seq<ManifestId>) -> nat
    decreases ids.len(),
{
    if ids.len() == 0 {
        0
    } else {
        let rest = parents_rank(s, ids.drop_last());
        let last = rank_of(s, ids.last());
        if rest < last {
            last
        } else {
            rest
        }
    }
}

/// The node to visit lies deeper than one whose parents have rank `r` and
/// whose changes have height `h`.
pub open spec fn smaller(s: StoreView, k: UnfoldView, r: nat, h: nat) -> bool {
    parents_rank(s, k.parents) < r || (parents_rank(s, k.parents) == r && opt_height(k.changes) < h)
}

/// What the derivation hands up from a node: the identifier of the node
/// for the path, or none where the path needs no node. The outer `None`
/// says that parents disagree at the node or below it.
pub open spec fn derive_node(
    s: StoreView,
    cs_id: ChangesetId,
    changes: Option<TreeView<PathChange>>,
    parents: Seq<ManifestId>,
) -> Option<Option<ManifestId>>
    decreases parents_rank(s, parents), opt_height(changes), 1nat, 0nat,
{
    let ps = load_all(s, parents);
    let sub = changes_below(changes);
    match change_type_of(change_at(changes), sub.len() > 0, ps) {
        None => None,
        Some(ct) => match derive_kids(
            s,
            cs_id,
            kids_of(sub, ps),
            parents_rank(s, parents),
            opt_height(changes),
        ) {
            None => None,
            Some(ups) => Some(fold_result(cs_id, ct, base_of(ps), ups)),
        },
    }
}

/// What the derivation hands up from each of the nodes `kids`, which lie
/// below a node whose parents have rank `r` and whose changes have height
/// `h`. `None` where parents disagree at one of them or below it. A node
/// is visited only if it lies deeper than the node above it, as every
/// node does in a store that is in order: this is what makes the
/// derivation end.
pub open spec fn derive_kids(
    s: StoreView,
    cs_id: ChangesetId,
    kids: Seq<(Seq<u8>, UnfoldView)>,
    r: nat,
    h: nat,
) -> Option<Seq<(Seq<u8>, Option<ManifestId>)>>
    decreases r, h, 0nat, kids.len(),
{
    if kids.len() == 0 {
        Some(Seq::empty())
    } else {
        let k = kids.last();
        match derive_kids(s, cs_id, kids.drop_last(), r, h) {
            None => None,
            Some(ups) => if smaller(s, k.1, r, h) {
                match derive_node(s, cs_id, k.1.changes, k.1.parents) {
                    None => None,
                    Some(res) => Some(ups.push((k.0, res))),
                }
            } else {
                None
            },
        }
    }
}

/// The nodes that the derivation makes at a node and below it.
pub open spec fn derive_made(
    s: StoreView,
    cs_id: ChangesetId,
    changes: Option<TreeView<PathChange>>,
    parents: Seq<ManifestId>,
) -> Set<ManifestView>
    decreases parents_rank(s, parents), opt_height(changes), 1nat, 0nat,
{
    let ps = load_all(s, parents);
    let sub = changes_below(changes);
    match change_type_of(change_at(changes), sub.len() > 0, ps) {
        None => Set::empty(),
        Some(ct) => {
            let kids = kids_of(sub, ps);
            let below = kids_made(s, cs_id, kids, parents_rank(s, parents), opt_height(changes));
            match derive_kids(s, cs_id, kids, parents_rank(s, parents), opt_height(changes)) {
                None => below,
                Some(ups) => match folded_node(cs_id, ct, base_of(ps), ups) {
                    Some(v) => below.insert(v),
                    None => below,
                },
            }
        },
    }
}

/// The nodes that the derivation makes at the nodes `kids` and below
/// them.
pub open spec fn kids_made(
    s: StoreView,
    cs_id: ChangesetId,
    kids: Seq<(Seq<u8>, UnfoldView)>,
    r: nat,
    h: nat,
) -> Set<ManifestView>
    decreases r, h, 0nat, kids.len(),
{
    if kids.len() == 0 {
        Set::empty()
    } else {
        let before = kids_made(s, cs_id, kids.drop_last(), r, h);
        let k = kids.last();
        if smaller(s, k.1, r, h) {
            before.union(derive_made(s, cs_id, k.1.changes, k.1.parents))
        } else {
            before
        }
    }
}

/// Every node that `new` holds and `old` does not is one of `made`, and
/// `old` had no node under its identifier.
pub open spec fn only_made(old: StoreView, new: StoreView, made: Set<ManifestView>) -> bool {
    forall|i: int|
        old.len() <= i < new.len() ==> made.contains((#[trigger] new[i]).1) && !store_has(old, new[i].0)
}

/// The store holds a node under the identifier of each of `made`.
pub open spec fn all_saved(new: StoreView, made: Set<ManifestView>) -> bool {
    forall|v: ManifestView| #[trigger] made.contains(v) ==> store_has(new, manifest_id(v))
}

/// The highest rank is above the place of each identifier.
pub proof fn lemma_rank_member(s: StoreView, ids: Seq<ManifestId>, i: int)
    requires
        0 <= i < ids.len(),
    ensures
        rank_of(s, ids[i]) <= parents_rank(s, ids),
    decreases ids.len(),
{
    if i < ids.len() - 1 {
        lemma_rank_member(s, ids.drop_last(), i);
    }
}

/// The highest rank is no more than a bound on each rank.
pub proof fn lemma_rank_bound(s: StoreView, ids: Seq<ManifestId>, b: nat)
    requires
        forall|i: int| 0 <= i < ids.len() ==> rank_of(s, #[trigger] ids[i]) <= b,
    ensures
        parents_rank(s, ids) <= b,
    decreases ids.len(),
{
    if ids.len() > 0 {
        assert forall|i: int| 0 <= i < ids.drop_last().len() implies rank_of(s, #[trigger] ids.drop_last()[i]) <= b by {
            assert(ids.drop_last()[i] == ids[i]);
        }
        lemma_rank_bound(s, ids.drop_last(), b);
        assert(ids.last() == ids[ids.len() - 1]);
    }
}

/// Each of the nodes that the parents have under a name is a subentry of
/// one of them, and none is listed twice.
pub proof fn lemma_child_parents(ps: Seq<ManifestView>, n: Seq<u8>)
    ensures
        child_parents(ps, n).no_duplicates(),
        forall|x: int|
            0 <= x < child_parents(ps, n).len() ==> exists|i: int|
                0 <= i < ps.len() && (#[trigger] ps[i]).subentries.dom().contains(n) && ps[i].subentries[n]
                    == #[trigger] child_parents(ps, n)[x],
        forall|i: int|
            0 <= i < ps.len() && (#[trigger] ps[i]).subentries.dom().contains(n) ==> child_parents(ps, n).contains(
                ps[i].subentries[n],
            ),
    decreases ps.len(),
{
    if ps.len() > 0 {
        let rest = ps.drop_last();
        lemma_child_parents(rest, n);
        let cp = child_parents(ps, n);
        let cr = child_parents(rest, n);
        assert forall|x: int| 0 <= x < cp.len() implies exists|i: int|
            0 <= i < ps.len() && (#[trigger] ps[i]).subentries.dom().contains(n) && ps[i].subentries[n]
                == #[trigger] cp[x] by {
            if x < cr.len() {
                let i = choose|i: int|
                    0 <= i < rest.len() && (#[trigger] rest[i]).subentries.dom().contains(n)
                        && rest[i].subentries[n] == cr[x];
                assert(ps[i] == rest[i]);
                assert(cp[x] == cr[x]);
            } else {
                let i = ps.len() - 1;
                assert(ps[i].subentries.dom().contains(n) && ps[i].subentries[n] == cp[x]);
            }
        }
        assert forall|i: int| 0 <= i < ps.len() && (#[trigger] ps[i]).subentries.dom().contains(n) implies cp.contains(
            ps[i].subentries[n],
        ) by {
            if i < rest.len() {
                assert(rest[i] == ps[i]);
                let x = choose|x: int| 0 <= x < cr.len() && cr[x] == ps[i].subentries[n];
                assert(cp[x] == cr[x]);
            } else {
                if cr.contains(ps[i].subentries[n]) {
                    let x = choose|x: int| 0 <= x < cr.len() && cr[x] == ps[i].subentries[n];
                    assert(cp[x] == cr[x]);
                } else {
                    assert(cp[cp.len() - 1] == ps[i].subentries[n]);
                }
            }
        }
    }
}

/// The nodes visited below a node lie deeper than it; their parents are
/// nodes of the store, each named once.
pub proof fn lemma_kid_smaller(
    s: StoreView,
    changes: Option<TreeView<PathChange>>,
    parents: Seq<ManifestId>,
    n: Seq<u8>,
)
    requires
        store_ok(s),
        forall|i: int| 0 <= i < parents.len() ==> store_has(s, #[trigger] parents[i]),
        is_kid(changes_below(changes), load_all(s, parents), n),
    ensures
        ({
            let k = kid_of(changes_below(changes), load_all(s, parents), n);
            &&& k.parents.no_duplicates()
            &&& forall|x: int| 0 <= x < k.parents.len() ==> store_has(s, #[trigger] k.parents[x])
            &&& smaller(s, k, parents_rank(s, parents), opt_height(changes))
        }),
{
    let sub = changes_below(changes);
    let ps = load_all(s, parents);
    let k = kid_of(sub, ps, n);
    lemma_child_parents(ps, n);
    let r = parents_rank(s, parents);
    assert forall|x: int| 0 <= x < k.parents.len() implies store_has(s, #[trigger] k.parents[x]) && rank_of(
        s,
        k.parents[x],
    ) + 1 <= r by {
        let i = choose|i: int|
            0 <= i < ps.len() && (#[trigger] ps[i]).subentries.dom().contains(n) && ps[i].subentries[n]
                == k.parents[x];
        let p = parents[i];
        assert(store_has(s, p));
        let pi = store_rank(s, p);
        assert(store_at(s, p, pi));
        assert(ps[i] == s[pi].1);
        assert(s[pi].1.subentries.dom().contains(n));
        let c = s[pi].1.subentries[n];
        assert(store_has_below(s, c, pi));
        let j = choose|j: int| store_at(s, c, j) && j < pi;
        lemma_store_rank(s, c, j);
        lemma_rank_member(s, parents, i);
    }
    if k.parents.len() > 0 {
        assert(rank_of(s, k.parents[0]) + 1 <= r);
        assert(r >= 1);
        lemma_rank_bound(s, k.parents, (r - 1) as nat);
    } else {
        if parents.len() > 0 {
            lemma_rank_member(s, parents, 0);
            assert(store_has(s, parents[0]));
            let first = store_rank(s, parents[0]);
            assert(store_at(s, parents[0], first));
        } else {
            assert(has_name(sub, n));
            let x = index_of(sub, n);
            assert(names_at(sub, n, x));
            lemma_child_height(sub, x);
        }
    }
}

/// Where the derivation fails on the first nodes of a list, it fails on
/// the list.
pub proof fn lemma_kids_prefix(
    s: StoreView,
    cs_id: ChangesetId,
    kids: Seq<(Seq<u8>, UnfoldView)>,
    k: int,
    r: nat,
    h: nat,
)
    requires
        0 <= k <= kids.len(),
        derive_kids(s, cs_id, kids.take(k), r, h) is None,
    ensures
        derive_kids(s, cs_id, kids, r, h) is None,
    decreases kids.len(),
{
    if k == kids.len() {
        assert(kids.take(k) =~= kids);
    } else {
        assert(kids.drop_last().take(k) =~= kids.take(k));
        lemma_kids_prefix(s, cs_id, kids.drop_last(), k, r, h);
    }
}

/// The name of a path that may be the root's.
pub open spec fn opt_name(p: Option<PathElement>) -> Option<Seq<u8>> {
    match p {
        Some(p) => Some(p@),
        None => None,
    }
}

/// Visits a node and the nodes below it, and saves the nodes that are
/// made into `store`. `s0` is the store as it was when the derivation
/// began: the parents' nodes are read as they stand there.
fn visit(
    store: &mut ManifestStore,
    Ghost(s0): Ghost<StoreView>,
    cs_id: ChangesetId,
    node: &DeletedManifestUnfoldNode,
) -> (r: Result<(Option<PathElement>, Option<ManifestId>), DeriveError>)
    requires
        store_ok(s0),
        store_ok(old(store)@),
        store_extends(old(store)@, s0),
        forall|i: int| 0 <= i < node.parents@.len() ==> store_has(s0, #[trigger] node.parents@[i]),
    ensures
        store_ok(final(store)@),
        store_extends(final(store)@, old(store)@),
        match r {
            Ok((path, res)) => {
                &&& derive_node(s0, cs_id, opt_tree_view(node.changes), node.parents@) == Some(res)
                &&& (res matches Some(id) ==> store_has(final(store)@, id))
                &&& opt_name(path) == opt_name(node.path_element)
                &&& only_made(
                    old(store)@,
                    final(store)@,
                    derive_made(s0, cs_id, opt_tree_view(node.changes), node.parents@),
                )
                &&& all_saved(final(store)@, derive_made(s0, cs_id, opt_tree_view(node.changes), node.parents@))
            },
            Err(e) => {
                &&& e == DeriveError::InconsistentParents
                &&& derive_node(s0, cs_id, opt_tree_view(node.changes), node.parents@) is None
            },
        },
    decreases parents_rank(s0, node.parents@), opt_height(opt_tree_view(node.changes)),
{
    let ghost sv0 = store@;
    let ghost changes = opt_tree_view(node.changes);
    let ghost sub = changes_below(changes);
    let ghost ps = load_all(s0, node.parents@);
    let ghost rank = parents_rank(s0, node.parents@);
    let ghost height = opt_height(changes);
    let mut parent_manifests: Vec<DeletedManifest> = Vec::new();
    let mut i: usize = 0;
    while i < node.parents.len()
        invariant
            i <= node.parents.len(),
            store@ == sv0,
            store_ok(sv0),
            store_ok(s0),
            store_extends(sv0, s0),
            ps == load_all(s0, node.parents@),
            forall|i: int| 0 <= i < node.parents@.len() ==> store_has(s0, #[trigger] node.parents@[i]),
            manifest_views(parent_manifests@) =~= ps.take(i as int),
        decreases node.parents.len() - i,
    {
        let id = node.parents[i];
        proof {
            assert(store_has(s0, node.parents@[i as int]));
            lemma_extends_load(sv0, s0, id);
        }
        match store.load(id) {
            Some(m) => {
                let ghost before = manifest_views(parent_manifests@);
                let copy = m.clone();
                parent_manifests.push(copy);
                proof {
                    assert(manifest_views(parent_manifests@) =~= before.push(ps[i as int]));
                    assert(ps.take(i + 1) =~= ps.take(i as int).push(ps[i as int]));
                }
            },
            None => {
                assert(false);
                return Err(DeriveError::MissingManifest);
            },
        }
        i += 1;
    }
    assert(ps.take(i as int) =~= ps);
    let (change, kids) = match DeletedManifestDeriver::do_unfold(node.changes, &parent_manifests) {
        Err(e) => {
            return Err(e);
        },
        Ok(x) => x,
    };
    let ghost kv = node_views(kids@);
    let ghost ct = change.change_type;
    proof {
        assert forall|q: int| 0 <= q < kv.len() implies (forall|x: int|
            0 <= x < (#[trigger] kv[q]).1.parents.len() ==> store_has(s0, #[trigger] kv[q].1.parents[x])) && smaller(
            s0,
            kv[q].1,
            rank,
            height,
        ) by {
            lemma_map_at(kv, q);
            assert(kids_map(sub, ps).dom().contains(kv[q].0));
            lemma_kid_smaller(s0, changes, node.parents@, kv[q].0);
        }
    }
    let mut results: Vec<(Option<PathElement>, Option<ManifestId>)> = Vec::new();
    let mut k: usize = 0;
    proof {
        assert(kv.take(0) =~= Seq::empty());
        assert(result_views(results@) =~= Seq::empty());
    }
    while k < kids.len()
        invariant
            k <= kids.len(),
            kv == node_views(kids@),
            store_ok(s0),
            store_ok(store@),
            store_extends(store@, s0),
            store_extends(store@, sv0),
            sv0 == old(store)@,
            rank == parents_rank(s0, node.parents@),
            height == opt_height(opt_tree_view(node.changes)),
            changes == opt_tree_view(node.changes),
            sub == changes_below(changes),
            ps == load_all(s0, node.parents@),
            kv == kids_of(sub, ps),
            change_type_of(change_at(changes), sub.len() > 0, ps) is Some,
            forall|q: int|
                0 <= q < kv.len() ==> (forall|x: int|
                    0 <= x < (#[trigger] kv[q]).1.parents.len() ==> store_has(s0, #[trigger] kv[q].1.parents[x]))
                    && smaller(s0, kv[q].1, rank, height),
            forall|q: int| 0 <= q < kids.len() ==> (#[trigger] kids[q]).path_element is Some,
            results.len() == k,
            forall|q: int| 0 <= q < k ==> (#[trigger] results[q]).0 is Some,
            derive_kids(s0, cs_id, kv.take(k as int), rank, height) == Some(result_views(results@)),
            forall|q: int| 0 <= q < k ==> ((#[trigger] results[q]).1 matches Some(id) ==> store_has(store@, id)),
            only_made(sv0, store@, kids_made(s0, cs_id, kv.take(k as int), rank, height)),
            all_saved(store@, kids_made(s0, cs_id, kv.take(k as int), rank, height)),
        decreases kids.len() - k,
    {
        let ghost before = store@;
        let ghost kid = kv[k as int];
        proof {
            assert(kid == node_view(kids@[k as int]));
            assert(kv.take(k + 1).drop_last() =~= kv.take(k as int));
            assert(kv.take(k + 1).last() == kid);
            assert(smaller(s0, kid.1, rank, height));
        }
        let r = visit(store, Ghost(s0), cs_id, &kids[k]);
        match r {
            Err(e) => {
                proof {
                    assert(derive_kids(s0, cs_id, kv.take(k + 1), rank, height) is None);
                    lemma_kids_prefix(s0, cs_id, kv, k + 1, rank, height);
                    assert(store_extends(store@, sv0));
                }
                return Err(e);
            },
            Ok(res) => {
                let ghost rv = result_views(results@);
                let ghost old_results = results@;
                results.push(res);
                proof {
                    let m0 = kids_made(s0, cs_id, kv.take(k as int), rank, height);
                    let mk = derive_made(s0, cs_id, kid.1.changes, kid.1.parents);
                    let m1 = kids_made(s0, cs_id, kv.take(k + 1), rank, height);
                    assert(m1 == m0.union(mk));
                    assert forall|i: int| sv0.len() <= i < store@.len() implies m1.contains((#[trigger] store@[i]).1)
                        && !store_has(sv0, store@[i].0) by {
                        if i < before.len() {
                            assert(store@[i] == before[i]);
                        } else {
                            if store_has(sv0, store@[i].0) {
                                lemma_extends_has(before, sv0, store@[i].0);
                            }
                        }
                    }
                    assert forall|v: ManifestView| #[trigger] m1.contains(v) implies store_has(
                        store@,
                        manifest_id(v),
                    ) by {
                        if m0.contains(v) {
                            lemma_extends_has(store@, before, manifest_id(v));
                        }
                    }
                    assert(result_views(results@) =~= rv.push((kid.0, res.1)));
                    assert forall|q: int| 0 <= q < k + 1 implies ((#[trigger] results[q]).1 matches Some(id)
                        ==> store_has(store@, id)) by {
                        if q < k {
                            assert(results[q] == old_results[q]);
                            if results[q].1 is Some {
                                lemma_extends_has(store@, before, results[q].1->Some_0);
                            }
                        }
                    }
                }
            },
        }
        k += 1;
    }
    assert(kv.take(k as int) =~= kv);
    let ghost rv = result_views(results@);
    let ups = match collect_subentries(results) {
        Err(e) => {
            assert(false);
            return Err(e);
        },
        Ok(ups) => ups,
    };
    let path = match &node.path_element {
        Some(p) => Some(p.clone()),
        None => None,
    };
    let ghost base = base_of(ps);
    proof {
        if base is Some {
            let p = node.parents@[0];
            assert(store_has(s0, p));
            let pi = store_rank(s0, p);
            assert(store_at(s0, p, pi));
            assert(ps[0] == s0[pi].1);
            lemma_extends_has(store@, s0, p);
            assert forall|n: Seq<u8>| #[trigger] ps[0].subentries.dom().contains(n) implies store_has(
                store@,
                ps[0].subentries[n],
            ) by {
                assert(s0[pi].1.subentries.dom().contains(n));
                let c = s0[pi].1.subentries[n];
                assert(store_has_below(s0, c, pi));
                let j = choose|j: int| store_at(s0, c, j) && j < pi;
                assert(store_at(s0, c, j));
                lemma_extends_has(store@, s0, c);
            }
        }
        assert forall|q: int| 0 <= q < rv.len() implies ((#[trigger] rv[q]).1 matches Some(id) ==> store_has(
            store@,
            id,
        )) by {
        }
        assert(fold_resolves(store@, base, rv));
    }
    let ghost after_kids = store@;
    let res = DeletedManifestDeriver::do_create(store, cs_id, change, &ups);
    proof {
        let below = kids_made(s0, cs_id, kv, rank, height);
        let made = derive_made(s0, cs_id, changes, node.parents@);
        let node_made = folded_node(cs_id, ct, base, rv);
        assert(made == match node_made {
            Some(v) => below.insert(v),
            None => below,
        });
        assert forall|i: int| sv0.len() <= i < store@.len() implies made.contains((#[trigger] store@[i]).1)
            && !store_has(sv0, store@[i].0) by {
            if i < after_kids.len() {
                assert(store@[i] == after_kids[i]);
            } else {
                if store_has(sv0, store@[i].0) {
                    lemma_extends_has(after_kids, sv0, store@[i].0);
                }
            }
        }
        assert forall|v: ManifestView| #[trigger] made.contains(v) implies store_has(store@, manifest_id(v)) by {
            if below.contains(v) {
                lemma_extends_has(store@, after_kids, manifest_id(v));
            } else {
                assert(node_made == Some(v));
                if store_has(after_kids, manifest_id(v)) {
                    lemma_extends_has(store@, after_kids, manifest_id(v));
                } else {
                    assert(store_at(store@, manifest_id(v), after_kids.len() as int));
                }
            }
        }
    }
    Ok((path, res))
}

/// The identifiers `ids`, each once, in the order in which they first
/// occur.
pub open spec fn dedup(ids: Seq<ManifestId>) -> Seq<ManifestId>
    decreases ids.len(),
{
    if ids.len() == 0 {
        Seq::empty()
    } else {
        let rest = dedup(ids.drop_last());
        if rest.contains(ids.last()) {
            rest
        } else {
            rest.push(ids.last())
        }
    }
}

/// Listing each identifier once neither adds nor loses one.
pub proof fn lemma_dedup(ids: Seq<ManifestId>, x: ManifestId)
    ensures
        dedup(ids).contains(x) <==> ids.contains(x),
    decreases ids.len(),
{
    if ids.len() > 0 {
        let rest = ids.drop_last();
        lemma_dedup(rest, x);
        let d = dedup(ids);
        let dr = dedup(rest);
        let last = ids[ids.len() - 1];
        assert(ids.last() == last);
        if d.contains(x) {
            let i = choose|i: int| 0 <= i < d.len() && d[i] == x;
            if i < dr.len() {
                assert(dr[i] == x);
                assert(dr.contains(x));
                assert(rest.contains(x));
                let j = choose|j: int| 0 <= j < rest.len() && rest[j] == x;
                assert(ids[j] == x);
            } else {
                assert(last == x);
            }
        }
        if ids.contains(x) {
            let j = choose|j: int| 0 <= j < ids.len() && ids[j] == x;
            if j < rest.len() {
                assert(rest[j] == x);
                assert(rest.contains(x));
                assert(dr.contains(x));
                let i = choose|i: int| 0 <= i < dr.len() && dr[i] == x;
                assert(d[i] == x);
            } else {
                if dr.contains(x) {
                    let i = choose|i: int| 0 <= i < dr.len() && dr[i] == x;
                    assert(d[i] == x);
                } else {
                    assert(d[d.len() - 1] == x);
                }
            }
        }
    }
}

/// Lists each of the identifiers once.
pub fn dedup_ids(ids: &Vec<ManifestId>) -> (r: Vec<ManifestId>)
    ensures
        r@ == dedup(ids@),
{
    let mut out: Vec<ManifestId> = Vec::new();
    let mut i: usize = 0;
    proof {
        assert(ids@.take(0) =~= Seq::empty());
    }
    while i < ids.len()
        invariant
            i <= ids.len(),
            out@ == dedup(ids@.take(i as int)),
        decreases ids.len() - i,
    {
        proof {
            assert(ids@.take(i + 1).drop_last() =~= ids@.take(i as int));
            assert(ids@.take(i + 1).last() == ids@[i as int]);
        }
        if !holds_id(&out, ids[i]) {
            out.push(ids[i]);
        }
        i += 1;
    }
    assert(ids@.take(i as int) =~= ids@);
    out
}

/// The store holds a node under each of the identifiers.
pub open spec fn all_present(s: StoreView, ids: Seq<ManifestId>) -> bool {
    forall|i: int| 0 <= i < ids.len() ==> store_has(s, #[trigger] ids[i])
}

/// The root of the manifest of the changeset `cs_id`, whose parents have
/// the manifests `parents` in `s`, and which changes the paths in
/// `changes`. `None` where parents disagree on a path of which the changes
/// say nothing. Where nothing at all is deleted, the root is the node
/// without linknode and without subentries.
pub open spec fn derive_root(
    s: StoreView,
    cs_id: ChangesetId,
    changes: TreeView<PathChange>,
    parents: Seq<ManifestId>,
) -> Option<ManifestId> {
    match derive_node(s, cs_id, Some(changes), dedup(parents)) {
        None => None,
        Some(Some(id)) => Some(id),
        Some(None) => Some(manifest_id(ManifestView::empty())),
    }
}

/// The nodes that the derivation of a manifest makes: those made on the
/// way, and the node without linknode and without subentries where
/// nothing at all is deleted.
pub open spec fn root_made(
    s: StoreView,
    cs_id: ChangesetId,
    changes: TreeView<PathChange>,
    parents: Seq<ManifestId>,
) -> Set<ManifestView> {
    let made = derive_made(s, cs_id, Some(changes), dedup(parents));
    match derive_node(s, cs_id, Some(changes), dedup(parents)) {
        Some(None) => made.insert(ManifestView::empty()),
        _ => made,
    }
}

/// The store `new` is what a derivation that gave `root` makes of the
/// store `old`: it holds what `old` held and, after that, nodes that the
/// derivation made and that `old` had not, among them the root or, where
/// `old` had it, nothing for it.
pub open spec fn derived(
    old: StoreView,
    new: StoreView,
    cs_id: ChangesetId,
    changes: TreeView<PathChange>,
    parents: Seq<ManifestId>,
    root: ManifestId,
) -> bool {
    &&& all_present(old, parents)
    &&& store_ok(new)
    &&& store_extends(new, old)
    &&& derive_root(old, cs_id, changes, parents) == Some(root)
    &&& store_has(new, root)
    &&& only_made(old, new, root_made(old, cs_id, changes, parents))
    &&& all_saved(new, root_made(old, cs_id, changes, parents))
}

impl DeletedManifestDeriver {
    /// Derives the manifest of the changeset `cs_id` from the manifests of
    /// its parents, whose roots are `parents`, and the changes that the
    /// changeset makes. The nodes that are made are saved into `store`,
    /// after what it held; the root's identifier is returned.
    pub fn derive(
        store: &mut ManifestStore,
        cs_id: ChangesetId,
        parents: Vec<ManifestId>,
        changes: PathTree<PathChange>,
    ) -> (r: Result<ManifestId, DeriveError>)
        ensures
            store_extends(final(store)@, old(store)@),
            !all_present(old(store)@, parents@) ==> r == Err::<ManifestId, DeriveError>(
                DeriveError::MissingManifest,
            ) && final(store)@ == old(store)@,
            all_present(old(store)@, parents@) ==> match derive_root(old(store)@, cs_id, changes@, parents@) {
                None => r == Err::<ManifestId, DeriveError>(DeriveError::InconsistentParents),
                Some(id) => r == Ok::<ManifestId, DeriveError>(id) && derived(
                    old(store)@,
                    final(store)@,
                    cs_id,
                    changes@,
                    parents@,
                    id,
                ),
            },
    {
        let ghost s0 = store@;
        if store.len() == 0 && parents.len() > 0 {
            proof {
                if store_has(s0, parents@[0]) {
                    let k = store_rank(s0, parents@[0]);
                    assert(store_at(s0, parents@[0], k));
                }
            }
            return Err(DeriveError::MissingManifest);
        }
        let unique = dedup_ids(&parents);
        let mut i: usize = 0;
        while i < unique.len()
            invariant
                i <= unique.len(),
                store@ == s0,
                s0 == old(store)@,
                store_ok(s0),
                unique@ == dedup(parents@),
                forall|k: int| 0 <= k < i ==> store_has(s0, #[trigger] unique@[k]),
            decreases unique.len() - i,
        {
            if store.find(unique[i]).is_none() {
                proof {
                    let x = unique@[i as int];
                    assert(unique@.contains(x));
                    lemma_dedup(parents@, x);
                    let j = choose|j: int| 0 <= j < parents@.len() && parents@[j] == x;
                    assert(!store_has(s0, parents@[j]));
                }
                return Err(DeriveError::MissingManifest);
            }
            i += 1;
        }
        proof {
            assert forall|j: int| 0 <= j < parents@.len() implies store_has(s0, #[trigger] parents@[j]) by {
                assert(parents@.contains(parents@[j]));
                lemma_dedup(parents@, parents@[j]);
                let k = choose|k: int| 0 <= k < unique@.len() && unique@[k] == parents@[j];
                assert(store_has(s0, unique@[k]));
            }
        }
        let root = DeletedManifestUnfoldNode { path_element: None, changes: Some(&changes), parents: unique };
        let ghost made = derive_made(s0, cs_id, Some(changes@), dedup(parents@));
        match visit(store, Ghost(s0), cs_id, &root) {
            Err(e) => Err(e),
            Ok((_, Some(id))) => Ok(id),
            Ok((_, None)) => {
                let ghost before = store@;
                let id = Self::save_manifest(DeletedManifest::empty(), store);
                proof {
                    let all = made.insert(ManifestView::empty());
                    assert forall|i: int| s0.len() <= i < store@.len() implies all.contains((#[trigger] store@[i]).1)
                        && !store_has(s0, store@[i].0) by {
                        if i < before.len() {
                            assert(store@[i] == before[i]);
                        } else {
                            if store_has(s0, store@[i].0) {
                                lemma_extends_has(before, s0, store@[i].0);
                            }
                        }
                    }
                    assert forall|v: ManifestView| #[trigger] all.contains(v) implies store_has(
                        store@,
                        manifest_id(v),
                    ) by {
                        if made.contains(v) {
                            lemma_extends_has(store@, before, manifest_id(v));
                        }
                    }
                }
                Ok(id)
            },
        }
    }
}

} // verus!
