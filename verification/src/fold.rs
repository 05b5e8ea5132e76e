//! The second half of the visit of a node: the node is made from the
//! results of the nodes below it, and saved.

use vstd::prelude::*;
use crate::derive::{DeletedManifestDeriver, DeriveError};
use crate::entries::names_view;
use crate::hash::{ChangesetId, ManifestId};
use crate::manifest::{apply_updates, manifest_id, updated_view, DeletedManifest, ManifestView};
use crate::path::PathElement;
use crate::store::{resolves_in, store_at, store_extends, store_has, store_ok, store_rank, ManifestStore, StoreView};
use crate::unfold::{opt_manifest_view, DeletedManifestChange, DeletedManifestChangeType};

verus! {

/// The node that the fold makes and saves, if it makes one: none where
/// the parent's node is taken as it is, and none where a path that exists
/// has nothing deleted below it.
pub open spec fn folded_node(
    cs_id: ChangesetId,
    change_type: DeletedManifestChangeType,
    base: Option<ManifestView>,
    ups: Seq<(Seq<u8>, Option<ManifestId>)>,
) -> Option<ManifestView> {
    match change_type {
        DeletedManifestChangeType::Reuse => None,
        DeletedManifestChangeType::CreateDeleted => Some(updated_view(base, Some(cs_id), ups)),
        DeletedManifestChangeType::RemoveIfNowEmpty => {
            let v = updated_view(base, None, ups);
            if v.is_empty() {
                None
            } else {
                Some(v)
            }
        },
    }
}

/// The identifier that the fold hands up: that of the parent's node where
/// it is taken as it is, that of the node made where one is made, and
/// none otherwise.
pub open spec fn fold_result(
    cs_id: ChangesetId,
    change_type: DeletedManifestChangeType,
    base: Option<ManifestView>,
    ups: Seq<(Seq<u8>, Option<ManifestId>)>,
) -> Option<ManifestId> {
    match change_type {
        DeletedManifestChangeType::Reuse => match base {
            Some(b) => Some(manifest_id(b)),
            None => None,
        },
        _ => match folded_node(cs_id, change_type, base, ups) {
            Some(v) => Some(manifest_id(v)),
            None => None,
        },
    }
}

/// What the fold makes of a node.
pub enum Folded {
    /// The parent's node is taken as it is, if there is one.
    Reused(Option<ManifestId>),
    /// A node was made. It has yet to be saved.
    Created(DeletedManifest),
    /// The path exists and nothing below it is deleted: no node.
    Dropped,
}

/// The results of the nodes below a node, as changes to its subentries.
pub open spec fn result_views(v: Seq<(Option<PathElement>, Option<ManifestId>)>) -> Seq<
    (Seq<u8>, Option<ManifestId>),
> {
    v.map_values(
        |r: (Option<PathElement>, Option<ManifestId>)|
            (
                match r.0 {
                    Some(p) => p@,
                    None => Seq::empty(),
                },
                r.1,
            ),
    )
}

/// Takes the results of the nodes below a node as changes to its
/// subentries. Each of them must come with the name of its path.
pub fn collect_subentries(results: Vec<(Option<PathElement>, Option<ManifestId>)>) -> (r: Result<
    Vec<(PathElement, Option<ManifestId>)>,
    DeriveError,
>)
    ensures
        r is Ok <==> forall|i: int| 0 <= i < results.len() ==> (#[trigger] results[i]).0 is Some,
        r matches Ok(ups) ==> names_view(ups@) == result_views(results@),
        r matches Err(e) ==> e == DeriveError::SubentryWithoutPath,
{
    let mut ups: Vec<(PathElement, Option<ManifestId>)> = Vec::new();
    let mut i: usize = 0;
    while i < results.len()
        invariant
            i <= results.len(),
            forall|k: int| 0 <= k < i ==> (#[trigger] results[k]).0 is Some,
            names_view(ups@) =~= result_views(results@).take(i as int),
        decreases results.len() - i,
    {
        match &results[i].0 {
            None => {
                return Err(DeriveError::SubentryWithoutPath);
            },
            Some(path) => {
                let ghost before = names_view(ups@);
                ups.push((path.clone(), results[i].1));
                proof {
                    let rv = result_views(results@);
                    assert(names_view(ups@) =~= before.push(rv[i as int]));
                    assert(rv.take(i + 1) =~= rv.take(i as int).push(rv[i as int]));
                }
            },
        }
        i += 1;
    }
    assert(result_views(results@).take(i as int) =~= result_views(results@));
    Ok(ups)
}

/// Makes what the decision taken at a node asks for, once the nodes below
/// it are done: `subentries_to_update` holds their results.
pub fn fold_manifest(
    cs_id: ChangesetId,
    change: DeletedManifestChange,
    subentries_to_update: &Vec<(PathElement, Option<ManifestId>)>,
) -> (r: Folded)
    ensures
        match change.change_type {
            DeletedManifestChangeType::Reuse => r matches Folded::Reused(id) && id == fold_result(
                cs_id,
                change.change_type,
                opt_manifest_view(change.copy_subentries_from),
                names_view(subentries_to_update@),
            ),
            _ => match folded_node(
                cs_id,
                change.change_type,
                opt_manifest_view(change.copy_subentries_from),
                names_view(subentries_to_update@),
            ) {
                Some(v) => r matches Folded::Created(m) && m@ == v,
                None => r is Dropped,
            },
        },
{
    match change.change_type {
        DeletedManifestChangeType::Reuse => {
            match &change.copy_subentries_from {
                Some(m) => Folded::Reused(Some(m.id())),
                None => Folded::Reused(None),
            }
        },
        DeletedManifestChangeType::CreateDeleted => {
            Folded::Created(
                DeletedManifest::copy_and_update_subentries(
                    change.copy_subentries_from.as_ref(),
                    Some(cs_id),
                    subentries_to_update,
                ),
            )
        },
        DeletedManifestChangeType::RemoveIfNowEmpty => {
            let manifest = DeletedManifest::copy_and_update_subentries(
                change.copy_subentries_from.as_ref(),
                None,
                subentries_to_update,
            );
            if !manifest.is_empty() {
                Folded::Created(manifest)
            } else {
                Folded::Dropped
            }
        },
    }
}

/// Changing subentries that resolve by identifiers that resolve gives
/// subentries that resolve.
pub proof fn lemma_updates_resolve(s: StoreView, m: Map<Seq<u8>, ManifestId>, ups: Seq<(Seq<u8>, Option<ManifestId>)>)
    requires
        forall|n: Seq<u8>| #[trigger] m.dom().contains(n) ==> store_has(s, m[n]),
        forall|i: int| 0 <= i < ups.len() ==> ((#[trigger] ups[i]).1 matches Some(id) ==> store_has(s, id)),
    ensures
        forall|n: Seq<u8>| #[trigger]
            apply_updates(m, ups).dom().contains(n) ==> store_has(s, apply_updates(m, ups)[n]),
    decreases ups.len(),
{
    if ups.len() > 0 {
        assert forall|i: int| 0 <= i < ups.drop_last().len() implies ((#[trigger] ups.drop_last()[i]).1 matches Some(
            id,
        ) ==> store_has(s, id)) by {
            assert(ups.drop_last()[i] == ups[i]);
        }
        lemma_updates_resolve(s, m, ups.drop_last());
        let u = ups[ups.len() - 1];
        assert(ups.last() == u);
        let before = apply_updates(m, ups.drop_last());
        let after = apply_updates(m, ups);
        assert forall|n: Seq<u8>| #[trigger] after.dom().contains(n) implies store_has(s, after[n]) by {
            match u.1 {
                Some(id) => {
                    if n != u.0 {
                        assert(before.dom().contains(n));
                    }
                },
                None => {
                    assert(before.dom().contains(n));
                },
            }
        }
    }
}

/// What a store holds is also in every store that extends it.
pub proof fn lemma_extends_has(s2: StoreView, s1: StoreView, id: ManifestId)
    requires
        store_extends(s2, s1),
        store_has(s1, id),
    ensures
        store_has(s2, id),
{
    let i = store_rank(s1, id);
    assert(store_at(s1, id, i));
    assert(store_at(s2, id, i));
}

/// Whether every subentry of the node that a decision starts from names a
/// node of `s`, and so does every result in `ups`.
pub open spec fn fold_resolves(s: StoreView, base: Option<ManifestView>, ups: Seq<(Seq<u8>, Option<ManifestId>)>) -> bool {
    &&& base matches Some(b) ==> resolves_in(s, b)
    &&& forall|i: int| 0 <= i < ups.len() ==> ((#[trigger] ups[i]).1 matches Some(id) ==> store_has(s, id))
}

/// The store `s` after the node `v` was saved into it.
pub open spec fn saved(s: StoreView, v: ManifestView) -> StoreView {
    if store_has(s, manifest_id(v)) {
        s
    } else {
        s.push((manifest_id(v), v))
    }
}

impl DeletedManifestDeriver {
    /// Saves a node into the store, unless the store holds a node under its
    /// identifier already, and gives the node's identifier. Every subentry
    /// of the node must name a node of the store.
    pub fn save_manifest(manifest: DeletedManifest, store: &mut ManifestStore) -> (id: ManifestId)
        requires
            resolves_in(old(store)@, manifest@),
        ensures
            id == manifest_id(manifest@),
            final(store)@ == saved(old(store)@, manifest@),
            store_ok(final(store)@),
            store_extends(final(store)@, old(store)@),
            store_has(final(store)@, id),
    {
        let ghost before = store@;
        let (id, _) = store.put_resolved(manifest);
        proof {
            if store_has(before, id) {
                lemma_extends_has(store@, before, id);
            } else {
                assert(store_at(store@, id, before.len() as int));
            }
        }
        id
    }

    /// Does what the decision taken at a node asks for, once the nodes below
    /// it are done, and saves the node that is made, if one is. Gives the
    /// identifier to hand up. Where a node is made, every subentry of the
    /// node that it starts from, and every result below it, must name a
    /// node of the store.
    pub fn do_create(
        store: &mut ManifestStore,
        cs_id: ChangesetId,
        change: DeletedManifestChange,
        subentries_to_update: &Vec<(PathElement, Option<ManifestId>)>,
    ) -> (r: Option<ManifestId>)
        requires
            change.change_type != DeletedManifestChangeType::Reuse ==> fold_resolves(
                old(store)@,
                opt_manifest_view(change.copy_subentries_from),
                names_view(subentries_to_update@),
            ),
        ensures
            r == fold_result(
                cs_id,
                change.change_type,
                opt_manifest_view(change.copy_subentries_from),
                names_view(subentries_to_update@),
            ),
            final(store)@ == match folded_node(
                cs_id,
                change.change_type,
                opt_manifest_view(change.copy_subentries_from),
                names_view(subentries_to_update@),
            ) {
                Some(v) => saved(old(store)@, v),
                None => old(store)@,
            },
            store_ok(old(store)@) ==> store_ok(final(store)@),
            store_extends(final(store)@, old(store)@),
            change.change_type != DeletedManifestChangeType::Reuse ==> (r matches Some(id) ==> store_has(
                final(store)@,
                id,
            )),
    {
        proof {
            if change.change_type != DeletedManifestChangeType::Reuse {
                let start = match opt_manifest_view(change.copy_subentries_from) {
                    Some(b) => b.subentries,
                    None => Map::empty(),
                };
                lemma_updates_resolve(store@, start, names_view(subentries_to_update@));
            }
        }
        match fold_manifest(cs_id, change, subentries_to_update) {
            Folded::Reused(id) => id,
            Folded::Dropped => None,
            Folded::Created(manifest) => Some(Self::save_manifest(manifest, store)),
        }
    }
}

} // verus!
