//! A store of manifest nodes, each under its identifier.

use vstd::prelude::*;
use crate::blob::{decode, DecodeError};
use crate::entries::{entries_map, index_of, lemma_map_at, names_at, names_view, strictly_sorted};
use crate::hash::{Blake2, ManifestId};
use crate::manifest::{manifest_blob, manifest_id, DeletedManifest, ManifestView};

verus! {

/// What a store holds: the nodes in the order in which they were put, each
/// with its identifier.
pub type StoreView = Seq<(ManifestId, ManifestView)>;

/// `s` holds a node under `id` at index `i`.
pub open spec fn store_at(s: StoreView, id: ManifestId, i: int) -> bool {
    0 <= i < s.len() && s[i].0 == id
}

/// `s` holds a node under `id`.
pub open spec fn store_has(s: StoreView, id: ManifestId) -> bool {
    exists|i: int| store_at(s, id, i)
}

/// `s` holds a node under `id` before index `i`.
pub open spec fn store_has_below(s: StoreView, id: ManifestId, i: int) -> bool {
    exists|j: int| store_at(s, id, j) && j < i
}

/// The index at which `s` holds a node under `id`.
pub open spec fn store_rank(s: StoreView, id: ManifestId) -> int {
    choose|i: int| store_at(s, id, i)
}

/// The node that `s` holds under `id`.
pub open spec fn store_load(s: StoreView, id: ManifestId) -> ManifestView {
    s[store_rank(s, id)].1
}

/// Every node of `s` stands under its own identifier and has finitely many
/// subentries, no identifier occurs twice, and every subentry of a node
/// names a node put before it.
pub open spec fn store_ok(s: StoreView) -> bool {
    &&& forall|i: int| 0 <= i < s.len() ==> (#[trigger] s[i]).0 == manifest_id(s[i].1)
    &&& forall|i: int| 0 <= i < s.len() ==> (#[trigger] s[i]).1.subentries.dom().finite()
    &&& forall|i: int, j: int| 0 <= i < j < s.len() ==> (#[trigger] s[i]).0 != (#[trigger] s[j]).0
    &&& forall|i: int, n: Seq<u8>|
        0 <= i < s.len() && #[trigger] s[i].1.subentries.dom().contains(n) ==> store_has_below(
            s,
            s[i].1.subentries[n],
            i,
        )
}

/// `s2` holds what `s1` holds, at the same places, and perhaps more after.
pub open spec fn store_extends(s2: StoreView, s1: StoreView) -> bool {
    &&& s1.len() <= s2.len()
    &&& forall|i: int| 0 <= i < s1.len() ==> s2[i] == s1[i]
}

/// Every subentry of `v` names a node of `s`.
pub open spec fn resolves_in(s: StoreView, v: ManifestView) -> bool {
    forall|n: Seq<u8>| #[trigger] v.subentries.dom().contains(n) ==> store_has(s, v.subentries[n])
}

/// In a store without repeated identifiers the index of an identifier is
/// the place where it stands.
pub proof fn lemma_store_rank(s: StoreView, id: ManifestId, i: int)
    requires
        store_ok(s),
        store_at(s, id, i),
    ensures
        store_has(s, id),
        store_rank(s, id) == i,
        store_load(s, id) == s[i].1,
{
    let k = store_rank(s, id);
    assert(store_at(s, id, k));
    if k < i {
        assert(s[k].0 != s[i].0);
    } else if i < k {
        assert(s[i].0 != s[k].0);
    }
}

/// What a store holds stays where it is in every store that extends it.
pub proof fn lemma_extends_load(s2: StoreView, s1: StoreView, id: ManifestId)
    requires
        store_ok(s1),
        store_ok(s2),
        store_extends(s2, s1),
        store_has(s1, id),
    ensures
        store_has(s2, id),
        store_rank(s2, id) == store_rank(s1, id),
        store_load(s2, id) == store_load(s1, id),
{
    let i = store_rank(s1, id);
    assert(store_at(s1, id, i));
    assert(store_at(s2, id, i));
    lemma_store_rank(s2, id, i);
}

/// Manifest nodes in the order in which they were put. A node can only be
/// put once the nodes that its subentries name are there, so every
/// identifier that the store hands out resolves, and so does all below it.
pub struct ManifestStore {
    entries: Vec<(ManifestId, DeletedManifest)>,
}

impl View for ManifestStore {
    type V = StoreView;

    closed spec fn view(&self) -> StoreView {
        self.entries@.map_values(|e: (ManifestId, DeletedManifest)| (e.0, e.1@))
    }
}

impl ManifestStore {
    #[verifier::type_invariant]
    spec fn inv(self) -> bool {
        store_ok(self@)
    }

    /// A store that holds nothing.
    pub fn new() -> (r: ManifestStore)
        ensures
            r@.len() == 0,
    {
        ManifestStore { entries: Vec::new() }
    }

    /// How many nodes the store holds.
    pub fn len(&self) -> (n: usize)
        ensures
            n == self@.len(),
            store_ok(self@),
    {
        proof {
            use_type_invariant(self);
        }
        self.entries.len()
    }

    /// The identifier of the `i`-th node.
    pub fn id_at(&self, i: usize) -> (id: ManifestId)
        requires
            i < self@.len(),
        ensures
            id == self@[i as int].0,
    {
        self.entries[i].0
    }

    /// The `i`-th node.
    pub fn manifest_at(&self, i: usize) -> (m: &DeletedManifest)
        requires
            i < self@.len(),
        ensures
            m@ == self@[i as int].1,
    {
        &self.entries[i].1
    }

    /// The place of the node under `id`, if the store holds one.
    pub fn find(&self, id: ManifestId) -> (r: Option<usize>)
        ensures
            r is Some <==> store_has(self@, id),
            r matches Some(i) ==> store_at(self@, id, i as int) && i == store_rank(self@, id),
    {
        proof {
            use_type_invariant(self);
        }
        let mut i: usize = 0;
        while i < self.entries.len()
            invariant
                i <= self.entries.len(),
                store_ok(self@),
                forall|k: int| 0 <= k < i ==> !store_at(self@, id, k),
            decreases self.entries.len() - i,
        {
            if self.entries[i].0 == id {
                proof {
                    assert(store_at(self@, id, i as int));
                    lemma_store_rank(self@, id, i as int);
                }
                return Some(i);
            }
            i += 1;
        }
        proof {
            if store_has(self@, id) {
                let k = store_rank(self@, id);
                assert(store_at(self@, id, k));
            }
        }
        None
    }

    /// The node under `id`, if the store holds one.
    pub fn load(&self, id: ManifestId) -> (r: Option<&DeletedManifest>)
        ensures
            r is Some <==> store_has(self@, id),
            r matches Some(m) ==> m@ == store_load(self@, id),
    {
        match self.find(id) {
            Some(i) => Some(&self.entries[i].1),
            None => None,
        }
    }

    /// Whether every subentry of `manifest` names a node of the store.
    pub fn resolves(&self, manifest: &DeletedManifest) -> (r: bool)
        ensures
            r == resolves_in(self@, manifest@),
    {
        let subentries = manifest.subentries();
        let ghost es = names_view(subentries@);
        let mut i: usize = 0;
        while i < subentries.len()
            invariant
                i <= subentries.len(),
                es == names_view(subentries@),
                strictly_sorted(es),
                entries_map(es) == manifest@.subentries,
                forall|k: int| 0 <= k < i ==> store_has(self@, #[trigger] es[k].1),
            decreases subentries.len() - i,
        {
            if self.find(subentries[i].1).is_none() {
                proof {
                    lemma_map_at(es, i as int);
                }
                return false;
            }
            i += 1;
        }
        proof {
            assert forall|n: Seq<u8>| #[trigger] manifest@.subentries.dom().contains(n) implies store_has(
                self@,
                manifest@.subentries[n],
            ) by {
                let k = index_of(es, n);
                assert(names_at(es, n, k));
                lemma_map_at(es, k);
            }
        }
        true
    }

    /// Puts a node whose subentries all name nodes of the store, unless
    /// the store holds a node under its identifier already. Gives the
    /// node's identifier, and whether the node was put.
    pub(crate) fn put_resolved(&mut self, manifest: DeletedManifest) -> (r: (ManifestId, bool))
        requires
            resolves_in(old(self)@, manifest@),
        ensures
            r.0 == manifest_id(manifest@),
            r.1 == !store_has(old(self)@, r.0),
            final(self)@ == if r.1 {
                old(self)@.push((r.0, manifest@))
            } else {
                old(self)@
            },
            store_ok(final(self)@),
            store_extends(final(self)@, old(self)@),
    {
        proof {
            use_type_invariant(&*self);
        }
        let id = manifest.id();
        if self.find(id).is_some() {
            return (id, false);
        }
        let ghost s0 = self@;
        let ghost v = manifest@;
        let mut entries: Vec<(ManifestId, DeletedManifest)> = Vec::new();
        std::mem::swap(&mut entries, &mut self.entries);
        entries.push((id, manifest));
        proof {
            let s1 = entries@.map_values(|e: (ManifestId, DeletedManifest)| (e.0, e.1@));
            assert(s1 =~= s0.push((id, v)));
            assert forall|i: int, j: int| 0 <= i < j < s1.len() implies (#[trigger] s1[i]).0 != (#[trigger] s1[j]).0 by {
                if j == s0.len() {
                    assert(store_at(s0, id, i) || s1[i].0 != id);
                }
            }
            assert forall|i: int, n: Seq<u8>|
                0 <= i < s1.len() && #[trigger] s1[i].1.subentries.dom().contains(n) implies store_has_below(
                s1,
                s1[i].1.subentries[n],
                i,
            ) by {
                let c = s1[i].1.subentries[n];
                if i < s0.len() {
                    assert(s0[i].1.subentries.dom().contains(n));
                    let j = choose|j: int| store_at(s0, c, j) && j < i;
                    assert(store_at(s1, c, j));
                } else {
                    assert(v.subentries.dom().contains(n));
                    let j = store_rank(s0, c);
                    assert(store_at(s0, c, j));
                    assert(store_at(s1, c, j));
                }
            }
        }
        self.entries = entries;
        (id, true)
    }

    /// Puts a node, unless one of its subentries names no node of the
    /// store, or the store holds a node under its identifier already.
    /// Gives the node's identifier where all its subentries resolve.
    pub fn put(&mut self, manifest: DeletedManifest) -> (r: Option<ManifestId>)
        ensures
            r is Some <==> resolves_in(old(self)@, manifest@),
            r matches Some(id) ==> id == manifest_id(manifest@),
            final(self)@ == if resolves_in(old(self)@, manifest@) && !store_has(
                old(self)@,
                manifest_id(manifest@),
            ) {
                old(self)@.push((manifest_id(manifest@), manifest@))
            } else {
                old(self)@
            },
    {
        if self.resolves(&manifest) {
            let (id, _) = self.put_resolved(manifest);
            Some(id)
        } else {
            None
        }
    }

    /// Reads a node from its serialized form and puts it. Fails where
    /// the bytes are the serialized form of no node; gives no identifier
    /// where a subentry of the node names no node of the store.
    pub fn put_blob(&mut self, bytes: &[u8]) -> (r: Result<Option<ManifestId>, DecodeError>)
        ensures
            match decode(bytes@) {
                None => r is Err && final(self)@ == old(self)@,
                Some((linknode, es)) => {
                    let v = ManifestView { linknode, subentries: entries_map(es) };
                    &&& r matches Ok(id) && (id is Some <==> resolves_in(old(self)@, v)) && (id matches Some(i) ==> i
                        == manifest_id(v))
                    &&& final(self)@ == if resolves_in(old(self)@, v) && !store_has(old(self)@, manifest_id(v)) {
                        old(self)@.push((manifest_id(v), v))
                    } else {
                        old(self)@
                    }
                },
            },
    {
        match DeletedManifest::from_blob(bytes) {
            Err(e) => Err(e),
            Ok(m) => Ok(self.put(m)),
        }
    }

    /// The identifier and the serialized form of the `i`-th node: what goes
    /// to a blob store.
    pub fn blob_at(&self, i: usize) -> (r: (ManifestId, Vec<u8>))
        requires
            i < self@.len(),
        ensures
            r.0 == self@[i as int].0,
            r.1@ == manifest_blob(self@[i as int].1),
            r.0.hash == Blake2::of(r.1@),
    {
        proof {
            use_type_invariant(self);
        }
        let m = self.entries[i].1.clone();
        (self.entries[i].0, m.into_blob())
    }
}

} // verus!
