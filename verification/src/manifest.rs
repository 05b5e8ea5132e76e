//! The nodes of a deleted files manifest.

use vstd::prelude::*;
use vstd::bytes::{spec_u64_to_le_bytes, u64_to_le_bytes};
use crate::entries::{entries_map, lemma_absent_all, lemma_map_at, lemma_map_finite, lemma_sorted_entries, names_view, position, put_entry, remove_entry, sorted_entries, strictly_sorted};
use crate::hash::{Blake2, ChangesetId, ManifestId};
use crate::path::PathElement;

verus! {

/// What a node holds: the changeset that deleted the node's path, if the
/// path is deleted, and the nodes below it by name.
#[verifier::ext_equal]
pub struct ManifestView {
    pub linknode: Option<ChangesetId>,
    pub subentries: Map<Seq<u8>, ManifestId>,
}

impl ManifestView {
    /// The node of a path that is not deleted and has nothing deleted below.
    pub open spec fn empty() -> ManifestView {
        ManifestView { linknode: None, subentries: Map::empty() }
    }

    pub open spec fn is_deleted(self) -> bool {
        self.linknode is Some
    }

    pub open spec fn is_empty(self) -> bool {
        self.subentries.dom() =~= Set::empty()
    }

    /// A node that says nothing: its path is live and nothing below it is
    /// deleted. Only the root of a manifest may be such a node.
    pub open spec fn is_bare(self) -> bool {
        !self.is_deleted() && self.is_empty()
    }
}

/// One change to the subentries of a node: `Some` puts a node under the
/// name, `None` takes the name out.
pub open spec fn apply_update(m: Map<Seq<u8>, ManifestId>, u: (Seq<u8>, Option<ManifestId>)) -> Map<
    Seq<u8>,
    ManifestId,
> {
    match u.1 {
        Some(id) => m.insert(u.0, id),
        None => m.remove(u.0),
    }
}

/// The subentries `m` after the changes `ups`, made one after the other.
pub open spec fn apply_updates(m: Map<Seq<u8>, ManifestId>, ups: Seq<(Seq<u8>, Option<ManifestId>)>) -> Map<
    Seq<u8>,
    ManifestId,
>
    decreases ups.len(),
{
    if ups.len() == 0 {
        m
    } else {
        apply_update(apply_updates(m, ups.drop_last()), ups.last())
    }
}

/// The node made of the subentries of `base`, if there is one, changed by
/// `ups`, with the given linknode.
pub open spec fn updated_view(
    base: Option<ManifestView>,
    linknode: Option<ChangesetId>,
    ups: Seq<(Seq<u8>, Option<ManifestId>)>,
) -> ManifestView {
    let start = match base {
        Some(b) => b.subentries,
        None => Map::empty(),
    };
    ManifestView { linknode, subentries: apply_updates(start, ups) }
}

/// The bytes of one subentry: the length of its name in eight bytes, the
/// name, and the 32 bytes of the identifier.
pub open spec fn encode_entry(e: (Seq<u8>, ManifestId)) -> Seq<u8> {
    spec_u64_to_le_bytes(e.0.len() as u64) + e.0 + e.1.hash.bytes()
}

/// The bytes of a list of subentries, one after the other.
pub open spec fn encode_entries(es: Seq<(Seq<u8>, ManifestId)>) -> Seq<u8>
    decreases es.len(),
{
    if es.len() == 0 {
        Seq::empty()
    } else {
        encode_entries(es.drop_last()) + encode_entry(es.last())
    }
}

/// The bytes of a linknode: one byte that says whether there is one, then
/// its 32 bytes if there is.
pub open spec fn encode_linknode(l: Option<ChangesetId>) -> Seq<u8> {
    match l {
        None => seq![0u8],
        Some(c) => seq![1u8] + c.hash.bytes(),
    }
}

/// The bytes of a node with the subentries `es`: the linknode, the number
/// of subentries in eight bytes, and the subentries.
pub open spec fn encode_manifest(l: Option<ChangesetId>, es: Seq<(Seq<u8>, ManifestId)>) -> Seq<u8> {
    encode_linknode(l) + spec_u64_to_le_bytes(es.len() as u64) + encode_entries(es)
}

/// The serialized form of a node: its subentries are written in the
/// lexicographic byte order of their names.
pub open spec fn manifest_blob(v: ManifestView) -> Seq<u8> {
    encode_manifest(v.linknode, sorted_entries(v.subentries))
}

/// The identifier of a node: the hash of its serialized form.
pub open spec fn manifest_id(v: ManifestView) -> ManifestId {
    ManifestId { hash: Blake2::of(manifest_blob(v)) }
}

/// A node of a deleted files manifest. Its subentries are kept sorted by
/// name, each name once.
#[derive(Debug, PartialEq, Eq)]
pub struct DeletedManifest {
    linknode: Option<ChangesetId>,
    subentries: Vec<(PathElement, ManifestId)>,
}

impl View for DeletedManifest {
    type V = ManifestView;

    closed spec fn view(&self) -> ManifestView {
        ManifestView {
            linknode: self.linknode,
            subentries: entries_map(names_view(self.subentries@)),
        }
    }
}

impl DeletedManifest {
    #[verifier::type_invariant]
    spec fn inv(self) -> bool {
        strictly_sorted(names_view(self.subentries@))
    }

    /// The node of a path that is not deleted and has nothing deleted below.
    pub fn empty() -> (r: DeletedManifest)
        ensures
            r@ == ManifestView::empty(),
    {
        let r = DeletedManifest { linknode: None, subentries: Vec::new() };
        proof {
            lemma_absent_all(names_view(r.subentries@));
        }
        r
    }

    /// The node with the given linknode and subentries, which are sorted
    /// by name, each name once.
    pub(crate) fn from_sorted(linknode: Option<ChangesetId>, subentries: Vec<(PathElement, ManifestId)>) -> (r:
        DeletedManifest)
        requires
            strictly_sorted(names_view(subentries@)),
        ensures
            r@ == (ManifestView { linknode, subentries: entries_map(names_view(subentries@)) }),
    {
        DeletedManifest { linknode, subentries }
    }

    /// The changeset that deleted this node's path, if the path is deleted.
    pub fn linknode(&self) -> (r: Option<ChangesetId>)
        ensures
            r == self@.linknode,
    {
        self.linknode
    }

    /// Whether this node's path is deleted.
    pub fn is_deleted(&self) -> (r: bool)
        ensures
            r == self@.is_deleted(),
    {
        self.linknode.is_some()
    }

    /// Whether this node has no subentries.
    pub fn is_empty(&self) -> (r: bool)
        ensures
            r == self@.is_empty(),
    {
        proof {
            use_type_invariant(self);
            let s = names_view(self.subentries@);
            if s.len() > 0 {
                lemma_map_at(s, 0);
            } else {
                lemma_absent_all(s);
            }
        }
        self.subentries.len() == 0
    }

    /// The node under `name`, if there is one.
    pub fn lookup(&self, name: &PathElement) -> (r: Option<ManifestId>)
        ensures
            r == if self@.subentries.dom().contains(name@) {
                Some(self@.subentries[name@])
            } else {
                None
            },
    {
        proof {
            use_type_invariant(self);
        }
        let (pos, found) = position(&self.subentries, name);
        if found {
            proof {
                lemma_map_at(names_view(self.subentries@), pos as int);
            }
            Some(self.subentries[pos].1)
        } else {
            None
        }
    }

    /// The subentries, sorted by name.
    pub fn subentries(&self) -> (r: &Vec<(PathElement, ManifestId)>)
        ensures
            strictly_sorted(names_view(r@)),
            entries_map(names_view(r@)) == self@.subentries,
            self@.subentries.dom().finite(),
    {
        proof {
            use_type_invariant(self);
            lemma_map_finite(names_view(self.subentries@));
        }
        &self.subentries
    }

    /// Gives up the node for its subentries, sorted by name.
    pub fn into_subentries(self) -> (r: Vec<(PathElement, ManifestId)>)
        ensures
            strictly_sorted(names_view(r@)),
            entries_map(names_view(r@)) == self@.subentries,
    {
        proof {
            use_type_invariant(&self);
        }
        self.subentries
    }

    /// Makes a node with the given linknode. Its subentries are those of
    /// `base`, if there is one, changed by `updates` in their order: `Some`
    /// puts a node under the name, `None` takes the name out.
    pub fn copy_and_update_subentries(
        base: Option<&DeletedManifest>,
        linknode: Option<ChangesetId>,
        updates: &Vec<(PathElement, Option<ManifestId>)>,
    ) -> (r: DeletedManifest)
        ensures
            r@ == updated_view(
                match base {
                    Some(b) => Some(b@),
                    None => None,
                },
                linknode,
                names_view(updates@),
            ),
    {
        let mut entries: Vec<(PathElement, ManifestId)> = Vec::new();
        let ghost start: Map<Seq<u8>, ManifestId> = Map::empty();
        proof {
            lemma_absent_all(names_view(entries@));
        }
        match base {
            Some(b) => {
                proof {
                    use_type_invariant(b);
                    start = b@.subentries;
                }
                let mut i: usize = 0;
                while i < b.subentries.len()
                    invariant
                        i <= b.subentries.len(),
                        names_view(entries@) =~= names_view(b.subentries@).take(i as int),
                    decreases b.subentries.len() - i,
                {
                    let name = b.subentries[i].0.clone();
                    let id = b.subentries[i].1;
                    let ghost before = names_view(entries@);
                    entries.push((name, id));
                    proof {
                        let full = names_view(b.subentries@);
                        assert(names_view(entries@) =~= before.push((name@, id)));
                        assert(full.take(i + 1) =~= full.take(i as int).push(full[i as int]));
                    }
                    i += 1;
                }
                assert(names_view(b.subentries@).take(i as int) =~= names_view(b.subentries@));
            },
            None => {},
        }
        let ghost ups = names_view(updates@);
        let mut k: usize = 0;
        proof {
            assert(ups.take(0) =~= Seq::empty());
        }
        while k < updates.len()
            invariant
                k <= updates.len(),
                ups == names_view(updates@),
                strictly_sorted(names_view(entries@)),
                entries_map(names_view(entries@)) == apply_updates(start, ups.take(k as int)),
            decreases updates.len() - k,
        {
            proof {
                assert(ups.take(k + 1).drop_last() =~= ups.take(k as int));
                assert(ups.take(k + 1).last() == ups[k as int]);
            }
            match updates[k].1 {
                Some(id) => {
                    let name = updates[k].0.clone();
                    put_entry(&mut entries, name, id);
                },
                None => {
                    remove_entry(&mut entries, &updates[k].0);
                },
            }
            k += 1;
        }
        assert(ups.take(k as int) =~= ups);
        DeletedManifest { linknode, subentries: entries }
    }

    /// The serialized form of the node.
    fn encode(&self) -> (out: Vec<u8>)
        ensures
            out@ == manifest_blob(self@),
    {
        proof {
            use_type_invariant(self);
            lemma_sorted_entries(names_view(self.subentries@));
        }
        let ghost es = names_view(self.subentries@);
        let mut out: Vec<u8> = Vec::new();
        match self.linknode {
            None => {
                out.push(0u8);
            },
            Some(c) => {
                out.push(1u8);
                let mut b = c.hash.to_bytes();
                out.append(&mut b);
            },
        }
        assert(out@ =~= encode_linknode(self.linknode));
        let mut count = u64_to_le_bytes(self.subentries.len() as u64);
        out.append(&mut count);
        let mut i: usize = 0;
        while i < self.subentries.len()
            invariant
                i <= self.subentries.len(),
                es == names_view(self.subentries@),
                out@ =~= encode_linknode(self.linknode) + spec_u64_to_le_bytes(es.len() as u64)
                    + encode_entries(es.take(i as int)),
            decreases self.subentries.len() - i,
        {
            proof {
                assert(es.take(i + 1).drop_last() =~= es.take(i as int));
                assert(es.take(i + 1).last() == es[i as int]);
            }
            let name = self.subentries[i].0.as_bytes();
            let mut len = u64_to_le_bytes(name.len() as u64);
            let mut bytes = name.clone();
            let mut id = self.subentries[i].1.hash.to_bytes();
            out.append(&mut len);
            out.append(&mut bytes);
            out.append(&mut id);
            i += 1;
        }
        assert(es.take(i as int) =~= es);
        out
    }

    /// The serialized form of the node, which is what a store keeps.
    pub fn into_blob(self) -> (out: Vec<u8>)
        ensures
            out@ == manifest_blob(self@),
    {
        self.encode()
    }

    /// The identifier of the node.
    pub fn id(&self) -> (r: ManifestId)
        ensures
            r == manifest_id(self@),
            self@.subentries.dom().finite(),
    {
        proof {
            lemma_map_finite(names_view(self.subentries@));
        }
        let blob = self.encode();
        ManifestId { hash: Blake2::digest(blob.as_slice()) }
    }
}

impl Clone for DeletedManifest {
    fn clone(&self) -> (r: DeletedManifest)
        ensures
            r@ == self@,
    {
        let none: Vec<(PathElement, Option<ManifestId>)> = Vec::new();
        let r = DeletedManifest::copy_and_update_subentries(Some(self), self.linknode, &none);
        assert(r@ =~= self@);
        r
    }
}

} // verus!
