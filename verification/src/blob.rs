//! Reading a manifest node back from its serialized form.

use vstd::prelude::*;
use vstd::bytes::{spec_u64_from_le_bytes, spec_u64_to_le_bytes, u64_from_le_bytes};
use vstd::slice::{slice_subrange, slice_to_vec};
use crate::entries::{entries_map, lemma_absent_all, lemma_sorted_entries, names_view, strictly_sorted};
use crate::hash::{lemma_bytes_round_trip, lemma_from_bytes_round_trip, Blake2, ChangesetId, ManifestId};
use crate::manifest::{encode_entries, encode_entry, encode_linknode, encode_manifest, manifest_blob, DeletedManifest, ManifestView};
use crate::path::{lemma_lex_transitive, lex_lt, valid_element, Order, PathElement};

verus! {

/// The bytes are not the serialized form of a manifest node.
#[derive(Clone, Copy, Debug, PartialEq, Eq, Structural)]
pub struct DecodeError {}

/// A subentry: a name and the identifier of the node under it.
pub type Entry = (Seq<u8>, ManifestId);

/// The subentry whose bytes start at `pos`, and where they end. `None`
/// where the bytes end too early or the name cannot be a path element.
pub open spec fn entry_at(b: Seq<u8>, pos: int) -> Option<(Entry, int)> {
    if pos < 0 || pos + 8 > b.len() {
        None
    } else {
        let len = spec_u64_from_le_bytes(b.subrange(pos, pos + 8)) as int;
        if pos + 8 + len + 32 > b.len() {
            None
        } else {
            let name = b.subrange(pos + 8, pos + 8 + len);
            let id = ManifestId { hash: Blake2::from_bytes_spec(b.subrange(pos + 8 + len, pos + 8 + len + 32)) };
            if valid_element(name) {
                Some(((name, id), pos + 8 + len + 32))
            } else {
                None
            }
        }
    }
}

/// The `n` subentries whose bytes start at `pos` and go to the end.
pub open spec fn entries_at(b: Seq<u8>, pos: int, n: nat) -> Option<Seq<Entry>>
    decreases n,
{
    if n == 0 {
        if pos == b.len() {
            Some(Seq::empty())
        } else {
            None
        }
    } else {
        match entry_at(b, pos) {
            None => None,
            Some((e, next)) => match entries_at(b, next, (n - 1) as nat) {
                None => None,
                Some(rest) => Some(seq![e] + rest),
            },
        }
    }
}

/// The linknode at the start of the bytes, and where its bytes end.
pub open spec fn linknode_at(b: Seq<u8>) -> Option<(Option<ChangesetId>, int)> {
    if b.len() < 1 {
        None
    } else if b[0] == 0 {
        Some((None, 1))
    } else if b[0] == 1 && b.len() >= 33 {
        Some((Some(ChangesetId { hash: Blake2::from_bytes_spec(b.subrange(1, 33)) }), 33))
    } else {
        None
    }
}

/// The linknode and the subentries that the bytes are the serialized
/// form of. `None` where they are that of no node.
pub open spec fn decode(b: Seq<u8>) -> Option<(Option<ChangesetId>, Seq<Entry>)> {
    match linknode_at(b) {
        None => None,
        Some((linknode, p)) => if p + 8 > b.len() {
            None
        } else {
            let count = spec_u64_from_le_bytes(b.subrange(p, p + 8));
            match entries_at(b, p + 8, count as nat) {
                None => None,
                Some(es) => if strictly_sorted(es) {
                    Some((linknode, es))
                } else {
                    None
                },
            }
        },
    }
}

/// The subentries have names that can be path elements, in ascending
/// order, and their number and the lengths of the names fit in 64 bits.
pub open spec fn valid_entries(es: Seq<Entry>) -> bool {
    &&& strictly_sorted(es)
    &&& es.len() <= u64::MAX
    &&& forall|i: int| 0 <= i < es.len() ==> valid_element((#[trigger] es[i]).0) && es[i].0.len() <= u64::MAX
}

/// What `rest` gives after the subentries `done`.
pub open spec fn after(done: Seq<Entry>, rest: Option<Seq<Entry>>) -> Option<Seq<Entry>> {
    match rest {
        Some(r) => Some(done + r),
        None => None,
    }
}

/// The bytes of a list of subentries are those of the first and then
/// those of the others.
pub proof fn lemma_encode_first(e: Entry, rest: Seq<Entry>)
    ensures
        encode_entries(seq![e] + rest) == encode_entry(e) + encode_entries(rest),
    decreases rest.len(),
{
    let all = seq![e] + rest;
    if rest.len() == 0 {
        assert(all.drop_last() =~= Seq::empty());
        assert(encode_entries(all.drop_last()) =~= Seq::empty());
        assert(encode_entries(rest) =~= Seq::empty());
        assert(encode_entries(all) =~= encode_entry(e) + encode_entries(rest));
    } else {
        assert(all.drop_last() =~= seq![e] + rest.drop_last());
        assert(all.last() == rest.last());
        lemma_encode_first(e, rest.drop_last());
        assert(encode_entries(all) =~= encode_entry(e) + encode_entries(rest));
    }
}

/// Reading the subentry that was written at `pos` gives it back.
pub proof fn lemma_entry_at(b: Seq<u8>, pos: int, e: Entry)
    requires
        0 <= pos,
        valid_element(e.0),
        e.0.len() <= u64::MAX,
        pos + encode_entry(e).len() <= b.len(),
        b.subrange(pos, pos + encode_entry(e).len()) == encode_entry(e),
    ensures
        entry_at(b, pos) == Some((e, pos + encode_entry(e).len())),
        encode_entry(e).len() == 8 + e.0.len() + 32,
{
    vstd::bytes::lemma_auto_spec_u64_to_from_le_bytes();
    lemma_bytes_round_trip(e.1.hash);
    let enc = encode_entry(e);
    let len = e.0.len() as int;
    let head = spec_u64_to_le_bytes(e.0.len() as u64);
    assert(enc.len() == 8 + len + 32);
    assert(b.subrange(pos, pos + 8) =~= enc.subrange(0, 8));
    assert(enc.subrange(0, 8) =~= head);
    assert(b.subrange(pos + 8, pos + 8 + len) =~= enc.subrange(8, 8 + len));
    assert(enc.subrange(8, 8 + len) =~= e.0);
    assert(b.subrange(pos + 8 + len, pos + 8 + len + 32) =~= enc.subrange(8 + len, 8 + len + 32));
    assert(enc.subrange(8 + len, 8 + len + 32) =~= e.1.hash.bytes());
}

/// Reading the subentries that were written from `pos` to the end gives
/// them back.
pub proof fn lemma_entries_at(b: Seq<u8>, pos: int, es: Seq<Entry>)
    requires
        0 <= pos <= b.len(),
        forall|i: int| 0 <= i < es.len() ==> valid_element((#[trigger] es[i]).0) && es[i].0.len() <= u64::MAX,
        b.subrange(pos, b.len() as int) == encode_entries(es),
    ensures
        entries_at(b, pos, es.len()) == Some(es),
    decreases es.len(),
{
    if es.len() == 0 {
        assert(encode_entries(es).len() == 0);
        assert(b.subrange(pos, b.len() as int).len() == b.len() - pos);
        assert(entries_at(b, pos, 0) =~= Some(es));
    } else {
        let e = es[0];
        let rest = es.drop_first();
        assert(es =~= seq![e] + rest);
        lemma_encode_first(e, rest);
        let enc = encode_entry(e);
        let tail = b.subrange(pos, b.len() as int);
        assert(tail.len() == b.len() - pos);
        assert(tail == enc + encode_entries(rest));
        assert(b.subrange(pos, pos + enc.len()) =~= tail.subrange(0, enc.len() as int));
        assert(tail.subrange(0, enc.len() as int) =~= enc);
        lemma_entry_at(b, pos, e);
        let next = pos + enc.len();
        assert(b.subrange(next, b.len() as int) =~= tail.subrange(enc.len() as int, tail.len() as int));
        assert(tail.subrange(enc.len() as int, tail.len() as int) =~= encode_entries(rest));
        assert forall|i: int| 0 <= i < rest.len() implies valid_element((#[trigger] rest[i]).0) && rest[i].0.len()
            <= u64::MAX by {
            assert(rest[i] == es[i + 1]);
        }
        lemma_entries_at(b, next, rest);
        assert(entries_at(b, pos, es.len()) == Some(seq![e] + rest));
    }
}

/// Round trip: reading the serialized form of a node gives the node.
pub proof fn law_decode_encode(linknode: Option<ChangesetId>, es: Seq<Entry>)
    requires
        valid_entries(es),
    ensures
        decode(encode_manifest(linknode, es)) == Some((linknode, es)),
{
    vstd::bytes::lemma_auto_spec_u64_to_from_le_bytes();
    let b = encode_manifest(linknode, es);
    let l = encode_linknode(linknode);
    let c = spec_u64_to_le_bytes(es.len() as u64);
    let body = encode_entries(es);
    match linknode {
        Some(cs) => {
            lemma_bytes_round_trip(cs.hash);
            assert(b.subrange(1, 33) =~= cs.hash.bytes());
        },
        None => {},
    }
    let p = l.len() as int;
    assert(b.subrange(p, p + 8) =~= c);
    assert(b.subrange(p + 8, b.len() as int) =~= body);
    lemma_entries_at(b, p + 8, es);
}

/// What was read from `pos` on is what the bytes hold there.
pub proof fn lemma_entries_written(b: Seq<u8>, pos: int, n: nat)
    requires
        0 <= pos <= b.len(),
        entries_at(b, pos, n) is Some,
    ensures
        ({
            let es = entries_at(b, pos, n)->Some_0;
            &&& es.len() == n
            &&& b.subrange(pos, b.len() as int) == encode_entries(es)
            &&& forall|i: int| 0 <= i < es.len() ==> valid_element((#[trigger] es[i]).0) && es[i].0.len() <= u64::MAX
        }),
    decreases n,
{
    vstd::bytes::lemma_auto_spec_u64_to_from_le_bytes();
    let es = entries_at(b, pos, n)->Some_0;
    if n == 0 {
        assert(b.subrange(pos, b.len() as int) =~= encode_entries(es));
    } else {
        let (e, next) = entry_at(b, pos)->Some_0;
        let rest = entries_at(b, next, (n - 1) as nat)->Some_0;
        lemma_entries_written(b, next, (n - 1) as nat);
        assert(es == seq![e] + rest);
        lemma_encode_first(e, rest);
        let len = e.0.len() as int;
        let lb = b.subrange(pos, pos + 8);
        assert(len == spec_u64_from_le_bytes(lb) as int);
        assert(spec_u64_to_le_bytes(e.0.len() as u64) == lb);
        lemma_from_bytes_round_trip(b.subrange(pos + 8 + len, pos + 8 + len + 32));
        assert(encode_entry(e) =~= b.subrange(pos, next));
        assert(b.subrange(pos, b.len() as int) =~= b.subrange(pos, next) + b.subrange(next, b.len() as int));
        assert forall|i: int| 0 <= i < es.len() implies valid_element((#[trigger] es[i]).0) && es[i].0.len()
            <= u64::MAX by {
            if i > 0 {
                assert(es[i] == rest[i - 1]);
            }
        }
    }
}

/// Canonical form: bytes that can be read as a node are the serialized
/// form of that node, and of no other.
pub proof fn law_encode_decode(b: Seq<u8>)
    requires
        decode(b) is Some,
    ensures
        encode_manifest(decode(b)->Some_0.0, decode(b)->Some_0.1) == b,
        valid_entries(decode(b)->Some_0.1),
{
    vstd::bytes::lemma_auto_spec_u64_to_from_le_bytes();
    let (linknode, es) = decode(b)->Some_0;
    let (l, p) = linknode_at(b)->Some_0;
    let cb = b.subrange(p, p + 8);
    let count = spec_u64_from_le_bytes(cb);
    lemma_entries_written(b, p + 8, count as nat);
    assert(spec_u64_to_le_bytes(es.len() as u64) == cb);
    match linknode {
        Some(cs) => {
            lemma_from_bytes_round_trip(b.subrange(1, 33));
            assert(encode_linknode(linknode) =~= b.subrange(0, 33));
        },
        None => {
            assert(encode_linknode(linknode) =~= b.subrange(0, 1));
        },
    }
    assert(b =~= b.subrange(0, p) + cb + b.subrange(p + 8, b.len() as int));
}

/// Reads the subentry whose bytes start at `pos`.
fn read_entry(bytes: &[u8], pos: usize) -> (r: Option<(PathElement, ManifestId, usize)>)
    requires
        pos <= bytes@.len(),
    ensures
        match entry_at(bytes@, pos as int) {
            None => r is None,
            Some((e, next)) => r matches Some((name, id, n)) && name@ == e.0 && id == e.1 && n == next,
        },
{
    let total = bytes.len();
    if total - pos < 8 {
        return None;
    }
    let len = u64_from_le_bytes(slice_subrange(bytes, pos, pos + 8));
    let room = total - pos - 8;
    if len > room as u64 {
        return None;
    }
    let len = len as usize;
    if room - len < 32 {
        return None;
    }
    let name_bytes = slice_to_vec(slice_subrange(bytes, pos + 8, pos + 8 + len));
    let id = ManifestId { hash: Blake2::from_slice(slice_subrange(bytes, pos + 8 + len, pos + 8 + len + 32)) };
    match PathElement::new(name_bytes) {
        Some(name) => Some((name, id, pos + 8 + len + 32)),
        None => None,
    }
}

impl DeletedManifest {
    /// Reads a node from its serialized form. Fails where the bytes are
    /// the serialized form of no node.
    pub fn from_blob(bytes: &[u8]) -> (r: Result<DeletedManifest, DecodeError>)
        ensures
            match decode(bytes@) {
                Some((linknode, es)) => r matches Ok(m) && m@ == (ManifestView {
                    linknode,
                    subentries: entries_map(es),
                }),
                None => r is Err,
            },
            r matches Ok(m) ==> manifest_blob(m@) == bytes@,
    {
        let ghost b = bytes@;
        let total = bytes.len();
        if total < 1 {
            return Err(DecodeError {  });
        }
        let tag = bytes[0];
        let (linknode, p): (Option<ChangesetId>, usize) = if tag == 0 {
            (None, 1)
        } else if tag == 1 && total >= 33 {
            (Some(ChangesetId { hash: Blake2::from_slice(slice_subrange(bytes, 1, 33)) }), 33)
        } else {
            return Err(DecodeError {  });
        };
        if total - p < 8 {
            return Err(DecodeError {  });
        }
        let count = u64_from_le_bytes(slice_subrange(bytes, p, p + 8));
        let start = p + 8;
        let mut entries: Vec<(PathElement, ManifestId)> = Vec::new();
        let mut pos = start;
        let mut i: u64 = 0;
        let ghost whole = entries_at(b, start as int, count as nat);
        proof {
            lemma_absent_all(names_view(entries@));
            assert(after(names_view(entries@), entries_at(b, pos as int, count as nat)) =~= whole);
        }
        while i < count
            invariant
                i <= count,
                b == bytes@,
                pos <= bytes@.len(),
                whole == entries_at(b, start as int, count as nat),
                decode(b) == match whole {
                    None => None,
                    Some(es) => if strictly_sorted(es) {
                        Some((linknode, es))
                    } else {
                        None
                    },
                },
                whole == after(names_view(entries@), entries_at(b, pos as int, (count - i) as nat)),
                strictly_sorted(names_view(entries@)),
                entries.len() == i,
            decreases count - i,
        {
            let ghost done = names_view(entries@);
            match read_entry(bytes, pos) {
                None => {
                    return Err(DecodeError {  });
                },
                Some((name, id, next)) => {
                    let ghost e = (name@, id);
                    let ghost rest = entries_at(b, next as int, (count - i - 1) as nat);
                    proof {
                        assert(entries_at(b, pos as int, (count - i) as nat) == after(seq![e], rest));
                        assert(after(done, after(seq![e], rest)) =~= after(done.push(e), rest)) by {
                            if rest is Some {
                                assert(done + (seq![e] + rest->Some_0) =~= done.push(e) + rest->Some_0);
                            }
                        }
                    }
                    if entries.len() > 0 {
                        let last = entries.len() - 1;
                        if entries[last].0.order(&name) != Order::Less {
                            proof {
                                if whole is Some {
                                    let es = whole->Some_0;
                                    assert(es == done.push(e) + rest->Some_0);
                                    assert(es[last as int] == done[last as int]);
                                    assert(es[last + 1] == e);
                                    assert(!lex_lt(es[last as int].0, es[last + 1].0));
                                }
                            }
                            return Err(DecodeError {  });
                        }
                    }
                    entries.push((name, id));
                    proof {
                        let now = names_view(entries@);
                        assert(now =~= done.push(e));
                        assert forall|x: int, y: int| 0 <= x < y < now.len() implies lex_lt(
                            #[trigger] now[x].0,
                            #[trigger] now[y].0,
                        ) by {
                            if y == done.len() {
                                if x < done.len() - 1 {
                                    lemma_lex_transitive(done[x].0, done[done.len() - 1].0, e.0);
                                }
                            }
                        }
                    }
                    pos = next;
                    i += 1;
                },
            }
        }
        if pos != total {
            return Err(DecodeError {  });
        }
        proof {
            let es = names_view(entries@);
            assert(whole =~= Some(es));
            assert(decode(b) == Some((linknode, es)));
            law_encode_decode(b);
            lemma_sorted_entries(es);
        }
        Ok(DeletedManifest::from_sorted(linknode, entries))
    }
}

} // verus!
