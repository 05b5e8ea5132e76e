//! 256-bit content hashes and the identifiers made of them.

use vstd::prelude::*;
use vstd::bytes::{spec_u64_from_le_bytes, spec_u64_to_le_bytes, u64_from_le_bytes, u64_to_le_bytes};
use vstd::slice::slice_subrange;

verus! {

/// The Blake2b digest of `data` with a 32-byte output: the hash function of
/// RFC 7693 with no key, salt or personalisation.
pub uninterp spec fn blake2b_256(data: Seq<u8>) -> Seq<u8>;

/// Calls `Blake2b::<U32>::digest` of the `blake2` crate. Nothing is proved of
/// it: the result is taken to be the digest named `blake2b_256`.
#[verifier::external_body]
fn blake2b_digest(data: &[u8]) -> (out: [u8; 32])
    ensures
        out@ == blake2b_256(data@),
{
    <blake2::Blake2b<blake2::digest::consts::U32> as blake2::Digest>::digest(data).into()
}

/// A 256-bit hash, held as four 64-bit words. Its 32 bytes are the words in
/// order, each in little-endian byte order.
#[derive(Clone, Copy, Debug, PartialEq, Eq, Structural, Hash, PartialOrd, Ord)]
pub struct Blake2 {
    pub w0: u64,
    pub w1: u64,
    pub w2: u64,
    pub w3: u64,
}

impl Blake2 {
    /// The 32 bytes of the hash.
    pub open spec fn bytes(self) -> Seq<u8> {
        spec_u64_to_le_bytes(self.w0) + spec_u64_to_le_bytes(self.w1) + spec_u64_to_le_bytes(
            self.w2,
        ) + spec_u64_to_le_bytes(self.w3)
    }

    /// The hash whose 32 bytes are `b`.
    pub open spec fn from_bytes_spec(b: Seq<u8>) -> Blake2 {
        Blake2 {
            w0: spec_u64_from_le_bytes(b.subrange(0, 8)),
            w1: spec_u64_from_le_bytes(b.subrange(8, 16)),
            w2: spec_u64_from_le_bytes(b.subrange(16, 24)),
            w3: spec_u64_from_le_bytes(b.subrange(24, 32)),
        }
    }

    /// The hash of `data`.
    pub open spec fn of(data: Seq<u8>) -> Blake2 {
        Blake2::from_bytes_spec(blake2b_256(data))
    }

    pub fn from_bytes(b: &[u8; 32]) -> (h: Blake2)
        ensures
            h == Blake2::from_bytes_spec(b@),
    {
        Blake2::from_slice(b.as_slice())
    }

    /// The hash whose 32 bytes are those of `s`.
    pub(crate) fn from_slice(s: &[u8]) -> (h: Blake2)
        requires
            s@.len() == 32,
        ensures
            h == Blake2::from_bytes_spec(s@),
    {
        Blake2 {
            w0: u64_from_le_bytes(slice_subrange(s, 0, 8)),
            w1: u64_from_le_bytes(slice_subrange(s, 8, 16)),
            w2: u64_from_le_bytes(slice_subrange(s, 16, 24)),
            w3: u64_from_le_bytes(slice_subrange(s, 24, 32)),
        }
    }

    pub fn to_bytes(&self) -> (out: Vec<u8>)
        ensures
            out@ == self.bytes(),
            out@.len() == 32,
    {
        let mut out = u64_to_le_bytes(self.w0);
        let mut b1 = u64_to_le_bytes(self.w1);
        let mut b2 = u64_to_le_bytes(self.w2);
        let mut b3 = u64_to_le_bytes(self.w3);
        out.append(&mut b1);
        out.append(&mut b2);
        out.append(&mut b3);
        out
    }

    /// Hashes `data`.
    pub fn digest(data: &[u8]) -> (h: Blake2)
        ensures
            h == Blake2::of(data@),
    {
        let out = blake2b_digest(data);
        Blake2::from_bytes(&out)
    }
}

/// Reading the bytes of a hash back gives the hash.
pub proof fn lemma_bytes_round_trip(h: Blake2)
    ensures
        h.bytes().len() == 32,
        Blake2::from_bytes_spec(h.bytes()) == h,
{
    vstd::bytes::lemma_auto_spec_u64_to_from_le_bytes();
    let b = h.bytes();
    assert(b.subrange(0, 8) =~= spec_u64_to_le_bytes(h.w0));
    assert(b.subrange(8, 16) =~= spec_u64_to_le_bytes(h.w1));
    assert(b.subrange(16, 24) =~= spec_u64_to_le_bytes(h.w2));
    assert(b.subrange(24, 32) =~= spec_u64_to_le_bytes(h.w3));
}

/// The bytes of the hash read from 32 bytes are those bytes.
pub proof fn lemma_from_bytes_round_trip(b: Seq<u8>)
    requires
        b.len() == 32,
    ensures
        Blake2::from_bytes_spec(b).bytes() == b,
{
    vstd::bytes::lemma_auto_spec_u64_to_from_le_bytes();
    let h = Blake2::from_bytes_spec(b);
    assert(spec_u64_to_le_bytes(h.w0) == b.subrange(0, 8));
    assert(spec_u64_to_le_bytes(h.w1) == b.subrange(8, 16));
    assert(spec_u64_to_le_bytes(h.w2) == b.subrange(16, 24));
    assert(spec_u64_to_le_bytes(h.w3) == b.subrange(24, 32));
    assert(h.bytes() =~= b);
}

/// Identifies a changeset.
#[derive(Clone, Copy, Debug, PartialEq, Eq, Structural, Hash, PartialOrd, Ord)]
pub struct ChangesetId {
    pub hash: Blake2,
}

/// Identifies a manifest node by the hash of its serialized form.
#[derive(Clone, Copy, Debug, PartialEq, Eq, Structural, Hash, PartialOrd, Ord)]
pub struct ManifestId {
    pub hash: Blake2,
}

/// The bytes of `deletedmanifest.blake2.`, with which the key of every
/// manifest node begins.
pub const KEY_PREFIX: [u8; 23] = [100, 101, 108, 101, 116, 101, 100, 109, 97, 110, 105, 102, 101, 115, 116, 46, 98, 108, 97, 107, 101, 50, 46];

/// The ASCII code of a hexadecimal digit, in lower case.
pub open spec fn hex_digit(n: int) -> u8 {
    if n < 10 {
        (48 + n) as u8
    } else {
        (87 + n) as u8
    }
}

/// The bytes `b` in hexadecimal digits, two for each byte.
pub open spec fn hex(b: Seq<u8>) -> Seq<u8>
    decreases b.len(),
{
    if b.len() == 0 {
        Seq::empty()
    } else {
        hex(b.drop_last()) + seq![hex_digit(b.last() as int / 16), hex_digit(b.last() as int % 16)]
    }
}

impl ManifestId {
    /// The key under which a blob store keeps the node: the prefix and
    /// the 64 hexadecimal digits of the identifier, all ASCII.
    pub open spec fn key(self) -> Seq<u8> {
        KEY_PREFIX@ + hex(self.hash.bytes())
    }

    /// The key under which a blob store keeps the node.
    pub fn blobstore_key(&self) -> (r: Vec<u8>)
        ensures
            r@ == self.key(),
            r@.len() == 23 + 64,
            forall|i: int| 0 <= i < r@.len() ==> r@[i] < 128,
    {
        let bytes = self.hash.to_bytes();
        let mut out: Vec<u8> = Vec::new();
        let mut i: usize = 0;
        while i < 23
            invariant
                i <= 23,
                out@ =~= KEY_PREFIX@.take(i as int),
                forall|k: int| 0 <= k < out@.len() ==> out@[k] < 128,
            decreases 23 - i,
        {
            out.push(KEY_PREFIX[i]);
            i += 1;
        }
        assert(KEY_PREFIX@.take(23) =~= KEY_PREFIX@);
        let mut j: usize = 0;
        proof {
            assert(bytes@.take(0) =~= Seq::empty());
        }
        while j < 32
            invariant
                j <= 32,
                bytes@.len() == 32,
                out@ =~= KEY_PREFIX@ + hex(bytes@.take(j as int)),
                out@.len() == 23 + 2 * j,
                forall|k: int| 0 <= k < out@.len() ==> out@[k] < 128,
            decreases 32 - j,
        {
            proof {
                assert(bytes@.take(j + 1).drop_last() =~= bytes@.take(j as int));
                assert(bytes@.take(j + 1).last() == bytes@[j as int]);
            }
            let b = bytes[j];
            let hi = b / 16;
            let lo = b % 16;
            out.push(if hi < 10 {
                48 + hi
            } else {
                87 + hi
            });
            out.push(if lo < 10 {
                48 + lo
            } else {
                87 + lo
            });
            j += 1;
        }
        assert(bytes@.take(32) =~= bytes@);
        out
    }
}

} // verus!
