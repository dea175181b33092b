//! Double-hash digests.

use vstd::prelude::*;

use crate::serialization::{
    holds_at, lemma_holds_at_both, ErrorSerialization, SerializableBigEndian,
    SerializableLittleEndian,
};

verus! {

/// A 32-byte double-hash digest.
pub type HashType = [u8; 32];

/// The double SHA-256 digest of a byte sequence, in the hash function's own byte order.
pub uninterp spec fn sha256d_of(data: Seq<u8>) -> Seq<u8>;

/// Relies on `bitcoin_hashes::sha256d::Hash::hash` (with `Hash::to_byte_array`):
/// the double SHA-256 digest of `data`, which depends on `data` alone.
#[verifier::external_body]
pub(crate) fn hash256d(data: &[u8]) -> (r: HashType)
    ensures
        r@ == sha256d_of(data@),
{
    <bitcoin_hashes::sha256d::Hash as bitcoin_hashes::Hash>::to_byte_array(
        <bitcoin_hashes::sha256d::Hash as bitcoin_hashes::Hash>::hash(data),
    )
}

/// Whether two digests hold the same bytes.
pub fn hash_eq(a: &HashType, b: &HashType) -> (r: bool)
    ensures
        r == (a@ == b@),
{
    let mut i: usize = 0;
    while i < 32
        invariant
            0 <= i <= 32,
            a@.len() == 32 && b@.len() == 32,
            forall|j: int| 0 <= j < i ==> a@[j] == b@[j],
        decreases 32 - i,
    {
        if a[i] != b[i] {
            return false;
        }
        i += 1;
    }
    assert(a@ =~= b@);
    true
}

/// The bytes of `h` from last to first.
pub open spec fn reversed(h: Seq<u8>) -> Seq<u8> {
    Seq::new(h.len(), |i: int| h[h.len() - 1 - i])
}

/// The digest with its bytes in the opposite order.
pub fn reverse_hash(h: &HashType) -> (r: HashType)
    ensures
        r@ == reversed(h@),
{
    let mut out: HashType = [0u8; 32];
    let mut i: usize = 0;
    while i < 32
        invariant
            0 <= i <= 32,
            h@.len() == 32,
            forall|j: int| 0 <= j < i ==> #[trigger] out@[j] == h@[31 - j],
        decreases 32 - i,
    {
        out[i] = h[31 - i];
        i += 1;
    }
    assert(out@ =~= reversed(h@));
    out
}

/// Copies 32 bytes at `pos`, in order (`rev == false`) or from last to first.
pub(crate) fn read_hash_at(data: &[u8], pos: usize, rev: bool) -> (h: HashType)
    requires
        pos + 32 <= data@.len(),
    ensures
        !rev ==> h@ == data@.subrange(pos as int, pos + 32),
        rev ==> reversed(h@) == data@.subrange(pos as int, pos + 32),
{
    let n = data.len();
    let mut h: HashType = [0u8; 32];
    let mut i: usize = 0;
    while i < 32
        invariant
            0 <= i <= 32,
            pos + 32 <= data@.len(),
            n == data@.len(),
            forall|j: int|
                0 <= j < i ==> #[trigger] h@[j] == if rev {
                    data@[pos + 31 - j]
                } else {
                    data@[pos + j]
                },
        decreases 32 - i,
    {
        if rev {
            h[i] = data[pos + 31 - i];
        } else {
            h[i] = data[pos + i];
        }
        i += 1;
    }
    assert(!rev ==> h@ =~= data@.subrange(pos as int, pos + 32));
    assert(rev ==> reversed(h@) =~= data@.subrange(pos as int, pos + 32));
    h
}

/// Appends the bytes of `h`, in order or from last to first.
fn write_hash(h: &HashType, rev: bool, stream: &mut Vec<u8>)
    ensures
        !rev ==> final(stream)@ == old(stream)@ + h@,
        rev ==> final(stream)@ == old(stream)@ + reversed(h@),
{
    let mut i: usize = 0;
    while i < 32
        invariant
            0 <= i <= 32,
            !rev ==> stream@ == old(stream)@ + h@.subrange(0, i as int),
            rev ==> stream@ == old(stream)@ + reversed(h@).subrange(0, i as int),
        decreases 32 - i,
    {
        let b = if rev {
            h[31 - i]
        } else {
            h[i]
        };
        stream.push(b);
        proof {
            assert(!rev ==> h@.subrange(0, i + 1) =~= h@.subrange(0, i as int).push(b));
            assert(rev ==> reversed(h@).subrange(0, i + 1) =~= reversed(h@).subrange(0, i as int).push(b));
        }
        i += 1;
    }
    assert(h@.subrange(0, 32) =~= h@);
    assert(reversed(h@).subrange(0, 32) =~= reversed(h@));
}

proof fn lemma_reversed_injective(a: HashType, b: HashType)
    requires
        reversed(a@) == reversed(b@),
    ensures
        a == b,
{
    assert forall|i: int| 0 <= i < 32 implies a@[i] == b@[i] by {
        assert(a@.len() == 32 && b@.len() == 32);
        assert(reversed(a@)[31 - i] == reversed(b@)[31 - i]);
        assert(reversed(a@)[31 - i] == a@[32 - 1 - (31 - i)]);
        assert(reversed(b@)[31 - i] == b@[32 - 1 - (31 - i)]);
    }
    assert(a@ =~= b@);
    assert(a =~= b);
}

/// In little-endian order a digest is written from its last byte to its first.
impl SerializableLittleEndian for HashType {
    open spec fn le_bytes(&self) -> Seq<u8> {
        reversed(self@)
    }

    fn le_serialize(&self, stream: &mut Vec<u8>) {
        write_hash(self, true, stream);
    }

    fn le_deserialize(data: &[u8], pos: usize) -> (r: Result<(Self, usize), ErrorSerialization>) {
        if pos > data.len() || 32 > data.len() - pos {
            proof {
                assert forall|v: HashType| !holds_at(data@, pos as int, #[trigger] v.le_bytes()) by {}
            }
            return Err(ErrorSerialization::ErrorInDeserialization("hash".to_string()));
        }
        let h = read_hash_at(data, pos, true);
        assert(holds_at(data@, pos as int, h.le_bytes()));
        Ok((h, pos + 32))
    }

    proof fn lemma_le_unique(data: Seq<u8>, pos: int, a: Self, b: Self) {
        lemma_holds_at_both(data, pos, a.le_bytes(), b.le_bytes());
        lemma_reversed_injective(a, b);
    }
}

/// In big-endian order a digest is written as it is held.
impl SerializableBigEndian for HashType {
    open spec fn be_bytes(&self) -> Seq<u8> {
        self@
    }

    fn be_serialize(&self, stream: &mut Vec<u8>) {
        write_hash(self, false, stream);
    }

    fn be_deserialize(data: &[u8], pos: usize) -> (r: Result<(Self, usize), ErrorSerialization>) {
        if pos > data.len() || 32 > data.len() - pos {
            proof {
                assert forall|v: HashType| !holds_at(data@, pos as int, #[trigger] v.be_bytes()) by {}
            }
            return Err(ErrorSerialization::ErrorInDeserialization("hash".to_string()));
        }
        let h = read_hash_at(data, pos, false);
        assert(holds_at(data@, pos as int, h.be_bytes()));
        Ok((h, pos + 32))
    }

    proof fn lemma_be_unique(data: Seq<u8>, pos: int, a: Self, b: Self) {
        lemma_holds_at_both(data, pos, a.be_bytes(), b.be_bytes());
        assert(a =~= b);
    }
}

} // verus!
