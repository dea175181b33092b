//! Block headers: identity hash, proof of work and proof of inclusion.

use vstd::prelude::*;

use crate::block_version::BlockVersion;
use crate::compact256::{compact_bits_of_hash, compact_value, Compact256};
use crate::compact_size::CompactSize;
use crate::hash::{hash256d, hash_eq, read_hash_at, reverse_hash, reversed, sha256d_of, HashType};
use crate::merkle_tree::{merkle_root, tx_ids, MerkleTree};
use crate::serialization::{
    holds_at, lemma_holds_at3, lemma_holds_at_concat, read_u32_at, ErrorSerialization,
    SerializableBigEndian, SerializableInternalOrder, SerializableLittleEndian,
};
use crate::transaction::Transaction;

verus! {

const GENESIS_VERSION: i32 = 1;
const GENESIS_TIME: u32 = 0x4d49e5da;
const GENESIS_N_BITS: u32 = 0x1d00ffff;
const GENESIS_NONCE: u32 = 0x18aea41a;
const GENESIS_TRANSACTION_COUNT: u64 = 0;

/// One block's metadata.
#[derive(Debug, Clone, Copy, PartialEq, Eq)]
pub struct BlockHeader {
    pub version: BlockVersion,
    pub previous_block_header_hash: HashType,
    pub merkle_root_hash: HashType,
    pub time: u32,
    pub n_bits: Compact256,
    pub nonce: u32,
    pub transaction_count: CompactSize,
}

/// The first 80 bytes of a header on the wire, the part that is hashed: the
/// version, the previous hash (little-endian), the Merkle root (big-endian),
/// the time, the target and the nonce.
pub open spec fn head_bytes(
    version: BlockVersion,
    previous: HashType,
    merkle_root: HashType,
    time: u32,
    n_bits: Compact256,
    nonce: u32,
) -> Seq<u8> {
    version.le_bytes() + previous.le_bytes() + merkle_root.be_bytes() + time.le_bytes()
        + n_bits.le_bytes() + nonce.le_bytes()
}

/// The six hashed fields of a header, in wire order.
pub type HeadFields = (BlockVersion, HashType, HashType, u32, Compact256, u32);

pub open spec fn head_fields_bytes(f: HeadFields) -> Seq<u8> {
    head_bytes(f.0, f.1, f.2, f.3, f.4, f.5)
}

pub proof fn lemma_head_split(data: Seq<u8>, pos: int, f: HeadFields)
    ensures
        head_fields_bytes(f).len() == 80,
        holds_at(data, pos, head_fields_bytes(f)) <==> (holds_at(data, pos, f.0.le_bytes())
            && holds_at(data, pos + 4, f.1.le_bytes()) && holds_at(data, pos + 36, f.2.be_bytes())
            && holds_at(data, pos + 68, f.3.le_bytes()) && holds_at(data, pos + 72, f.4.le_bytes())
            && holds_at(data, pos + 76, f.5.le_bytes())),
{
    let a = f.0.le_bytes() + f.1.le_bytes() + f.2.be_bytes();
    let b = f.3.le_bytes() + f.4.le_bytes() + f.5.le_bytes();
    assert(head_fields_bytes(f) =~= a + b);
    lemma_holds_at_concat(data, pos, a, b);
    lemma_holds_at3(data, pos, f.0.le_bytes(), f.1.le_bytes(), f.2.be_bytes());
    lemma_holds_at3(data, pos + 68, f.3.le_bytes(), f.4.le_bytes(), f.5.le_bytes());
}

/// Any two sets of hashed fields whose encodings start at the same place are equal.
pub proof fn lemma_head_unique(data: Seq<u8>, pos: int, f: HeadFields, g: HeadFields)
    requires
        holds_at(data, pos, head_fields_bytes(f)),
        holds_at(data, pos, head_fields_bytes(g)),
    ensures
        f == g,
{
    lemma_head_split(data, pos, f);
    lemma_head_split(data, pos, g);
    BlockVersion::lemma_le_unique(data, pos, f.0, g.0);
    HashType::lemma_le_unique(data, pos + 4, f.1, g.1);
    HashType::lemma_be_unique(data, pos + 36, f.2, g.2);
    u32::lemma_le_unique(data, pos + 68, f.3, g.3);
    Compact256::lemma_le_unique(data, pos + 72, f.4, g.4);
    u32::lemma_le_unique(data, pos + 76, f.5, g.5);
}

/// Reads the six hashed fields of a header at `pos`.
pub fn read_head(data: &[u8], pos: usize) -> (r: Result<(HeadFields, usize), ErrorSerialization>)
    ensures
        r is Ok <==> exists|f: HeadFields| holds_at(data@, pos as int, #[trigger] head_fields_bytes(f)),
        r matches Ok((f, end)) ==> holds_at(data@, pos as int, head_fields_bytes(f)) && end == pos + 80,
        r matches Err(e) ==> e is ErrorInDeserialization,
{
    if pos > data.len() || 80 > data.len() - pos {
        proof {
            assert forall|f: HeadFields| !holds_at(data@, pos as int, #[trigger] head_fields_bytes(f)) by {
                lemma_head_split(data@, pos as int, f);
            }
        }
        return Err(ErrorSerialization::ErrorInDeserialization("BlockHeader: too short".to_string()));
    }
    let raw_version = read_u32_at(data, pos);
    let version = BlockVersion { value: raw_version as i32 };
    let previous = read_hash_at(data, pos + 4, true);
    let merkle = read_hash_at(data, pos + 36, false);
    let time = read_u32_at(data, pos + 68);
    let n_bits = Compact256 { bits: read_u32_at(data, pos + 72) };
    let nonce = read_u32_at(data, pos + 76);
    proof {
        let v = version.value;
        assert(v as u32 == raw_version) by (bit_vector)
            requires
                v == raw_version as i32,
        ;
    }
    let f = (version, previous, merkle, time, n_bits, nonce);
    proof {
        lemma_head_split(data@, pos as int, f);
        assert(holds_at(data@, pos as int, head_fields_bytes(f)));
    }
    Ok((f, pos + 80))
}

/// A header's identity: the double hash of its 80 hashed bytes, with the
/// byte order reversed.
pub open spec fn header_hash(h: BlockHeader) -> Seq<u8> {
    reversed(sha256d_of(h.head()))
}

/// Two headers that both include a transaction list store the same root, so
/// a header whose stored root differs in any bit from a correct one does not
/// include the list.
pub proof fn lemma_inclusion_fixes_root(a: BlockHeader, b: BlockHeader, transactions: Seq<Transaction>)
    requires
        a.spec_proof_of_inclusion(transactions),
        b.spec_proof_of_inclusion(transactions),
    ensures
        a.merkle_root_hash == b.merkle_root_hash,
{
    assert(a.merkle_root_hash@ == b.merkle_root_hash@);
    assert(a.merkle_root_hash =~= b.merkle_root_hash);
}

impl BlockHeader {
    /// The 80 hashed bytes of this header.
    pub open spec fn head(&self) -> Seq<u8> {
        head_bytes(
            self.version,
            self.previous_block_header_hash,
            self.merkle_root_hash,
            self.time,
            self.n_bits,
            self.nonce,
        )
    }

    /// Whether the stored target stands for a larger number than the packed
    /// form of this header's hash.
    pub open spec fn spec_proof_of_work(&self) -> bool {
        compact_value(self.n_bits.bits) > compact_value(compact_bits_of_hash(header_hash(*self)) as u32)
    }

    /// Whether `transactions` is non-empty and its Merkle root is the stored root.
    pub open spec fn spec_proof_of_inclusion(&self, transactions: Seq<Transaction>) -> bool {
        transactions.len() > 0 && merkle_root(tx_ids(transactions)) == self.merkle_root_hash@
    }

    pub fn new(
        version: BlockVersion,
        previous_block_header_hash: HashType,
        merkle_root_hash: HashType,
        time: u32,
        n_bits: Compact256,
        nonce: u32,
        transaction_count: CompactSize,
    ) -> (r: Self)
        ensures
            r == (BlockHeader {
                version,
                previous_block_header_hash,
                merkle_root_hash,
                time,
                n_bits,
                nonce,
                transaction_count,
            }),
    {
        BlockHeader {
            version,
            previous_block_header_hash,
            merkle_root_hash,
            time,
            n_bits,
            nonce,
            transaction_count,
        }
    }

    /// The header of the chain's first block.
    pub fn generate_genesis_block_header() -> (r: Self)
        ensures
            r.version.value == 1,
            r.previous_block_header_hash@ == Seq::new(32, |i: int| 0u8),
            r.merkle_root_hash@ == seq![
                0x3bu8, 0xa3, 0xed, 0xfd, 0x7a, 0x7b, 0x12, 0xb2, 0x7a, 0xc7, 0x2c, 0x3e, 0x67, 0x76,
                0x8f, 0x61, 0x7f, 0xc8, 0x1b, 0xc3, 0x88, 0x8a, 0x51, 0x32, 0x3a, 0x9f, 0xb8, 0xaa,
                0x4b, 0x1e, 0x5e, 0x4a,
            ],
            r.time == 0x4d49e5da,
            r.n_bits.bits == 0x1d00ffff,
            r.nonce == 0x18aea41a,
            r.transaction_count.value == 0,
    {
        let previous: HashType = [0u8; 32];
        let merkle: HashType = [
            0x3b, 0xa3, 0xed, 0xfd, 0x7a, 0x7b, 0x12, 0xb2, 0x7a, 0xc7, 0x2c, 0x3e, 0x67, 0x76,
            0x8f, 0x61, 0x7f, 0xc8, 0x1b, 0xc3, 0x88, 0x8a, 0x51, 0x32, 0x3a, 0x9f, 0xb8, 0xaa,
            0x4b, 0x1e, 0x5e, 0x4a,
        ];
        assert(previous@ =~= Seq::new(32, |i: int| 0u8));
        assert(merkle@ =~= seq![
            0x3bu8, 0xa3, 0xed, 0xfd, 0x7a, 0x7b, 0x12, 0xb2, 0x7a, 0xc7, 0x2c, 0x3e, 0x67, 0x76,
            0x8f, 0x61, 0x7f, 0xc8, 0x1b, 0xc3, 0x88, 0x8a, 0x51, 0x32, 0x3a, 0x9f, 0xb8, 0xaa,
            0x4b, 0x1e, 0x5e, 0x4a,
        ]);
        BlockHeader::new(
            BlockVersion::version(GENESIS_VERSION),
            previous,
            merkle,
            GENESIS_TIME,
            Compact256::from_bits(GENESIS_N_BITS),
            GENESIS_NONCE,
            CompactSize::new(GENESIS_TRANSACTION_COUNT),
        )
    }

    /// Appends the 80 hashed bytes of this header.
    pub(crate) fn head_serialize(&self, stream: &mut Vec<u8>)
        ensures
            final(stream)@ == old(stream)@ + self.head(),
    {
        self.version.le_serialize(stream);
        self.previous_block_header_hash.le_serialize(stream);
        self.merkle_root_hash.be_serialize(stream);
        self.time.le_serialize(stream);
        self.n_bits.le_serialize(stream);
        self.nonce.le_serialize(stream);
        assert(final(stream)@ =~= old(stream)@ + self.head());
    }

    /// The header's identity hash: the double hash of the 80 hashed bytes,
    /// reversed. Writing to memory cannot fail, so the result is always `Ok`.
    pub fn get_hash256d(&self) -> (r: Result<HashType, ErrorSerialization>)
        ensures
            r matches Ok(h) && h@ == header_hash(*self),
    {
        let mut buffer: Vec<u8> = Vec::new();
        self.head_serialize(&mut buffer);
        assert(buffer@ =~= self.head());
        let digest = hash256d(buffer.as_slice());
        let out = reverse_hash(&digest);
        Ok(out)
    }

    /// Whether the header's target is above its own hash, both in packed form.
    /// A failure to hash counts as no proof.
    pub fn proof_of_work(&self) -> (r: bool)
        ensures
            r == self.spec_proof_of_work(),
    {
        let hash = match self.get_hash256d() {
            Ok(hash) => hash,
            Err(_) => return false,
        };
        let compact_hash = Compact256::from_hash(&hash);
        self.n_bits.gt(&compact_hash)
    }

    /// Whether `transactions` belongs under this header: a Merkle tree can be
    /// built over it and its root is the stored root.
    pub fn proof_of_inclusion(&self, transactions: &[Transaction]) -> (r: bool)
        ensures
            r == self.spec_proof_of_inclusion(transactions@),
    {
        let merkle_tree = match MerkleTree::new(transactions) {
            Ok(merkle_tree) => merkle_tree,
            Err(_) => return false,
        };
        let root = merkle_tree.get_root();
        hash_eq(&root, &self.merkle_root_hash)
    }
}

/// Two headers with one encoding are the same header, so reading back a
/// written header gives the header that was written.
pub proof fn lemma_header_round_trip(a: BlockHeader, b: BlockHeader)
    requires
        a.io_bytes() == b.io_bytes(),
    ensures
        a == b,
{
    let d = a.io_bytes();
    assert(d.subrange(0, d.len() as int) =~= d);
    let fa: HeadFields = (a.version, a.previous_block_header_hash, a.merkle_root_hash, a.time,
        a.n_bits, a.nonce);
    let fb: HeadFields = (b.version, b.previous_block_header_hash, b.merkle_root_hash, b.time,
        b.n_bits, b.nonce);
    assert(a.head() == head_fields_bytes(fa));
    assert(b.head() == head_fields_bytes(fb));
    lemma_head_split(d, 0, fa);
    lemma_holds_at_concat(d, 0, a.head(), a.transaction_count.le_bytes());
    lemma_holds_at_concat(d, 0, b.head(), b.transaction_count.le_bytes());
    lemma_head_unique(d, 0, fa, fb);
    CompactSize::lemma_le_unique(d, 80, a.transaction_count, b.transaction_count);
}

/// A header on the wire: the 80 hashed bytes, then the transaction count.
impl SerializableInternalOrder for BlockHeader {
    open spec fn io_bytes(&self) -> Seq<u8> {
        self.head() + self.transaction_count.le_bytes()
    }

    fn io_serialize(&self, stream: &mut Vec<u8>) {
        self.head_serialize(stream);
        self.transaction_count.le_serialize(stream);
    }

    fn io_deserialize(data: &[u8], pos: usize) -> (r: Result<(Self, usize), ErrorSerialization>) {
        let ghost d = data@;
        let (f, p) = match read_head(data, pos) {
            Ok(x) => x,
            Err(e) => {
                proof {
                    assert forall|v: Self| !holds_at(d, pos as int, #[trigger] v.io_bytes()) by {
                        let g: HeadFields = (v.version, v.previous_block_header_hash, v.merkle_root_hash,
                            v.time, v.n_bits, v.nonce);
                        assert(v.head() == head_fields_bytes(g));
                        lemma_holds_at_concat(d, pos as int, v.head(), v.transaction_count.le_bytes());
                    }
                }
                return Err(e);
            },
        };
        let (transaction_count, end) = match CompactSize::le_deserialize(data, p) {
            Ok(x) => x,
            Err(_) => {
                proof {
                    assert forall|v: Self| !holds_at(d, pos as int, #[trigger] v.io_bytes()) by {
                        let g: HeadFields = (v.version, v.previous_block_header_hash, v.merkle_root_hash,
                            v.time, v.n_bits, v.nonce);
                        assert(v.head() == head_fields_bytes(g));
                        lemma_head_split(d, pos as int, g);
                        lemma_holds_at_concat(d, pos as int, v.head(), v.transaction_count.le_bytes());
                    }
                }
                return Err(ErrorSerialization::ErrorInDeserialization(
                    "BlockHeader.transaction_count".to_string(),
                ));
            },
        };
        let v = BlockHeader {
            version: f.0,
            previous_block_header_hash: f.1,
            merkle_root_hash: f.2,
            time: f.3,
            n_bits: f.4,
            nonce: f.5,
            transaction_count,
        };
        proof {
            assert(v.head() == head_fields_bytes(f));
            lemma_head_split(d, pos as int, f);
            lemma_holds_at_concat(d, pos as int, v.head(), v.transaction_count.le_bytes());
            assert(holds_at(d, pos as int, v.io_bytes()));
        }
        Ok((v, end))
    }

    proof fn lemma_io_unique(data: Seq<u8>, pos: int, a: Self, b: Self) {
        let fa: HeadFields = (a.version, a.previous_block_header_hash, a.merkle_root_hash, a.time,
            a.n_bits, a.nonce);
        let fb: HeadFields = (b.version, b.previous_block_header_hash, b.merkle_root_hash, b.time,
            b.n_bits, b.nonce);
        assert(a.head() == head_fields_bytes(fa));
        assert(b.head() == head_fields_bytes(fb));
        lemma_head_split(data, pos, fa);
        lemma_head_split(data, pos, fb);
        lemma_holds_at_concat(data, pos, a.head(), a.transaction_count.le_bytes());
        lemma_holds_at_concat(data, pos, b.head(), b.transaction_count.le_bytes());
        lemma_head_unique(data, pos, fa, fb);
        CompactSize::lemma_le_unique(data, pos + 80, a.transaction_count, b.transaction_count);
    }
}

} // verus!
