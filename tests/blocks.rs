use cargosos_node::block::{Block, ErrorBlock};
use cargosos_node::block_header::BlockHeader;
use cargosos_node::block_version::BlockVersion;
use cargosos_node::compact256::Compact256;
use cargosos_node::compact_size::CompactSize;
use cargosos_node::merkle_tree::MerkleTree;
use cargosos_node::serialization::SerializableInternalOrder;
use cargosos_node::transaction::{Transaction, TransactionInput, TransactionOutput};

fn sha256d(data: &[u8]) -> [u8; 32] {
    <bitcoin_hashes::sha256d::Hash as bitcoin_hashes::Hash>::to_byte_array(
        <bitcoin_hashes::sha256d::Hash as bitcoin_hashes::Hash>::hash(data),
    )
}

fn parent(a: &[u8; 32], b: &[u8; 32]) -> [u8; 32] {
    let mut v = a.to_vec();
    v.extend_from_slice(b);
    sha256d(&v)
}

fn sample_transaction(seed: u8) -> Transaction {
    Transaction {
        version: 1,
        inputs: vec![TransactionInput {
            previous_hash: [seed; 32],
            previous_index: seed as u32,
            signature_script: vec![seed, 0x51],
            sequence: 0xffff_ffff,
        }],
        outputs: vec![TransactionOutput { value: 5_000_000_000 + seed as i64, pk_script: vec![0x76, 0xa9, seed] }],
        time_lock: 0,
    }
}

fn encode<T: SerializableInternalOrder>(v: &T) -> Vec<u8> {
    let mut out = Vec::new();
    v.io_serialize(&mut out);
    out
}

fn header_with_root(root: [u8; 32], count: u64) -> BlockHeader {
    BlockHeader::new(
        BlockVersion::version(2),
        [7u8; 32],
        root,
        1_700_000_000,
        Compact256::from_bits(0x1d00ffff),
        42,
        CompactSize::new(count),
    )
}

#[test]
fn genesis_header_hash() {
    let genesis = BlockHeader::generate_genesis_block_header();
    let hash = match genesis.get_hash256d() {
        Ok(h) => h,
        Err(_) => panic!("hashing failed"),
    };
    let expected: [u8; 32] = [
        0x00, 0x00, 0x00, 0x00, 0x09, 0x33, 0xea, 0x01, 0xad, 0x0e, 0xe9, 0x84, 0x20, 0x97, 0x79,
        0xba, 0xae, 0xc3, 0xce, 0xd9, 0x0f, 0xa3, 0xf4, 0x08, 0x71, 0x95, 0x26, 0xf8, 0xd7, 0x7f,
        0x49, 0x43,
    ];
    assert_eq!(hash, expected);
}

#[test]
fn genesis_header_has_proof_of_work() {
    let genesis = BlockHeader::generate_genesis_block_header();
    assert!(genesis.proof_of_work());
    let mut harder = genesis;
    harder.n_bits = Compact256::from_bits(0x1b00ffff);
    assert!(!harder.proof_of_work());
}

#[test]
fn genesis_header_fields() {
    let g = BlockHeader::generate_genesis_block_header();
    assert_eq!(g.version.value, 1);
    assert_eq!(g.previous_block_header_hash, [0u8; 32]);
    assert_eq!(g.merkle_root_hash[0], 0x3b);
    assert_eq!(g.merkle_root_hash[31], 0x4a);
    assert_eq!(g.time, 0x4d49e5da);
    assert_eq!(g.n_bits.bits, 0x1d00ffff);
    assert_eq!(g.nonce, 0x18aea41a);
    assert_eq!(g.transaction_count.value, 0);
}

#[test]
fn header_round_trip() {
    let h = header_with_root([3u8; 32], 253);
    let bytes = encode(&h);
    assert_eq!(bytes.len(), 83);
    assert_eq!(&bytes[36..68], &[3u8; 32]);
    match BlockHeader::io_deserialize(&bytes, 0) {
        Ok((d, end)) => {
            assert_eq!(d, h);
            assert_eq!(end, 83);
        }
        Err(_) => panic!("header did not decode"),
    }
    assert!(BlockHeader::io_deserialize(&bytes[..82], 0).is_err());
    assert!(BlockHeader::io_deserialize(&bytes[..40], 0).is_err());
}

#[test]
fn transaction_round_trip() {
    let t = sample_transaction(9);
    let bytes = encode(&t);
    match Transaction::io_deserialize(&bytes, 0) {
        Ok((d, end)) => {
            assert_eq!(encode(&d), bytes);
            assert_eq!(end, bytes.len());
            assert_eq!(d.inputs[0].signature_script, vec![9, 0x51]);
            assert_eq!(d.outputs[0].value, 5_000_000_009);
        }
        Err(_) => panic!("transaction did not decode"),
    }
    assert!(Transaction::io_deserialize(&bytes[..bytes.len() - 1], 0).is_err());
}

#[test]
fn transaction_id_is_double_hash() {
    let t = sample_transaction(1);
    assert_eq!(t.get_tx_id(), sha256d(&encode(&t)));
}

#[test]
fn merkle_root_for_small_blocks() {
    let txs: Vec<Transaction> = (0..3).map(sample_transaction).collect();
    let ids: Vec<[u8; 32]> = txs.iter().map(|t| sha256d(&encode(t))).collect();

    assert!(MerkleTree::new(&[]).is_err());

    let one = MerkleTree::new(&txs[..1]).ok().expect("tree");
    assert_eq!(one.get_root(), ids[0]);

    let two = MerkleTree::new(&txs[..2]).ok().expect("tree");
    assert_eq!(two.get_root(), parent(&ids[0], &ids[1]));

    let three = MerkleTree::new(&txs).ok().expect("tree");
    let expected = parent(&parent(&ids[0], &ids[1]), &parent(&ids[2], &ids[2]));
    assert_eq!(three.get_root(), expected);
    assert_eq!(three.leaves, ids);
}

#[test]
fn proof_of_inclusion_checks_root() {
    let txs: Vec<Transaction> = (0..3).map(sample_transaction).collect();
    let ids: Vec<[u8; 32]> = txs.iter().map(|t| sha256d(&encode(t))).collect();
    let roots = [
        None,
        Some(ids[0]),
        Some(parent(&ids[0], &ids[1])),
        Some(parent(&parent(&ids[0], &ids[1]), &parent(&ids[2], &ids[2]))),
    ];
    for n in 0..=3usize {
        let root = roots[n].unwrap_or([0u8; 32]);
        let header = header_with_root(root, n as u64);
        // No tree can be built over no transactions.
        assert_eq!(header.proof_of_inclusion(&txs[..n]), n > 0);
        if n > 0 {
            let mut altered = root;
            altered[5] ^= 0x10;
            assert!(!header_with_root(altered, n as u64).proof_of_inclusion(&txs[..n]));
        }
        if n > 1 {
            let mut reordered: Vec<Transaction> = txs[..n].to_vec();
            reordered.swap(0, 1);
            assert!(!header.proof_of_inclusion(&reordered));
        }
    }
}

#[test]
fn block_proof_of_inclusion() {
    let txs: Vec<Transaction> = (0..2).map(sample_transaction).collect();
    let ids: Vec<[u8; 32]> = txs.iter().map(|t| sha256d(&encode(t))).collect();
    let mut block = Block::new(header_with_root(parent(&ids[0], &ids[1]), 2));
    assert!(!block.proof_of_inclusion());
    for t in txs {
        assert!(block.append_transaccion(t).is_ok());
    }
    assert!(block.proof_of_inclusion());
}

#[test]
fn duplicate_transaction_is_tolerated() {
    let mut block = Block::new(header_with_root([0u8; 32], 0));
    assert!(block.transactions.is_empty());
    assert!(block.append_transaccion(sample_transaction(4)).is_ok());
    assert_eq!(
        block.append_transaccion(sample_transaction(4)),
        Err(ErrorBlock::TransactionAlreadyInBlock)
    );
    assert_eq!(block.transactions.len(), 1);
    assert!(block.append_transaccion(sample_transaction(5)).is_ok());
    assert_eq!(block.transactions.len(), 2);
}

#[test]
fn block_round_trip() {
    let mut block = Block::new(header_with_root([1u8; 32], 2));
    assert!(block.append_transaccion(sample_transaction(1)).is_ok());
    assert!(block.append_transaccion(sample_transaction(2)).is_ok());
    let mut bytes = Vec::new();
    block.serialize(&mut bytes);
    match Block::deserialize(&bytes, 0) {
        Ok((d, end)) => {
            assert_eq!(end, bytes.len());
            assert_eq!(d.header, block.header);
            let mut again = Vec::new();
            d.serialize(&mut again);
            assert_eq!(again, bytes);
        }
        Err(_) => panic!("block did not decode"),
    }
    assert!(Block::deserialize(&bytes[..bytes.len() - 2], 0).is_err());
}

#[test]
fn block_deserialize_drops_repeated_transactions() {
    let t = sample_transaction(3);
    let header = header_with_root([1u8; 32], 2);
    let mut bytes = Vec::new();
    bytes.extend_from_slice(&encode(&header));
    bytes.push(2);
    bytes.extend_from_slice(&encode(&t));
    bytes.extend_from_slice(&encode(&t));
    match Block::deserialize(&bytes, 0) {
        Ok((d, end)) => {
            assert_eq!(end, bytes.len());
            assert_eq!(d.transactions.len(), 1);
            assert_eq!(d.header, header);
        }
        Err(_) => panic!("block did not decode"),
    }
}

#[test]
fn block_layout_is_header_count_transactions() {
    // The header's own count (5) differs from the list length (1) and is kept.
    let mut block = Block::new(header_with_root([1u8; 32], 5));
    assert!(block.append_transaccion(sample_transaction(6)).is_ok());
    let mut bytes = Vec::new();
    block.serialize(&mut bytes);
    let header_bytes = encode(&block.header);
    assert_eq!(header_bytes.len(), 81);
    assert_eq!(&bytes[..81], &header_bytes[..]);
    assert_eq!(bytes[80], 5);
    assert_eq!(bytes[81], 1);
    assert_eq!(&bytes[82..], &encode(&block.transactions[0])[..]);
    match Block::deserialize(&bytes, 0) {
        Ok((d, _)) => {
            assert_eq!(d.header, block.header);
            assert_eq!(d.header.transaction_count.value, 5);
        }
        Err(_) => panic!("block did not decode"),
    }
}

#[test]
fn decode_errors_are_deserialization_errors() {
    use_err(BlockHeader::io_deserialize(&[0u8; 80], 0).err());
    use_err(BlockHeader::io_deserialize(&[], 0).err());
    use_err(Block::deserialize(&[0u8; 81], 0).err());
    use_err(Transaction::io_deserialize(&[1, 0, 0], 0).err());
}

fn use_err(e: Option<cargosos_node::serialization::ErrorSerialization>) {
    assert!(matches!(e, Some(cargosos_node::serialization::ErrorSerialization::ErrorInDeserialization(_))));
}
