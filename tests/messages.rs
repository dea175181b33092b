use cargosos_node::command_name::{CommandName, Message};
use cargosos_node::inventory_message::{InventoryMessage, InventoryVector};
use cargosos_node::message_to_peer::{ConnectionId, MessageBroadcast, MessageToPeer, Work};
use cargosos_node::send_cmpct::SendCmpctMessage;
use cargosos_node::serialization::{ErrorSerialization, SerializableInternalOrder};
use cargosos_node::version_message::{ErrorMessage, VersionMessage};

fn encode<T: SerializableInternalOrder>(v: &T) -> Vec<u8> {
    let mut out = Vec::new();
    v.io_serialize(&mut out);
    out
}

#[test]
fn send_cmpct_layout_and_round_trip() {
    let m = SendCmpctMessage { announce: true, version: 2 };
    let bytes = encode(&m);
    assert_eq!(bytes, vec![1, 2, 0, 0, 0, 0, 0, 0, 0]);
    assert!(matches!(SendCmpctMessage::io_deserialize(&bytes, 0), Ok((d, 9)) if d == m));
    assert!(SendCmpctMessage::io_deserialize(&bytes[..8], 0).is_err());
    assert!(SendCmpctMessage::io_deserialize(&[2, 0, 0, 0, 0, 0, 0, 0, 0], 0).is_err());
    assert_eq!(SendCmpctMessage::get_command_name(), CommandName::SendCmpct);
}

#[test]
fn inventory_round_trip() {
    let entries = vec![
        InventoryVector { type_identifier: 1, hash_value: [0x11; 32] },
        InventoryVector { type_identifier: 2, hash_value: [0x22; 32] },
    ];
    let m = InventoryMessage::new(entries.clone());
    let bytes = encode(&m);
    assert_eq!(bytes.len(), 1 + 2 * 36);
    assert_eq!(bytes[0], 2);
    assert_eq!(&bytes[1..5], &[1, 0, 0, 0]);
    match InventoryMessage::io_deserialize(&bytes, 0) {
        Ok((d, end)) => {
            assert_eq!(d.inventory_vectors, entries);
            assert_eq!(end, bytes.len());
        }
        Err(_) => panic!("inventory did not decode"),
    }
    assert!(InventoryMessage::io_deserialize(&bytes[..bytes.len() - 1], 0).is_err());
    assert_eq!(InventoryMessage::get_command_name(), CommandName::Inventory);
}

#[test]
fn empty_inventory() {
    let m = InventoryMessage::new(vec![]);
    assert_eq!(encode(&m), vec![0]);
    assert!(matches!(InventoryMessage::io_deserialize(&[0], 0), Ok((d, 1)) if d.inventory_vectors.is_empty()));
}

fn sample_version() -> VersionMessage {
    VersionMessage::new(
        70015,
        1,
        1_700_000_000,
        0,
        [0, 0, 0, 0, 0, 0, 0, 0, 0, 0, 0xff, 0xff, 127, 0, 0, 1],
        18333,
        [0u8; 16],
        18333,
        0x0102_0304_0506_0708,
        b"/node:0.1/".to_vec(),
        5,
        true,
    )
}

fn encode_version(m: &VersionMessage) -> Vec<u8> {
    let mut out = Vec::new();
    m.serialize(&mut out);
    out
}

#[test]
fn version_message_layout() {
    let bytes = encode_version(&sample_version());
    assert_eq!(bytes.len(), 85 + 10);
    assert_eq!(&bytes[0..4], &70015i32.to_le_bytes());
    assert_eq!(&bytes[4..12], &1u64.to_le_bytes());
    assert_eq!(&bytes[46..54], &1u64.to_le_bytes());
    assert_eq!(&bytes[80..90], b"/node:0.1/");
    assert_eq!(bytes[94], 1);
}

#[test]
fn version_message_round_trip() {
    let m = sample_version();
    let bytes = encode_version(&m);
    match VersionMessage::deserialize(&bytes) {
        Ok(d) => {
            assert_eq!(encode_version(&d), bytes);
            assert_eq!(d.user_agent, b"/node:0.1/".to_vec());
            assert_eq!(d.timestamp, 1_700_000_000);
            assert_eq!(d.recv_port, 18333);
            assert!(d.relay);
        }
        Err(_) => panic!("version did not decode"),
    }
}

#[test]
fn version_message_services_must_match() {
    let mut bytes = encode_version(&sample_version());
    bytes[46] = 9;
    assert_eq!(VersionMessage::deserialize(&bytes).err(), Some(ErrorMessage::ErrorInDeserialization));
}

#[test]
fn version_message_rejects_short_and_bad_relay() {
    let bytes = encode_version(&sample_version());
    assert!(VersionMessage::deserialize(&bytes[..84]).is_err());
    let mut bad = bytes.clone();
    let last = bad.len() - 1;
    bad[last] = 2;
    assert!(VersionMessage::deserialize(&bad).is_err());
}

#[test]
fn version_message_rejects_unrepresentable_time() {
    let mut m = sample_version();
    m.timestamp = i64::MAX;
    let bytes = encode_version(&m);
    assert!(VersionMessage::decode_payload(&bytes).is_ok());
    assert!(VersionMessage::deserialize(&bytes).is_err());
}

#[test]
fn command_names() {
    assert_eq!(&CommandName::Version.to_bytes(), b"version\0\0\0\0\0");
    assert_eq!(&CommandName::Inventory.to_bytes(), b"inv\0\0\0\0\0\0\0\0\0");
    assert_eq!(&CommandName::SendCmpct.to_bytes(), b"sendcmpct\0\0\0");
    assert_eq!(&CommandName::Block.to_bytes(), b"block\0\0\0\0\0\0\0");
    assert_eq!(&CommandName::Transaction.to_bytes(), b"tx\0\0\0\0\0\0\0\0\0\0");
    assert_eq!(VersionMessage::get_command_name(), CommandName::Version);
}

#[test]
fn message_to_peer_becomes_work() {
    let w: Work<MessageBroadcast> = MessageToPeer::Stop.into();
    assert!(matches!(w, Work::Stop));
    let id = ConnectionId { id: 3 };
    let w: Work<MessageBroadcast> = MessageToPeer::SendTransaction(
        cargosos_node::transaction::Transaction { version: 1, inputs: vec![], outputs: vec![], time_lock: 0 },
        Some(id),
    )
    .into();
    assert!(matches!(w, Work::Information(MessageBroadcast::Transaction(_, Some(ConnectionId { id: 3 })))));
}

#[test]
fn truncated_inventory_and_sendcmpct_fail_with_deserialization_errors() {
    for bytes in [vec![0xfd], vec![0xfd, 0x01], vec![0xfe, 0, 0, 0], vec![0xff, 0, 0, 0, 0, 0, 0, 0]] {
        assert!(matches!(
            InventoryMessage::io_deserialize(&bytes, 0),
            Err(ErrorSerialization::ErrorInDeserialization(_))
        ));
    }
    assert!(matches!(
        InventoryMessage::io_deserialize(&[2, 1, 0, 0, 0], 0),
        Err(ErrorSerialization::ErrorInDeserialization(_))
    ));
    for bytes in [vec![], vec![0x01], vec![0x01, 0x02, 0x00]] {
        assert!(matches!(
            SendCmpctMessage::io_deserialize(&bytes, 0),
            Err(ErrorSerialization::ErrorInDeserialization(_))
        ));
    }
    assert_eq!(VersionMessage::deserialize(&[0x7f, 0x11, 0x01]).err(), Some(ErrorMessage::ErrorInDeserialization));
}
