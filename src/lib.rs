//! Wire format, block model and broadcasting decisions of a small
//! peer-to-peer block chain node.

pub mod serialization;
pub mod hash;
pub mod compact_size;
pub mod compact256;
pub mod sequence;
pub mod transaction;
pub mod block_version;
pub mod merkle_tree;
pub mod block_header;
pub mod block;
pub mod command_name;
pub mod inventory_message;
pub mod send_cmpct;
pub mod version_message;
pub mod message_to_peer;
pub mod shutdown;
pub mod block_chain;
pub mod utxo_set;
pub mod message_manager;
pub mod peer_manager;
