//! Inventory announcements: a list of typed object hashes.

use vstd::prelude::*;

use crate::command_name::{CommandName, Message};
use crate::hash::HashType;
use crate::sequence::{lemma_list_each, lemma_list_unique, list_bytes, read_list, write_list};
use crate::serialization::{
    holds_at, lemma_holds_at_concat, ErrorSerialization, SerializableInternalOrder,
    SerializableLittleEndian,
};

verus! {

/// One announced object: the kind of object and its hash.
#[derive(Debug, Clone, Copy, PartialEq, Eq)]
pub struct InventoryVector {
    pub type_identifier: u32,
    pub hash_value: HashType,
}

/// An announcement of objects that the sender has.
pub struct InventoryMessage {
    pub inventory_vectors: Vec<InventoryVector>,
}

impl InventoryMessage {
    pub fn new(inventory_vectors: Vec<InventoryVector>) -> (r: InventoryMessage)
        ensures
            r.inventory_vectors == inventory_vectors,
    {
        InventoryMessage { inventory_vectors }
    }
}

impl Message for InventoryMessage {
    open spec fn command_name() -> CommandName {
        CommandName::Inventory
    }

    fn get_command_name() -> (r: CommandName) {
        CommandName::Inventory
    }
}

/// Two entries with one encoding are the same entry.
pub proof fn lemma_inventory_vector_round_trip(a: InventoryVector, b: InventoryVector)
    requires
        a.io_bytes() == b.io_bytes(),
    ensures
        a == b,
{
    let d = a.io_bytes();
    assert(d.subrange(0, d.len() as int) =~= d);
    lemma_holds_at_concat(d, 0, a.type_identifier.le_bytes(), a.hash_value.le_bytes());
    lemma_holds_at_concat(d, 0, b.type_identifier.le_bytes(), b.hash_value.le_bytes());
    u32::lemma_le_unique(d, 0, a.type_identifier, b.type_identifier);
    HashType::lemma_le_unique(d, 4, a.hash_value, b.hash_value);
}

/// An entry on the wire: its kind, then its hash in little-endian order.
impl SerializableInternalOrder for InventoryVector {
    open spec fn io_bytes(&self) -> Seq<u8> {
        self.type_identifier.le_bytes() + self.hash_value.le_bytes()
    }

    fn io_serialize(&self, stream: &mut Vec<u8>) {
        self.type_identifier.le_serialize(stream);
        self.hash_value.le_serialize(stream);
    }

    fn io_deserialize(data: &[u8], pos: usize) -> (r: Result<(Self, usize), ErrorSerialization>) {
        let ghost d = data@;
        let (type_identifier, p1) = match u32::le_deserialize(data, pos) {
            Ok(x) => x,
            Err(_) => {
                proof {
                    assert forall|v: Self| !holds_at(d, pos as int, #[trigger] v.io_bytes()) by {
                        lemma_holds_at_concat(d, pos as int, v.type_identifier.le_bytes(), v.hash_value.le_bytes());
                    }
                }
                return Err(ErrorSerialization::ErrorInDeserialization("InventoryVector.type_identifier".to_string()));
            },
        };
        let (hash_value, p2) = match HashType::le_deserialize(data, p1) {
            Ok(x) => x,
            Err(_) => {
                proof {
                    assert forall|v: Self| !holds_at(d, pos as int, #[trigger] v.io_bytes()) by {
                        lemma_holds_at_concat(d, pos as int, v.type_identifier.le_bytes(), v.hash_value.le_bytes());
                    }
                }
                return Err(ErrorSerialization::ErrorInDeserialization("InventoryVector.hash_value".to_string()));
            },
        };
        let v = InventoryVector { type_identifier, hash_value };
        proof {
            lemma_holds_at_concat(d, pos as int, v.type_identifier.le_bytes(), v.hash_value.le_bytes());
            assert(holds_at(d, pos as int, v.io_bytes()));
        }
        Ok((v, p2))
    }

    proof fn lemma_io_unique(data: Seq<u8>, pos: int, a: Self, b: Self) {
        lemma_holds_at_concat(data, pos, a.type_identifier.le_bytes(), a.hash_value.le_bytes());
        lemma_holds_at_concat(data, pos, b.type_identifier.le_bytes(), b.hash_value.le_bytes());
        u32::lemma_le_unique(data, pos, a.type_identifier, b.type_identifier);
        HashType::lemma_le_unique(data, pos + 4, a.hash_value, b.hash_value);
    }
}

/// Two messages with one encoding hold the same entries in the same order,
/// so reading back a written message gives the entries that were written.
pub proof fn lemma_inventory_round_trip(a: InventoryMessage, b: InventoryMessage)
    requires
        a.io_bytes() == b.io_bytes(),
    ensures
        a.inventory_vectors@ == b.inventory_vectors@,
{
    assert(a.inventory_vectors@.len() == a.inventory_vectors.len());
    assert(b.inventory_vectors@.len() == b.inventory_vectors.len());
    lemma_list_each(a.inventory_vectors@, b.inventory_vectors@);
    assert forall|i: int| 0 <= i < a.inventory_vectors@.len() implies a.inventory_vectors@[i]
        == b.inventory_vectors@[i] by {
        lemma_inventory_vector_round_trip(a.inventory_vectors@[i], b.inventory_vectors@[i]);
    }
    assert(a.inventory_vectors@ =~= b.inventory_vectors@);
}

/// A message on the wire: the entries as a list.
impl SerializableInternalOrder for InventoryMessage {
    open spec fn io_bytes(&self) -> Seq<u8> {
        list_bytes(self.inventory_vectors@)
    }

    fn io_serialize(&self, stream: &mut Vec<u8>) {
        write_list(&self.inventory_vectors, stream);
    }

    fn io_deserialize(data: &[u8], pos: usize) -> (r: Result<(Self, usize), ErrorSerialization>) {
        match read_list::<InventoryVector>(data, pos) {
            Ok((inventory_vectors, end)) => {
                let v = InventoryMessage { inventory_vectors };
                assert(holds_at(data@, pos as int, v.io_bytes()));
                Ok((v, end))
            },
            Err(e) => {
                proof {
                    assert forall|v: Self| !holds_at(data@, pos as int, #[trigger] v.io_bytes()) by {
                        assert(v.inventory_vectors@.len() == v.inventory_vectors.len());
                    }
                }
                Err(e)
            },
        }
    }

    proof fn lemma_io_unique(data: Seq<u8>, pos: int, a: Self, b: Self) {
        assert(a.inventory_vectors@.len() == a.inventory_vectors.len());
        assert(b.inventory_vectors@.len() == b.inventory_vectors.len());
        lemma_list_unique(data, pos, a.inventory_vectors@, b.inventory_vectors@);
    }
}

} // verus!
