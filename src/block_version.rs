//! The version number that a block header carries.

use vstd::prelude::*;

use crate::serialization::{holds_at, ErrorSerialization, SerializableLittleEndian};

verus! {

/// A block version: a signed 32-bit number, written little-endian.
#[derive(Debug, Clone, Copy, PartialEq, Eq, Structural)]
pub struct BlockVersion {
    pub value: i32,
}

impl BlockVersion {
    pub fn version(value: i32) -> (r: BlockVersion)
        ensures
            r.value == value,
    {
        BlockVersion { value }
    }
}

impl SerializableLittleEndian for BlockVersion {
    open spec fn le_bytes(&self) -> Seq<u8> {
        self.value.le_bytes()
    }

    fn le_serialize(&self, stream: &mut Vec<u8>) {
        self.value.le_serialize(stream);
    }

    fn le_deserialize(data: &[u8], pos: usize) -> (r: Result<(Self, usize), ErrorSerialization>) {
        match i32::le_deserialize(data, pos) {
            Ok((value, end)) => {
                let v = BlockVersion { value };
                assert(holds_at(data@, pos as int, v.le_bytes()));
                Ok((v, end))
            },
            Err(e) => {
                proof {
                    assert forall|v: BlockVersion| !holds_at(data@, pos as int, #[trigger] v.le_bytes()) by {
                        if holds_at(data@, pos as int, v.le_bytes()) {
                            assert(holds_at(data@, pos as int, v.value.le_bytes()));
                        }
                    }
                }
                Err(e)
            },
        }
    }

    proof fn lemma_le_unique(data: Seq<u8>, pos: int, a: Self, b: Self) {
        i32::lemma_le_unique(data, pos, a.value, b.value);
    }
}

} // verus!
