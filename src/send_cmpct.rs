//! Compact block negotiation.

use vstd::prelude::*;

use crate::command_name::{CommandName, Message};
use crate::serialization::{
    holds_at, lemma_holds_at_concat, ErrorSerialization, SerializableInternalOrder,
    SerializableLittleEndian,
};

verus! {

/// Whether the sender wants new blocks announced in compact form, and the
/// compact block version it speaks.
#[derive(Debug, Clone, Copy, PartialEq, Eq, Structural)]
pub struct SendCmpctMessage {
    pub announce: bool,
    pub version: u64,
}

impl Message for SendCmpctMessage {
    open spec fn command_name() -> CommandName {
        CommandName::SendCmpct
    }

    fn get_command_name() -> (r: CommandName) {
        CommandName::SendCmpct
    }
}

/// Two messages with one encoding are the same message.
pub proof fn lemma_send_cmpct_round_trip(a: SendCmpctMessage, b: SendCmpctMessage)
    requires
        a.io_bytes() == b.io_bytes(),
    ensures
        a == b,
{
    let d = a.io_bytes();
    assert(d.subrange(0, d.len() as int) =~= d);
    lemma_holds_at_concat(d, 0, a.announce.le_bytes(), a.version.le_bytes());
    lemma_holds_at_concat(d, 0, b.announce.le_bytes(), b.version.le_bytes());
    bool::lemma_le_unique(d, 0, a.announce, b.announce);
    u64::lemma_le_unique(d, 1, a.version, b.version);
}

/// On the wire: the flag as one byte, then the version in eight
/// little-endian bytes, with no length prefix.
impl SerializableInternalOrder for SendCmpctMessage {
    open spec fn io_bytes(&self) -> Seq<u8> {
        self.announce.le_bytes() + self.version.le_bytes()
    }

    fn io_serialize(&self, stream: &mut Vec<u8>) {
        self.announce.le_serialize(stream);
        self.version.le_serialize(stream);
    }

    fn io_deserialize(data: &[u8], pos: usize) -> (r: Result<(Self, usize), ErrorSerialization>) {
        let ghost d = data@;
        let (announce, p1) = match bool::le_deserialize(data, pos) {
            Ok(x) => x,
            Err(_) => {
                proof {
                    assert forall|v: Self| !holds_at(d, pos as int, #[trigger] v.io_bytes()) by {
                        lemma_holds_at_concat(d, pos as int, v.announce.le_bytes(), v.version.le_bytes());
                    }
                }
                return Err(ErrorSerialization::ErrorInDeserialization("SendCmpctMessage.announce".to_string()));
            },
        };
        let (version, p2) = match u64::le_deserialize(data, p1) {
            Ok(x) => x,
            Err(_) => {
                proof {
                    assert forall|v: Self| !holds_at(d, pos as int, #[trigger] v.io_bytes()) by {
                        lemma_holds_at_concat(d, pos as int, v.announce.le_bytes(), v.version.le_bytes());
                    }
                }
                return Err(ErrorSerialization::ErrorInDeserialization("SendCmpctMessage.version".to_string()));
            },
        };
        let v = SendCmpctMessage { announce, version };
        proof {
            lemma_holds_at_concat(d, pos as int, v.announce.le_bytes(), v.version.le_bytes());
            assert(holds_at(d, pos as int, v.io_bytes()));
        }
        Ok((v, p2))
    }

    proof fn lemma_io_unique(data: Seq<u8>, pos: int, a: Self, b: Self) {
        lemma_holds_at_concat(data, pos, a.announce.le_bytes(), a.version.le_bytes());
        lemma_holds_at_concat(data, pos, b.announce.le_bytes(), b.version.le_bytes());
        bool::lemma_le_unique(data, pos, a.announce, b.announce);
        u64::lemma_le_unique(data, pos + 1, a.version, b.version);
    }
}

} // verus!
