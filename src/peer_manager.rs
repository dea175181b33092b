//! The decisions of a peer worker: what to write for a request of the
//! coordinator, and when to stop.

use vstd::prelude::*;

use crate::block::{block_bytes, block_read_at, dedup, Block};
use crate::block_header::BlockHeader;
use crate::command_name::CommandName;
use crate::message_manager::MessageBroadcasting;
use crate::sequence::{lemma_list_unique, list_bytes};
use crate::serialization::{holds_at, lemma_holds_at_concat};
use crate::transaction::Transaction;
use crate::message_to_peer::{MessageBroadcast, Work};
use crate::serialization::SerializableInternalOrder;

verus! {

/// What a peer worker does next.
pub enum PeerAction {
    /// Write these bytes to the peer's stream.
    Write(Vec<u8>),
    /// Stop, and give the stream back.
    Stop,
}

/// The bytes that a request asks to be sent, or the order to stop.
pub fn peer_action(work: &Work<MessageBroadcast>) -> (r: PeerAction)
    ensures
        work is Stop <==> r is Stop,
        r matches PeerAction::Write(bytes) ==> match work {
            Work::Information(MessageBroadcast::Transaction(t, _)) => bytes@ == t.io_bytes(),
            Work::Information(MessageBroadcast::Block(b, _)) => bytes@ == block_bytes(
                b.header,
                b.transactions@,
            ),
            Work::Stop => false,
        },
{
    match work {
        Work::Information(MessageBroadcast::Transaction(transaction, _)) => {
            let mut bytes: Vec<u8> = Vec::new();
            transaction.io_serialize(&mut bytes);
            assert(bytes@ =~= transaction.io_bytes());
            PeerAction::Write(bytes)
        },
        Work::Information(MessageBroadcast::Block(block, _)) => {
            let mut bytes: Vec<u8> = Vec::new();
            block.serialize(&mut bytes);
            assert(bytes@ =~= block_bytes(block.header, block.transactions@));
            PeerAction::Write(bytes)
        },
        Work::Stop => PeerAction::Stop,
    }
}

/// The block whose encoding is exactly `payload`, if there is one.
fn whole_block(payload: &[u8]) -> (r: Option<Block>)
    ensures
        r is Some <==> exists|h: BlockHeader, w: Seq<Transaction>|
            w.len() <= u64::MAX && #[trigger] block_bytes(h, w) == payload@,
        r matches Some(b) ==> block_read_at(payload@, 0, b, payload@.len() as int),
{
    let ghost d = payload@;
    proof {
        assert(d.subrange(0, d.len() as int) =~= d);
    }
    match Block::deserialize(payload, 0) {
        Ok((b, end)) => {
            let ghost w0 = choose|w0: Seq<Transaction>|
                w0.len() <= u64::MAX && holds_at(d, 0, #[trigger] block_bytes(b.header, w0)) && end
                    == 0 + block_bytes(b.header, w0).len() && b.transactions@ == dedup(w0);
            if end == payload.len() {
                proof {
                    assert(block_bytes(b.header, w0) == d);
                }
                return Some(b);
            }
            proof {
                assert forall|h: BlockHeader, w: Seq<Transaction>|
                    w.len() <= u64::MAX implies #[trigger] block_bytes(h, w) != d by {
                    if block_bytes(h, w) == d {
                        lemma_holds_at_concat(d, 0, h.io_bytes(), list_bytes(w));
                        lemma_holds_at_concat(d, 0, b.header.io_bytes(), list_bytes(w0));
                        BlockHeader::lemma_io_unique(d, 0, h, b.header);
                        lemma_list_unique(d, h.io_bytes().len() as int, w, w0);
                    }
                }
            }
            None
        },
        Err(_) => {
            proof {
                assert forall|h: BlockHeader, w: Seq<Transaction>|
                    w.len() <= u64::MAX implies #[trigger] block_bytes(h, w) != d by {
                    if block_bytes(h, w) == d {
                        assert(holds_at(d, 0, block_bytes(h, w)));
                    }
                }
            }
            None
        },
    }
}

/// The coordinator event that a whole payload received from a peer stands
/// for: a transaction or a block whose encoding is exactly the payload.
/// Other commands, and payloads that are not such an encoding, give none.
pub fn peer_event(command: CommandName, payload: &[u8]) -> (r: Option<MessageBroadcasting>)
    ensures
        command is Transaction ==> (r is Some <==> exists|t: Transaction| #[trigger] t.io_bytes()
            == payload@),
        command is Transaction ==> (r matches Some(MessageBroadcasting::Transaction(t))
            || r is None),
        r matches Some(MessageBroadcasting::Transaction(t)) ==> t.io_bytes() == payload@,
        command is Block ==> (r is Some <==> exists|h: BlockHeader, w: Seq<Transaction>|
            w.len() <= u64::MAX && #[trigger] block_bytes(h, w) == payload@),
        command is Block ==> (r matches Some(MessageBroadcasting::Block(b)) || r is None),
        r matches Some(MessageBroadcasting::Block(b)) ==> block_read_at(
            payload@,
            0,
            b,
            payload@.len() as int,
        ),
        !(command is Transaction) && !(command is Block) ==> r is None,
{
    let ghost d = payload@;
    match command {
        CommandName::Transaction => {
            match Transaction::io_deserialize(payload, 0) {
                Ok((t, end)) => {
                    if end == payload.len() {
                        assert(d.subrange(0, d.len() as int) =~= d);
                        return Some(MessageBroadcasting::Transaction(t));
                    }
                    proof {
                        assert forall|t2: Transaction| #[trigger] t2.io_bytes() != d by {
                            if t2.io_bytes() == d {
                                assert(d.subrange(0, d.len() as int) =~= d);
                                Transaction::lemma_io_unique(d, 0, t, t2);
                            }
                        }
                    }
                    None
                },
                Err(_) => {
                    proof {
                        assert forall|t2: Transaction| #[trigger] t2.io_bytes() != d by {
                            if t2.io_bytes() == d {
                                assert(d.subrange(0, d.len() as int) =~= d);
                                assert(holds_at(d, 0, t2.io_bytes()));
                            }
                        }
                    }
                    None
                },
            }
        },
        CommandName::Block => match whole_block(payload) {
            Some(b) => Some(MessageBroadcasting::Block(b)),
            None => None,
        },
        _ => None,
    }
}

} // verus!
