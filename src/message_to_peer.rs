//! Requests that the coordinator hands to the worker of a peer.

use vstd::prelude::*;

use crate::block::Block;
use crate::transaction::Transaction;

verus! {

/// Names one peer connection.
#[derive(Debug, Clone, Copy, PartialEq, Eq, Structural)]
pub struct ConnectionId {
    pub id: u64,
}

/// What a peer worker is asked to send.
#[derive(Debug)]
pub enum MessageBroadcast {
    Transaction(Transaction, Option<ConnectionId>),
    Block(Block, ConnectionId),
}

/// One item of work for a worker: something to do, or the order to stop.
#[derive(Debug)]
pub enum Work<T> {
    Information(T),
    Stop,
}

/// Messages to send to the peer.
#[derive(Debug)]
pub enum MessageToPeer {
    SendTransaction(Transaction, Option<ConnectionId>),
    SendBlock(Block, ConnectionId),
    Stop,
}

/// The work item that a message to a peer stands for.
pub open spec fn work_of(m: MessageToPeer) -> Work<MessageBroadcast> {
    match m {
        MessageToPeer::SendTransaction(t, id) => Work::Information(MessageBroadcast::Transaction(t, id)),
        MessageToPeer::SendBlock(b, id) => Work::Information(MessageBroadcast::Block(b, id)),
        MessageToPeer::Stop => Work::Stop,
    }
}

impl From<MessageToPeer> for Work<MessageBroadcast> {
    fn from(message_to_peer: MessageToPeer) -> (r: Self) {
        match message_to_peer {
            MessageToPeer::SendTransaction(transaction, id) => {
                Work::Information(MessageBroadcast::Transaction(transaction, id))
            },
            MessageToPeer::SendBlock(block, id) => Work::Information(MessageBroadcast::Block(block, id)),
            MessageToPeer::Stop => Work::Stop,
        }
    }
}

impl vstd::std_specs::convert::FromSpecImpl<MessageToPeer> for Work<MessageBroadcast> {
    open spec fn obeys_from_spec() -> bool {
        true
    }

    open spec fn from_spec(v: MessageToPeer) -> Work<MessageBroadcast> {
        work_of(v)
    }
}

} // verus!
