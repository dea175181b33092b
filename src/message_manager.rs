//! The coordinator's decisions: it owns the chain, the unspent outputs and
//! the active account, and changes them one event at a time.

use vstd::prelude::*;

use crate::block::Block;
use crate::block_chain::BlockChain;
use crate::transaction::Transaction;
use crate::utxo_set::{apply_all, utxo_views, UTXOSet};

verus! {

/// The wallet identity used to build transactions.
pub struct Account {
    pub public_key: Vec<u8>,
    pub address: Vec<u8>,
}

/// An event for the coordinator.
pub enum MessageBroadcasting {
    /// Replace the active account.
    ChangeAccount(Account),
    /// A transaction to validate and relay.
    Transaction(Transaction),
    /// A block that a peer announced.
    Block(Block),
    /// Stop and give back the chain and the unspent outputs.
    Exit,
}

/// What the coordinator's loop does after an event.
#[derive(Debug, Clone, Copy, PartialEq, Eq, Structural)]
pub enum CoordinatorAction {
    Continue,
    Stop,
}

/// The coordinator's state.
pub struct MessageManager {
    pub account: Account,
    pub block_chain: BlockChain,
    pub utxo_set: UTXOSet,
    pub pending_transactions: Vec<Transaction>,
}

impl MessageManager {
    pub open spec fn wf(&self) -> bool {
        self.block_chain.wf()
    }

    pub fn new(account: Account, block_chain: BlockChain, utxo_set: UTXOSet) -> (r: MessageManager)
        requires
            block_chain.wf(),
        ensures
            r.wf(),
            r.account == account,
            r.block_chain == block_chain,
            r.utxo_set == utxo_set,
            r.pending_transactions@.len() == 0,
    {
        MessageManager { account, block_chain, utxo_set, pending_transactions: Vec::new() }
    }

    /// Handles one event. A new account replaces the old one; a transaction
    /// is queued for relay; a block that the chain accepts is added to it and
    /// its transactions applied to the unspent outputs, and one it refuses
    /// changes nothing; `Exit` stops the loop and changes nothing.
    pub fn handle(&mut self, message: MessageBroadcasting) -> (r: CoordinatorAction)
        requires
            old(self).wf(),
        ensures
            final(self).wf(),
            (r == CoordinatorAction::Stop) <==> (message is Exit),
            message is ChangeAccount ==> final(self).account == message->ChangeAccount_0
                && final(self).block_chain == old(self).block_chain && final(self).utxo_set
                == old(self).utxo_set && final(self).pending_transactions
                == old(self).pending_transactions,
            message is Transaction ==> final(self).pending_transactions@
                == old(self).pending_transactions@.push(message->Transaction_0) && final(self).account
                == old(self).account && final(self).block_chain == old(self).block_chain
                && final(self).utxo_set == old(self).utxo_set,
            message is Block ==> final(self).account == old(self).account
                && final(self).pending_transactions == old(self).pending_transactions,
            message is Block && old(self).block_chain.accepts(message->Block_0) ==> final(self).block_chain.blocks@ == old(self).block_chain.blocks@.push(message->Block_0)
                && utxo_views(final(self).utxo_set.utxos@) == apply_all(
                utxo_views(old(self).utxo_set.utxos@),
                message->Block_0.transactions@,
            ),
            message is Block && !old(self).block_chain.accepts(message->Block_0) ==> final(self).block_chain.blocks@ == old(self).block_chain.blocks@ && final(self).utxo_set
                == old(self).utxo_set,
            message is Exit ==> final(self).account == old(self).account
                && final(self).block_chain == old(self).block_chain && final(self).utxo_set
                == old(self).utxo_set && final(self).pending_transactions
                == old(self).pending_transactions,
    {
        match message {
            MessageBroadcasting::ChangeAccount(account) => {
                self.account = account;
                CoordinatorAction::Continue
            },
            MessageBroadcasting::Transaction(transaction) => {
                self.pending_transactions.push(transaction);
                CoordinatorAction::Continue
            },
            MessageBroadcasting::Block(block) => {
                if self.block_chain.append_block(block).is_ok() {
                    let last = self.block_chain.latest();
                    self.utxo_set.update_with_block(last);
                }
                CoordinatorAction::Continue
            },
            MessageBroadcasting::Exit => CoordinatorAction::Stop,
        }
    }
}

} // verus!
