//! The set of transaction outputs that no accepted transaction has spent.

use vstd::prelude::*;

use crate::block::Block;
use crate::hash::{hash_eq, reverse_hash, reversed, sha256d_of, HashType};
use crate::serialization::SerializableInternalOrder;
use crate::transaction::Transaction;

verus! {

/// One unspent output: the transaction that made it (its identifier in
/// display order, as inputs name it), its index there, its amount and its
/// locking script.
pub struct Utxo {
    pub tx_id: HashType,
    pub index: u32,
    pub value: i64,
    pub pk_script: Vec<u8>,
}

/// An unspent output as plain values.
pub type UtxoView = (Seq<u8>, u32, i64, Seq<u8>);

pub open spec fn utxo_view(u: Utxo) -> UtxoView {
    (u.tx_id@, u.index, u.value, u.pk_script@)
}

pub open spec fn utxo_views(s: Seq<Utxo>) -> Seq<UtxoView> {
    Seq::new(s.len(), |i: int| utxo_view(s[i]))
}

/// Whether an input of `tx` spends the output `u`.
pub open spec fn spends(tx: Transaction, u: UtxoView) -> bool {
    exists|i: int|
        0 <= i < tx.inputs@.len() && (#[trigger] tx.inputs@[i]).previous_hash@ == u.0
            && tx.inputs@[i].previous_index == u.1
}

/// The outputs of `s` that `tx` does not spend, in order.
pub open spec fn kept(s: Seq<UtxoView>, tx: Transaction) -> Seq<UtxoView>
    decreases s.len(),
{
    if s.len() == 0 {
        Seq::empty()
    } else if spends(tx, s.last()) {
        kept(s.drop_last(), tx)
    } else {
        kept(s.drop_last(), tx).push(s.last())
    }
}

/// The outputs that `tx` creates, named by its identifier in display order.
pub open spec fn created(tx: Transaction) -> Seq<UtxoView> {
    Seq::new(
        tx.outputs@.len(),
        |j: int|
            (
                reversed(sha256d_of(tx.io_bytes())),
                j as u32,
                tx.outputs@[j].value,
                tx.outputs@[j].pk_script@,
            ),
    )
}

/// The unspent outputs, in the order they were made.
pub struct UTXOSet {
    pub utxos: Vec<Utxo>,
}

fn copy_bytes(v: &Vec<u8>) -> (r: Vec<u8>)
    ensures
        r@ == v@,
{
    let mut r: Vec<u8> = Vec::new();
    let mut i: usize = 0;
    while i < v.len()
        invariant
            0 <= i <= v@.len(),
            r@ == v@.subrange(0, i as int),
        decreases v@.len() - i,
    {
        r.push(v[i]);
        assert(v@.subrange(0, i + 1) =~= v@.subrange(0, i as int).push(v@[i as int]));
        i += 1;
    }
    assert(v@.subrange(0, v@.len() as int) =~= v@);
    r
}

/// Whether an input of `tx` spends `u`.
fn is_spent_by(tx: &Transaction, u: &Utxo) -> (r: bool)
    ensures
        r == spends(*tx, utxo_view(*u)),
{
    let mut i: usize = 0;
    while i < tx.inputs.len()
        invariant
            0 <= i <= tx.inputs@.len(),
            forall|j: int|
                0 <= j < i ==> !((#[trigger] tx.inputs@[j]).previous_hash@ == u.tx_id@
                    && tx.inputs@[j].previous_index == u.index),
        decreases tx.inputs@.len() - i,
    {
        if hash_eq(&tx.inputs[i].previous_hash, &u.tx_id) && tx.inputs[i].previous_index == u.index {
            return true;
        }
        i += 1;
    }
    false
}

impl UTXOSet {
    pub fn new() -> (r: UTXOSet)
        ensures
            r.utxos@.len() == 0,
    {
        UTXOSet { utxos: Vec::new() }
    }

    /// Removes the outputs that `tx` spends, then adds the outputs it makes.
    pub fn update_with_transaction(&mut self, tx: &Transaction)
        ensures
            utxo_views(final(self).utxos@) == kept(utxo_views(old(self).utxos@), *tx) + created(*tx),
    {
        let ghost initial = utxo_views(self.utxos@);
        let n = self.utxos.len();
        let mut k: usize = 0;
        let mut i: usize = 0;
        while k < n
            invariant
                n == initial.len(),
                k <= n,
                i <= k,
                utxo_views(self.utxos@) == kept(initial.subrange(0, k as int), *tx)
                    + initial.subrange(k as int, n as int),
                i == kept(initial.subrange(0, k as int), *tx).len(),
            decreases n - k,
        {
            proof {
                assert(initial.subrange(0, k + 1).drop_last() =~= initial.subrange(0, k as int));
                assert(initial.subrange(0, k + 1).last() == initial[k as int]);
                assert(utxo_views(self.utxos@)[i as int] == initial[k as int]);
            }
            assert(utxo_views(self.utxos@).len() == self.utxos@.len());
            let ghost before = self.utxos@;
            if is_spent_by(tx, &self.utxos[i]) {
                self.utxos.remove(i);
                proof {
                    assert(utxo_views(self.utxos@) =~= utxo_views(before).remove(i as int));
                    assert(utxo_views(self.utxos@) =~= kept(initial.subrange(0, k + 1), *tx)
                        + initial.subrange(k + 1, n as int));
                }
            } else {
                proof {
                    assert(utxo_views(self.utxos@) =~= kept(initial.subrange(0, k + 1), *tx)
                        + initial.subrange(k + 1, n as int));
                }
                i += 1;
            }
            k += 1;
        }
        proof {
            assert(initial.subrange(0, n as int) =~= initial);
            assert(utxo_views(self.utxos@) =~= kept(initial, *tx));
        }
        let id = reverse_hash(&tx.get_tx_id());
        let ghost base = utxo_views(self.utxos@);
        let m = tx.outputs.len();
        let mut j: usize = 0;
        while j < m
            invariant
                m == tx.outputs@.len(),
                0 <= j <= tx.outputs@.len(),
                id@ == reversed(sha256d_of(tx.io_bytes())),
                utxo_views(self.utxos@) == base + created(*tx).subrange(0, j as int),
            decreases tx.outputs@.len() - j,
        {
            let output = &tx.outputs[j];
            let u = Utxo {
                tx_id: id,
                index: j as u32,
                value: output.value,
                pk_script: copy_bytes(&output.pk_script),
            };
            let ghost before = self.utxos@;
            self.utxos.push(u);
            proof {
                assert(utxo_views(self.utxos@) =~= utxo_views(before).push(utxo_view(u)));
                assert(created(*tx).subrange(0, j + 1) =~= created(*tx).subrange(0, j as int).push(
                    utxo_view(u),
                ));
                assert(utxo_views(self.utxos@) =~= base + created(*tx).subrange(0, j + 1));
            }
            j += 1;
        }
        proof {
            assert(created(*tx).subrange(0, tx.outputs@.len() as int) =~= created(*tx));
        }
    }

    /// Applies the transactions of `block` in order.
    pub fn update_with_block(&mut self, block: &Block)
        ensures
            utxo_views(final(self).utxos@) == apply_all(utxo_views(old(self).utxos@), block.transactions@),
    {
        let mut i: usize = 0;
        while i < block.transactions.len()
            invariant
                0 <= i <= block.transactions@.len(),
                utxo_views(self.utxos@) == apply_all(utxo_views(old(self).utxos@), block.transactions@.subrange(0, i as int)),
            decreases block.transactions@.len() - i,
        {
            self.update_with_transaction(&block.transactions[i]);
            proof {
                let t = block.transactions@.subrange(0, i + 1);
                assert(t.drop_last() =~= block.transactions@.subrange(0, i as int));
            }
            i += 1;
        }
        assert(block.transactions@.subrange(0, block.transactions@.len() as int) =~= block.transactions@);
    }
}

/// The unspent outputs after applying each transaction of `txs` in turn.
pub open spec fn apply_all(s: Seq<UtxoView>, txs: Seq<Transaction>) -> Seq<UtxoView>
    decreases txs.len(),
{
    if txs.len() == 0 {
        s
    } else {
        let before = apply_all(s, txs.drop_last());
        kept(before, txs.last()) + created(txs.last())
    }
}

} // verus!
