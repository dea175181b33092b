//! Spend records: inputs that consume earlier outputs, and new outputs.

use vstd::prelude::*;

use crate::hash::{hash256d, sha256d_of, HashType};
use crate::sequence::{lemma_list_unique, list_bytes, read_list, write_list};
use crate::serialization::{
    holds_at, lemma_holds_at4, lemma_holds_at_concat, ErrorSerialization,
    SerializableInternalOrder, SerializableLittleEndian,
};

verus! {

/// One input: the output it spends (transaction hash and index), its
/// unlocking script and its sequence number.
#[derive(Debug, Clone)]
pub struct TransactionInput {
    pub previous_hash: HashType,
    pub previous_index: u32,
    pub signature_script: Vec<u8>,
    pub sequence: u32,
}

/// One output: an amount and its locking script.
#[derive(Debug, Clone)]
pub struct TransactionOutput {
    pub value: i64,
    pub pk_script: Vec<u8>,
}

/// A spend record.
#[derive(Debug, Clone)]
pub struct Transaction {
    pub version: i32,
    pub inputs: Vec<TransactionInput>,
    pub outputs: Vec<TransactionOutput>,
    pub time_lock: u32,
}

/// Where the fields of an input lie when its encoding starts at `pos`.
proof fn lemma_input_parts(data: Seq<u8>, pos: int, v: TransactionInput)
    ensures
        holds_at(data, pos, v.io_bytes()) <==> (holds_at(data, pos, v.previous_hash.le_bytes())
            && holds_at(data, pos + 32, v.previous_index.le_bytes()) && holds_at(
            data,
            pos + 36,
            list_bytes(v.signature_script@),
        ) && holds_at(data, pos + 36 + list_bytes(v.signature_script@).len(), v.sequence.le_bytes())),
        v.signature_script@.len() <= u64::MAX,
{
    lemma_holds_at4(data, pos, v.previous_hash.le_bytes(), v.previous_index.le_bytes(),
        list_bytes(v.signature_script@), v.sequence.le_bytes());
    assert(v.signature_script@.len() == v.signature_script.len());
}

/// Where the fields of a transaction lie when its encoding starts at `pos`.
proof fn lemma_transaction_parts(data: Seq<u8>, pos: int, v: Transaction)
    ensures
        holds_at(data, pos, v.io_bytes()) <==> (holds_at(data, pos, v.version.le_bytes())
            && holds_at(data, pos + 4, list_bytes(v.inputs@)) && holds_at(
            data,
            pos + 4 + list_bytes(v.inputs@).len(),
            list_bytes(v.outputs@),
        ) && holds_at(
            data,
            pos + 4 + list_bytes(v.inputs@).len() + list_bytes(v.outputs@).len(),
            v.time_lock.le_bytes(),
        )),
        v.inputs@.len() <= u64::MAX,
        v.outputs@.len() <= u64::MAX,
{
    lemma_holds_at4(data, pos, v.version.le_bytes(), list_bytes(v.inputs@),
        list_bytes(v.outputs@), v.time_lock.le_bytes());
    assert(v.inputs@.len() == v.inputs.len());
    assert(v.outputs@.len() == v.outputs.len());
}

impl SerializableInternalOrder for TransactionInput {
    open spec fn io_bytes(&self) -> Seq<u8> {
        self.previous_hash.le_bytes() + self.previous_index.le_bytes() + list_bytes(
            self.signature_script@,
        ) + self.sequence.le_bytes()
    }

    fn io_serialize(&self, stream: &mut Vec<u8>) {
        self.previous_hash.le_serialize(stream);
        self.previous_index.le_serialize(stream);
        write_list(&self.signature_script, stream);
        self.sequence.le_serialize(stream);
        assert(final(stream)@ =~= old(stream)@ + self.io_bytes());
    }

    fn io_deserialize(data: &[u8], pos: usize) -> (r: Result<(Self, usize), ErrorSerialization>) {
        let ghost d = data@;
        let (previous_hash, p1) = match HashType::le_deserialize(data, pos) {
            Ok(x) => x,
            Err(_) => {
                proof {
                    assert forall|v: Self| !holds_at(d, pos as int, #[trigger] v.io_bytes()) by {
                        lemma_input_parts(d, pos as int, v);
                    }
                }
                return Err(ErrorSerialization::ErrorInDeserialization("TransactionInput.previous_hash".to_string()));
            },
        };
        let (previous_index, p2) = match u32::le_deserialize(data, p1) {
            Ok(x) => x,
            Err(_) => {
                proof {
                    assert forall|v: Self| !holds_at(d, pos as int, #[trigger] v.io_bytes()) by {
                        lemma_input_parts(d, pos as int, v);
                    }
                }
                return Err(ErrorSerialization::ErrorInDeserialization("TransactionInput.previous_index".to_string()));
            },
        };
        let (signature_script, p3) = match read_list::<u8>(data, p2) {
            Ok(x) => x,
            Err(_) => {
                proof {
                    assert forall|v: Self| !holds_at(d, pos as int, #[trigger] v.io_bytes()) by {
                        lemma_input_parts(d, pos as int, v);
                    }
                }
                return Err(ErrorSerialization::ErrorInDeserialization("TransactionInput.signature_script".to_string()));
            },
        };
        let (sequence, p4) = match u32::le_deserialize(data, p3) {
            Ok(x) => x,
            Err(_) => {
                proof {
                    assert forall|v: Self| !holds_at(d, pos as int, #[trigger] v.io_bytes()) by {
                        lemma_input_parts(d, pos as int, v);
                        if holds_at(d, pos as int, v.io_bytes()) {
                            lemma_list_unique(d, p2 as int, v.signature_script@, signature_script@);
                        }
                    }
                }
                return Err(ErrorSerialization::ErrorInDeserialization("TransactionInput.sequence".to_string()));
            },
        };
        let v = TransactionInput { previous_hash, previous_index, signature_script, sequence };
        proof {
            lemma_input_parts(d, pos as int, v);
            assert(holds_at(d, pos as int, v.io_bytes()));
        }
        Ok((v, p4))
    }

    proof fn lemma_io_unique(data: Seq<u8>, pos: int, a: Self, b: Self) {
        lemma_holds_at4(data, pos, a.previous_hash.le_bytes(), a.previous_index.le_bytes(),
            list_bytes(a.signature_script@), a.sequence.le_bytes());
        lemma_holds_at4(data, pos, b.previous_hash.le_bytes(), b.previous_index.le_bytes(),
            list_bytes(b.signature_script@), b.sequence.le_bytes());
        HashType::lemma_le_unique(data, pos, a.previous_hash, b.previous_hash);
        u32::lemma_le_unique(data, pos + 32, a.previous_index, b.previous_index);
        assert(a.signature_script@.len() == a.signature_script.len());
        assert(b.signature_script@.len() == b.signature_script.len());
        lemma_list_unique(data, pos + 36, a.signature_script@, b.signature_script@);
        u32::lemma_le_unique(data, pos + 36 + list_bytes(a.signature_script@).len(), a.sequence, b.sequence);
    }
}

impl SerializableInternalOrder for TransactionOutput {
    open spec fn io_bytes(&self) -> Seq<u8> {
        self.value.le_bytes() + list_bytes(self.pk_script@)
    }

    fn io_serialize(&self, stream: &mut Vec<u8>) {
        self.value.le_serialize(stream);
        write_list(&self.pk_script, stream);
        assert(final(stream)@ =~= old(stream)@ + self.io_bytes());
    }

    fn io_deserialize(data: &[u8], pos: usize) -> (r: Result<(Self, usize), ErrorSerialization>) {
        let ghost d = data@;
        let (value, p1) = match i64::le_deserialize(data, pos) {
            Ok(x) => x,
            Err(_) => {
                proof {
                    assert forall|v: Self| !holds_at(d, pos as int, #[trigger] v.io_bytes()) by {
                        lemma_holds_at_concat(d, pos as int, v.value.le_bytes(), list_bytes(v.pk_script@));
                    }
                }
                return Err(ErrorSerialization::ErrorInDeserialization("TransactionOutput.value".to_string()));
            },
        };
        let (pk_script, p2) = match read_list::<u8>(data, p1) {
            Ok(x) => x,
            Err(_) => {
                proof {
                    assert forall|v: Self| !holds_at(d, pos as int, #[trigger] v.io_bytes()) by {
                        lemma_holds_at_concat(d, pos as int, v.value.le_bytes(), list_bytes(v.pk_script@));
                        assert(v.pk_script@.len() == v.pk_script.len());
                    }
                }
                return Err(ErrorSerialization::ErrorInDeserialization("TransactionOutput.pk_script".to_string()));
            },
        };
        let v = TransactionOutput { value, pk_script };
        proof {
            lemma_holds_at_concat(d, pos as int, v.value.le_bytes(), list_bytes(v.pk_script@));
            assert(holds_at(d, pos as int, v.io_bytes()));
        }
        Ok((v, p2))
    }

    proof fn lemma_io_unique(data: Seq<u8>, pos: int, a: Self, b: Self) {
        lemma_holds_at_concat(data, pos, a.value.le_bytes(), list_bytes(a.pk_script@));
        lemma_holds_at_concat(data, pos, b.value.le_bytes(), list_bytes(b.pk_script@));
        i64::lemma_le_unique(data, pos, a.value, b.value);
        assert(a.pk_script@.len() == a.pk_script.len());
        assert(b.pk_script@.len() == b.pk_script.len());
        lemma_list_unique(data, pos + 8, a.pk_script@, b.pk_script@);
    }
}

impl SerializableInternalOrder for Transaction {
    open spec fn io_bytes(&self) -> Seq<u8> {
        self.version.le_bytes() + list_bytes(self.inputs@) + list_bytes(self.outputs@)
            + self.time_lock.le_bytes()
    }

    fn io_serialize(&self, stream: &mut Vec<u8>) {
        self.version.le_serialize(stream);
        write_list(&self.inputs, stream);
        write_list(&self.outputs, stream);
        self.time_lock.le_serialize(stream);
        assert(final(stream)@ =~= old(stream)@ + self.io_bytes());
    }

    fn io_deserialize(data: &[u8], pos: usize) -> (r: Result<(Self, usize), ErrorSerialization>) {
        let ghost d = data@;
        let (version, p1) = match i32::le_deserialize(data, pos) {
            Ok(x) => x,
            Err(_) => {
                proof {
                    assert forall|v: Self| !holds_at(d, pos as int, #[trigger] v.io_bytes()) by {
                        lemma_transaction_parts(d, pos as int, v);
                    }
                }
                return Err(ErrorSerialization::ErrorInDeserialization("Transaction.version".to_string()));
            },
        };
        let (inputs, p2) = match read_list::<TransactionInput>(data, p1) {
            Ok(x) => x,
            Err(_) => {
                proof {
                    assert forall|v: Self| !holds_at(d, pos as int, #[trigger] v.io_bytes()) by {
                        lemma_transaction_parts(d, pos as int, v);
                    }
                }
                return Err(ErrorSerialization::ErrorInDeserialization("Transaction.inputs".to_string()));
            },
        };
        let (outputs, p3) = match read_list::<TransactionOutput>(data, p2) {
            Ok(x) => x,
            Err(_) => {
                proof {
                    assert forall|v: Self| !holds_at(d, pos as int, #[trigger] v.io_bytes()) by {
                        lemma_transaction_parts(d, pos as int, v);
                        if holds_at(d, pos as int, v.io_bytes()) {
                            lemma_list_unique(d, p1 as int, v.inputs@, inputs@);
                        }
                    }
                }
                return Err(ErrorSerialization::ErrorInDeserialization("Transaction.outputs".to_string()));
            },
        };
        let (time_lock, p4) = match u32::le_deserialize(data, p3) {
            Ok(x) => x,
            Err(_) => {
                proof {
                    assert forall|v: Self| !holds_at(d, pos as int, #[trigger] v.io_bytes()) by {
                        lemma_transaction_parts(d, pos as int, v);
                        if holds_at(d, pos as int, v.io_bytes()) {
                            lemma_list_unique(d, p1 as int, v.inputs@, inputs@);
                            lemma_list_unique(d, p2 as int, v.outputs@, outputs@);
                        }
                    }
                }
                return Err(ErrorSerialization::ErrorInDeserialization("Transaction.time_lock".to_string()));
            },
        };
        let v = Transaction { version, inputs, outputs, time_lock };
        proof {
            lemma_transaction_parts(d, pos as int, v);
            assert(holds_at(d, pos as int, v.io_bytes()));
        }
        Ok((v, p4))
    }

    proof fn lemma_io_unique(data: Seq<u8>, pos: int, a: Self, b: Self) {
        lemma_transaction_parts(data, pos, a);
        lemma_transaction_parts(data, pos, b);
        i32::lemma_le_unique(data, pos, a.version, b.version);
        assert(a.inputs@.len() == a.inputs.len());
        assert(b.inputs@.len() == b.inputs.len());
        assert(a.outputs@.len() == a.outputs.len());
        assert(b.outputs@.len() == b.outputs.len());
        lemma_list_unique(data, pos + 4, a.inputs@, b.inputs@);
        let p = pos + 4 + list_bytes(a.inputs@).len();
        lemma_list_unique(data, p, a.outputs@, b.outputs@);
        u32::lemma_le_unique(data, p + list_bytes(a.outputs@).len(), a.time_lock, b.time_lock);
    }
}

impl Transaction {
    /// The transaction's identifier: the double hash of its encoding.
    pub fn get_tx_id(&self) -> (r: HashType)
        ensures
            r@ == sha256d_of(self.io_bytes()),
    {
        let mut buffer: Vec<u8> = Vec::new();
        self.io_serialize(&mut buffer);
        assert(buffer@ =~= self.io_bytes());
        hash256d(buffer.as_slice())
    }
}

} // verus!
