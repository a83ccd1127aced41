//! The ledger's values: hashes, scripts, transactions and their parts.
use crate::table::TableKey;
use vstd::prelude::*;

verus! {

/// A 32-byte content hash (of a script, or of a transaction).
#[derive(Clone, Copy, Debug, PartialEq, Eq)]
pub struct Digest {
    pub bytes: [u8; 32],
}

impl View for Digest {
    type V = Seq<u8>;

    open spec fn view(&self) -> Seq<u8> {
        self.bytes@
    }
}

impl TableKey for Digest {
    fn same_key(&self, other: &Self) -> (r: bool) {
        let mut i: usize = 0;
        while i < 32
            invariant
                i <= 32,
                self.bytes@.len() == 32,
                other.bytes@.len() == 32,
                forall|j: int| 0 <= j < i ==> self.bytes@[j] == other.bytes@[j],
            decreases 32 - i,
        {
            if self.bytes[i] != other.bytes[i] {
                return false;
            }
            i = i + 1;
        }
        assert(self.bytes@ =~= other.bytes@);
        true
    }
}

/// A spending condition, held in its canonical text form.
#[derive(Clone, Debug, PartialEq, Eq)]
pub struct Script {
    pub text: String,
}

impl View for Script {
    type V = Seq<char>;

    open spec fn view(&self) -> Seq<char> {
        self.text@
    }
}

impl TableKey for Script {
    fn same_key(&self, other: &Self) -> (r: bool) {
        self.text == other.text
    }
}

impl Script {
    /// A copy equal to this script.
    pub fn duplicate(&self) -> (r: Script)
        ensures
            r == *self,
    {
        Script { text: self.text.clone() }
    }
}

/// Identity of an unspent output: the transaction that wrote it and its index.
#[derive(Clone, Copy, Debug, PartialEq, Eq)]
pub struct UtxoId {
    pub tx_hash: Digest,
    pub output_index: usize,
}

impl View for UtxoId {
    type V = (Seq<u8>, usize);

    open spec fn view(&self) -> (Seq<u8>, usize) {
        (self.tx_hash@, self.output_index)
    }
}

impl TableKey for UtxoId {
    fn same_key(&self, other: &Self) -> (r: bool) {
        self.output_index == other.output_index && self.tx_hash.same_key(&other.tx_hash)
    }
}

/// Key of the issuer and recipient indices: a script hash and a block number.
#[derive(Clone, Copy, Debug, PartialEq, Eq)]
pub struct WalletHashWithBn {
    pub script_hash: Digest,
    pub block_number: u32,
}

impl View for WalletHashWithBn {
    type V = (Seq<u8>, u32);

    open spec fn view(&self) -> (Seq<u8>, u32) {
        (self.script_hash@, self.block_number)
    }
}

impl TableKey for WalletHashWithBn {
    fn same_key(&self, other: &Self) -> (r: bool) {
        self.block_number == other.block_number && self.script_hash.same_key(&other.script_hash)
    }
}

/// One member of an index: transaction `tx_hash` under `key`.
#[derive(Clone, Copy, Debug, PartialEq, Eq)]
pub struct IndexEntry {
    pub key: WalletHashWithBn,
    pub tx_hash: Digest,
}

impl View for IndexEntry {
    type V = ((Seq<u8>, u32), Seq<u8>);

    open spec fn view(&self) -> ((Seq<u8>, u32), Seq<u8>) {
        (self.key@, self.tx_hash@)
    }
}

impl TableKey for IndexEntry {
    fn same_key(&self, other: &Self) -> (r: bool) {
        self.key.same_key(&other.key) && self.tx_hash.same_key(&other.tx_hash)
    }
}

/// Where the amount of an input comes from.
#[derive(Clone, Debug, PartialEq, Eq)]
pub enum SourceId {
    /// A previously written unspent output.
    Utxo(UtxoId),
    /// A universal dividend of `issuer` (base58 public key) at `block_number`.
    Dividend { issuer: String, block_number: u32 },
}

#[derive(Clone, Debug, PartialEq, Eq)]
pub struct TxInput {
    pub amount: u64,
    pub id: SourceId,
}

#[derive(Clone, Debug, PartialEq, Eq)]
pub struct TxOutput {
    pub amount: u64,
    pub script: Script,
}

/// A validated transaction document.
#[derive(Clone, Debug, PartialEq, Eq)]
pub struct Transaction {
    pub inputs: Vec<TxInput>,
    pub outputs: Vec<TxOutput>,
}

/// A block number with the block's hash.
#[derive(Clone, Copy, Debug, PartialEq, Eq)]
pub struct Blockstamp {
    pub number: u32,
    pub hash: Digest,
}

/// A written transaction, with the block and time at which it was written.
#[derive(Clone, Debug, PartialEq, Eq)]
pub struct TxRecord {
    pub tx: Transaction,
    pub written_block: Blockstamp,
    pub written_time: i64,
}

/// An unspent output, as stored under its identity.
#[derive(Clone, Debug, PartialEq, Eq)]
pub struct Utxo {
    pub amount: u64,
    pub script: Script,
    pub written_block: u32,
}

} // verus!
