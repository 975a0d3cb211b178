//! Record types of the Esplora index.
use vstd::prelude::*;

verus! {

/// Metadata stored for each transaction.
#[derive(Debug, Clone)]
pub struct TxMeta {
    /// Block height where the transaction was confirmed.
    pub block_height: u32,
    /// Block hash (hex).
    pub block_hash: String,
    /// Block timestamp.
    pub block_time: u32,
    /// Transaction fee in satoshis.
    pub fee: u64,
    /// Transaction size in bytes.
    pub size: u32,
    /// Transaction weight units.
    pub weight: u32,
    /// Transaction version.
    pub version: i32,
    /// Locktime.
    pub locktime: u32,
    /// Index within the block.
    pub tx_index: u32,
    /// Number of inputs.
    pub vin_count: u32,
    /// Number of outputs.
    pub vout_count: u32,
}

/// Metadata stored for each block.
#[derive(Debug, Clone)]
pub struct BlockMeta {
    /// Block hash (hex).
    pub id: String,
    /// Block height.
    pub height: u32,
    /// Block version.
    pub version: i32,
    /// Block timestamp.
    pub timestamp: u32,
    /// Merkle root (hex).
    pub merkle_root: String,
    /// Number of transactions.
    pub tx_count: u32,
    /// Block size in bytes.
    pub size: u32,
    /// Block weight.
    pub weight: u32,
    /// Bits (compact target).
    pub bits: u32,
    /// Nonce.
    pub nonce: u32,
    /// Previous block hash (hex).
    pub previousblockhash: String,
}

/// Address statistics (cumulative).
#[derive(Debug, Clone)]
pub struct AddressStats {
    pub tx_count: u32,
    pub funded_txo_count: u32,
    pub funded_txo_sum: u64,
    pub spent_txo_count: u32,
    pub spent_txo_sum: u64,
}

impl Default for AddressStats {
    fn default() -> (s: Self)
        ensures
            s.tx_count == 0 && s.funded_txo_count == 0 && s.funded_txo_sum == 0
                && s.spent_txo_count == 0 && s.spent_txo_sum == 0,
    {
        AddressStats {
            tx_count: 0,
            funded_txo_count: 0,
            funded_txo_sum: 0,
            spent_txo_count: 0,
            spent_txo_sum: 0,
        }
    }
}

/// UTXO entry stored in the index.
#[derive(Debug, Clone)]
pub struct UtxoEntry {
    pub txid: String,
    pub vout: u32,
    pub value: u64,
    pub block_height: u32,
    pub block_hash: String,
    pub block_time: u32,
}

/// Spending info for a transaction output.
#[derive(Debug, Clone)]
pub struct SpendInfo {
    pub spent: bool,
    pub txid: Option<String>,
    pub vin: Option<u32>,
    pub status: Option<TxStatus>,
}

/// Transaction confirmation status.
#[derive(Debug, Clone)]
pub struct TxStatus {
    pub confirmed: bool,
    pub block_height: Option<u32>,
    pub block_hash: Option<String>,
    pub block_time: Option<u32>,
}

/// Block status.
#[derive(Debug, Clone)]
pub struct BlockStatus {
    pub in_best_chain: bool,
    pub height: u32,
    pub next_best: Option<String>,
}

/// Model of a transaction metadata record.
pub struct SpecTxMeta {
    pub block_height: u32,
    pub block_hash: Seq<char>,
    pub block_time: u32,
    pub fee: u64,
    pub size: u32,
    pub weight: u32,
    pub version: i32,
    pub locktime: u32,
    pub tx_index: u32,
    pub vin_count: u32,
    pub vout_count: u32,
}

/// Model of a block metadata record.
pub struct SpecBlockMeta {
    pub id: Seq<char>,
    pub height: u32,
    pub version: i32,
    pub timestamp: u32,
    pub merkle_root: Seq<char>,
    pub tx_count: u32,
    pub size: u32,
    pub weight: u32,
    pub bits: u32,
    pub nonce: u32,
    pub previousblockhash: Seq<char>,
}

/// Model of a UTXO record.
pub struct SpecUtxoEntry {
    pub txid: Seq<char>,
    pub vout: u32,
    pub value: u64,
    pub block_height: u32,
    pub block_hash: Seq<char>,
    pub block_time: u32,
}

impl View for TxMeta {
    type V = SpecTxMeta;

    open spec fn view(&self) -> SpecTxMeta {
        SpecTxMeta {
            block_height: self.block_height,
            block_hash: self.block_hash@,
            block_time: self.block_time,
            fee: self.fee,
            size: self.size,
            weight: self.weight,
            version: self.version,
            locktime: self.locktime,
            tx_index: self.tx_index,
            vin_count: self.vin_count,
            vout_count: self.vout_count,
        }
    }
}

impl View for BlockMeta {
    type V = SpecBlockMeta;

    open spec fn view(&self) -> SpecBlockMeta {
        SpecBlockMeta {
            id: self.id@,
            height: self.height,
            version: self.version,
            timestamp: self.timestamp,
            merkle_root: self.merkle_root@,
            tx_count: self.tx_count,
            size: self.size,
            weight: self.weight,
            bits: self.bits,
            nonce: self.nonce,
            previousblockhash: self.previousblockhash@,
        }
    }
}

impl View for UtxoEntry {
    type V = SpecUtxoEntry;

    open spec fn view(&self) -> SpecUtxoEntry {
        SpecUtxoEntry {
            txid: self.txid@,
            vout: self.vout,
            value: self.value,
            block_height: self.block_height,
            block_hash: self.block_hash@,
            block_time: self.block_time,
        }
    }
}

/// A value of the index: raw bytes, or a metadata record that the host
/// stores serialized as JSON.
#[derive(Debug, Clone)]
pub enum IndexValue {
    Bytes(Vec<u8>),
    Block(BlockMeta),
    Tx(TxMeta),
    Utxo(UtxoEntry),
}

/// Model of an index value.
pub enum SpecIndexValue {
    Bytes(Seq<u8>),
    Block(SpecBlockMeta),
    Tx(SpecTxMeta),
    Utxo(SpecUtxoEntry),
}

impl View for IndexValue {
    type V = SpecIndexValue;

    open spec fn view(&self) -> SpecIndexValue {
        match self {
            IndexValue::Bytes(b) => SpecIndexValue::Bytes(b@),
            IndexValue::Block(m) => SpecIndexValue::Block(m@),
            IndexValue::Tx(m) => SpecIndexValue::Tx(m@),
            IndexValue::Utxo(u) => SpecIndexValue::Utxo(u@),
        }
    }
}

} // verus!
