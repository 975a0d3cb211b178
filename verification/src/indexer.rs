//! Block indexing logic.
//!
//! Processes each block and produces key-value pairs for the Esplora index.
use vstd::prelude::*;

use crate::block::{
    hex_spec, script_hash, sha256, to_hex_rev, Block, SpecBlock, SpecTransaction, Transaction,
};
use crate::encoding::{le_bytes, push_le};
use crate::keys::{
    address_tx_key, block_height_key, block_key, block_tx_count_key, block_txid_key, key_bytes,
    spend_key, tip_hash_key, tip_hash_key_spec, tip_key, tip_key_spec, tx_key, tx_raw_key,
    utxo_key, IndexKey,
};
use crate::types::{
    BlockMeta, IndexValue, SpecBlockMeta, SpecIndexValue, SpecTxMeta, SpecUtxoEntry, TxMeta,
    UtxoEntry,
};

verus! {

/// Display form of a hash: hex of its bytes in reverse order.
pub open spec fn hex_rev(h: Seq<u8>) -> Seq<char> {
    hex_spec(h.reverse())
}

/// A key-value pair of the index, as a model.
pub type SpecPair = (Seq<u8>, SpecIndexValue);

/// The model of a list of key-value pairs.
pub open spec fn pairs_view(v: Seq<(Vec<u8>, IndexValue)>) -> Seq<SpecPair> {
    v.map_values(|p: (Vec<u8>, IndexValue)| (p.0@, p.1@))
}

/// Sum of the weights of transactions.
pub open spec fn total_weight(txs: Seq<SpecTransaction>) -> int
    decreases txs.len(),
{
    if txs.len() == 0 {
        0
    } else {
        total_weight(txs.drop_last()) + txs.last().weight
    }
}

/// The weight of no transactions is 0, of one transaction its own weight,
/// and of two runs of transactions the sum of their weights.
pub proof fn lemma_total_weight_sum(a: Seq<SpecTransaction>, b: Seq<SpecTransaction>)
    ensures
        total_weight(Seq::<SpecTransaction>::empty()) == 0,
        a.len() == 1 ==> total_weight(a) == a[0].weight,
        total_weight(a + b) == total_weight(a) + total_weight(b),
    decreases b.len(),
{
    if a.len() == 1 {
        assert(a.drop_last() =~= Seq::<SpecTransaction>::empty());
        assert(total_weight(a.drop_last()) == 0);
        assert(a.last() == a[0]);
    }
    if b.len() == 0 {
        assert(a + b =~= a);
    } else {
        assert((a + b).drop_last() =~= a + b.drop_last());
        assert((a + b).last() == b.last());
        lemma_total_weight_sum(a, b.drop_last());
    }
}

/// Block metadata recorded for `b` at `height`.
pub open spec fn block_meta_spec(height: u32, b: SpecBlock, block_raw_size: u32) -> SpecBlockMeta {
    SpecBlockMeta {
        id: hex_rev(b.header.hash),
        height: height,
        version: b.header.version,
        timestamp: b.header.time,
        merkle_root: hex_rev(b.header.merkle_root),
        tx_count: b.transactions.len() as u32,
        size: block_raw_size,
        weight: total_weight(b.transactions) as u32,
        bits: b.header.bits,
        nonce: b.header.nonce,
        previousblockhash: hex_rev(b.header.prev_block),
    }
}

/// The pairs written for the block itself and the chain tip.
pub open spec fn header_pairs(height: u32, b: SpecBlock, block_raw_size: u32) -> Seq<SpecPair> {
    let hash = b.header.hash;
    seq![
        (key_bytes(IndexKey::Block(hash)), SpecIndexValue::Block(block_meta_spec(height, b, block_raw_size))),
        (key_bytes(IndexKey::BlockHeight(height)), SpecIndexValue::Bytes(hash)),
        (key_bytes(IndexKey::BlockTxCount(hash)), SpecIndexValue::Bytes(le_bytes((b.transactions.len() as u32) as int, 4))),
        (tip_key_spec(), SpecIndexValue::Bytes(le_bytes(height as int, 4))),
        (tip_hash_key_spec(), SpecIndexValue::Bytes(hash)),
    ]
}

/// Transaction metadata recorded for the `i`-th transaction of `b`.
pub open spec fn tx_meta_spec(height: u32, b: SpecBlock, i: int) -> SpecTxMeta {
    let tx = b.transactions[i];
    SpecTxMeta {
        block_height: height,
        block_hash: hex_rev(b.header.hash),
        block_time: b.header.time,
        fee: 0,
        size: tx.size,
        weight: tx.weight,
        version: tx.version,
        locktime: tx.locktime,
        tx_index: i as u32,
        vin_count: tx.inputs.len() as u32,
        vout_count: tx.outputs.len() as u32,
    }
}

/// Spending records of the `i`-th transaction: none for the coinbase.
pub open spec fn spend_pairs(tx: SpecTransaction, i: int) -> Seq<SpecPair> {
    if i == 0 {
        seq![]
    } else {
        Seq::new(
            tx.inputs.len(),
            |j: int|
                (
                    key_bytes(IndexKey::Spend(tx.inputs[j].prev_txid, tx.inputs[j].prev_vout)),
                    SpecIndexValue::Bytes(tx.txid),
                ),
        )
    }
}

/// The UTXO record written for output `o` of the `i`-th transaction of `b`.
pub open spec fn utxo_entry_spec(height: u32, b: SpecBlock, i: int, o: int) -> SpecUtxoEntry {
    let tx = b.transactions[i];
    SpecUtxoEntry {
        txid: hex_rev(tx.txid),
        vout: o as u32,
        value: tx.outputs[o].value,
        block_height: height,
        block_hash: hex_rev(b.header.hash),
        block_time: b.header.time,
    }
}

/// Pairs written for the first `k` outputs of the `i`-th transaction: a UTXO
/// record and an address record per output with a non-empty script.
pub open spec fn output_pairs(height: u32, b: SpecBlock, i: int, k: nat) -> Seq<SpecPair>
    decreases k,
{
    if k == 0 {
        seq![]
    } else {
        let tx = b.transactions[i];
        let out = tx.outputs[k - 1];
        let sh = sha256(out.script_pubkey)@;
        let prev = output_pairs(height, b, i, (k - 1) as nat);
        if out.script_pubkey.len() == 0 {
            prev
        } else {
            prev + seq![
                (
                    key_bytes(IndexKey::Utxo(sh, tx.txid, (k - 1) as u32)),
                    SpecIndexValue::Utxo(utxo_entry_spec(height, b, i, k - 1)),
                ),
                (
                    key_bytes(IndexKey::AddressTx(sh, height, i as u16)),
                    SpecIndexValue::Bytes(tx.txid),
                ),
            ]
        }
    }
}

/// All pairs written for the `i`-th transaction of `b`.
pub open spec fn tx_pairs(height: u32, b: SpecBlock, i: int) -> Seq<SpecPair> {
    let tx = b.transactions[i];
    seq![
        (key_bytes(IndexKey::BlockTxid(b.header.hash, i as u32)), SpecIndexValue::Bytes(tx.txid)),
        (key_bytes(IndexKey::Tx(tx.txid)), SpecIndexValue::Tx(tx_meta_spec(height, b, i))),
        (key_bytes(IndexKey::TxRaw(tx.txid)), SpecIndexValue::Bytes(tx.raw)),
    ] + spend_pairs(tx, i) + output_pairs(height, b, i, tx.outputs.len())
}

/// Pairs written for the first `n` transactions of `b`.
pub open spec fn txs_pairs(height: u32, b: SpecBlock, n: nat) -> Seq<SpecPair>
    decreases n,
{
    if n == 0 {
        seq![]
    } else {
        txs_pairs(height, b, (n - 1) as nat) + tx_pairs(height, b, n - 1)
    }
}

/// All pairs that indexing `b` at `height` produces, in order.
pub open spec fn index_pairs(height: u32, b: SpecBlock, block_raw_size: u32) -> Seq<SpecPair> {
    header_pairs(height, b, block_raw_size) + txs_pairs(height, b, b.transactions.len())
}

/// The block weight fits the `u32` that the metadata records it in.
pub open spec fn block_weight_fits(b: SpecBlock) -> bool {
    total_weight(b.transactions) <= u32::MAX
}

fn hash_bytes(h: &[u8; 32]) -> (v: Vec<u8>)
    ensures
        v@ == h@,
{
    vstd::slice::slice_to_vec(h.as_slice())
}

fn push_pair(pairs: &mut Vec<(Vec<u8>, IndexValue)>, key: Vec<u8>, value: IndexValue)
    ensures
        pairs_view(final(pairs)@) == pairs_view(old(pairs)@).push((key@, value@)),
{
    pairs.push((key, value));
    assert(pairs_view(final(pairs)@) =~= pairs_view(old(pairs)@).push((key@, value@)));
}

fn block_weight(block: &Block) -> (w: u32)
    requires
        block_weight_fits(block@),
    ensures
        w == total_weight(block@.transactions),
{
    let ghost txs = block@.transactions;
    let mut total: u32 = 0;
    let mut i: usize = 0;
    while i < block.transactions.len()
        invariant
            i <= txs.len(),
            txs == block.transactions@.map_values(|t: Transaction| t@),
            total_weight(txs) <= u32::MAX,
            total == total_weight(txs.subrange(0, i as int)),
        decreases txs.len() - i,
    {
        assert(txs.subrange(0, i + 1).drop_last() =~= txs.subrange(0, i as int));
        proof {
            lemma_total_weight_prefix(txs, i + 1);
        }
        total = total + block.transactions[i].weight;
        i = i + 1;
    }
    assert(txs.subrange(0, i as int) =~= txs);
    total
}

proof fn lemma_total_weight_prefix(txs: Seq<SpecTransaction>, k: int)
    requires
        0 <= k <= txs.len(),
    ensures
        total_weight(txs.subrange(0, k)) <= total_weight(txs),
    decreases txs.len(),
{
    if k < txs.len() {
        assert(txs.drop_last().subrange(0, k) =~= txs.subrange(0, k));
        lemma_total_weight_prefix(txs.drop_last(), k);
    } else {
        assert(txs.subrange(0, k) =~= txs);
    }
}

/// Appends the UTXO and address records of the outputs of the `i`-th transaction.
fn push_output_pairs(
    pairs: &mut Vec<(Vec<u8>, IndexValue)>,
    height: u32,
    block: &Block,
    i: usize,
    block_hash_hex: &String,
    txid_hex: &String,
)
    requires
        i < block.transactions@.len(),
        block_hash_hex@ == hex_rev(block@.header.hash),
        txid_hex@ == hex_rev(block@.transactions[i as int].txid),
    ensures
        pairs_view(final(pairs)@) == pairs_view(old(pairs)@) + output_pairs(
            height,
            block@,
            i as int,
            block@.transactions[i as int].outputs.len(),
        ),
{
    let tx = &block.transactions[i];
    let ghost start = pairs_view(old(pairs)@);
    let mut vout: usize = 0;
    while vout < tx.outputs.len()
        invariant
            vout <= tx.outputs@.len(),
            i < block.transactions@.len(),
            *tx == block.transactions@[i as int],
            block_hash_hex@ == hex_rev(block@.header.hash),
            txid_hex@ == hex_rev(block@.transactions[i as int].txid),
            pairs_view(pairs@) == start + output_pairs(height, block@, i as int, vout as nat),
        decreases tx.outputs@.len() - vout,
    {
        let output = &tx.outputs[vout];
        if output.script_pubkey.len() != 0 {
            let sh = script_hash(output.script_pubkey.as_slice());
            let utxo = UtxoEntry {
                txid: txid_hex.clone(),
                vout: vout as u32,
                value: output.value,
                block_height: height,
                block_hash: block_hash_hex.clone(),
                block_time: block.header.time,
            };
            push_pair(pairs, utxo_key(&sh, &tx.txid, vout as u32), IndexValue::Utxo(utxo));
            push_pair(pairs, address_tx_key(&sh, height, i as u16), IndexValue::Bytes(hash_bytes(&tx.txid)));
        }
        vout = vout + 1;
        assert(pairs_view(pairs@) =~= start + output_pairs(height, block@, i as int, vout as nat));
    }
}

/// Appends the spending records of the `i`-th transaction.
fn push_spend_pairs(pairs: &mut Vec<(Vec<u8>, IndexValue)>, block: &Block, i: usize)
    requires
        i < block.transactions@.len(),
    ensures
        pairs_view(final(pairs)@) == pairs_view(old(pairs)@) + spend_pairs(
            block@.transactions[i as int],
            i as int,
        ),
{
    let ghost start = pairs_view(old(pairs)@);
    if i == 0 {
        assert(pairs_view(pairs@) =~= start + spend_pairs(block@.transactions[i as int], i as int));
        return;
    }
    let tx = &block.transactions[i];
    let ghost stx = block@.transactions[i as int];
    let mut vin: usize = 0;
    while vin < tx.inputs.len()
        invariant
            vin <= tx.inputs@.len(),
            i != 0,
            i < block.transactions@.len(),
            *tx == block.transactions@[i as int],
            stx == block@.transactions[i as int],
            pairs_view(pairs@) == start + spend_pairs(stx, i as int).subrange(0, vin as int),
        decreases tx.inputs@.len() - vin,
    {
        let input = &tx.inputs[vin];
        push_pair(
            pairs,
            spend_key(&input.prev_txid, input.prev_vout),
            IndexValue::Bytes(hash_bytes(&tx.txid)),
        );
        vin = vin + 1;
        assert(pairs_view(pairs@) =~= start + spend_pairs(stx, i as int).subrange(0, vin as int));
    }
    assert(spend_pairs(stx, i as int).subrange(0, vin as int) =~= spend_pairs(stx, i as int));
}

/// Process a block and return the key-value pairs to flush.
pub fn index_block(height: u32, block: &Block, block_raw_size: u32) -> (pairs: Vec<
    (Vec<u8>, IndexValue),
>)
    requires
        block_weight_fits(block@),
    ensures
        pairs_view(pairs@) == index_pairs(height, block@, block_raw_size),
{
    let mut pairs: Vec<(Vec<u8>, IndexValue)> = Vec::new();
    let block_hash = &block.header.hash;
    let block_hash_hex = to_hex_rev(block_hash.as_slice());
    let prev_hash_hex = to_hex_rev(block.header.prev_block.as_slice());
    let merkle_hex = to_hex_rev(block.header.merkle_root.as_slice());
    let total_weight = block_weight(block);
    let tx_count = block.transactions.len() as u32;

    let block_meta = BlockMeta {
        id: block_hash_hex.clone(),
        height,
        version: block.header.version,
        timestamp: block.header.time,
        merkle_root: merkle_hex,
        tx_count,
        size: block_raw_size,
        weight: total_weight,
        bits: block.header.bits,
        nonce: block.header.nonce,
        previousblockhash: prev_hash_hex,
    };
    push_pair(&mut pairs, block_key(block_hash), IndexValue::Block(block_meta));
    push_pair(&mut pairs, block_height_key(height), IndexValue::Bytes(hash_bytes(block_hash)));
    let mut count_bytes: Vec<u8> = Vec::new();
    push_le(&mut count_bytes, tx_count as u64, 4);
    push_pair(&mut pairs, block_tx_count_key(block_hash), IndexValue::Bytes(count_bytes));
    let mut height_bytes: Vec<u8> = Vec::new();
    push_le(&mut height_bytes, height as u64, 4);
    push_pair(&mut pairs, tip_key(), IndexValue::Bytes(height_bytes));
    push_pair(&mut pairs, tip_hash_key(), IndexValue::Bytes(hash_bytes(block_hash)));
    let ghost head = pairs_view(pairs@);
    assert(head =~= header_pairs(height, block@, block_raw_size));

    let mut tx_index: usize = 0;
    while tx_index < block.transactions.len()
        invariant
            tx_index <= block.transactions@.len(),
            block_hash_hex@ == hex_rev(block@.header.hash),
            *block_hash == block.header.hash,
            head == header_pairs(height, block@, block_raw_size),
            pairs_view(pairs@) == head + txs_pairs(height, block@, tx_index as nat),
        decreases block.transactions@.len() - tx_index,
    {
        let tx = &block.transactions[tx_index];
        let txid_hex = to_hex_rev(tx.txid.as_slice());
        let ghost before = pairs_view(pairs@);
        push_pair(
            &mut pairs,
            block_txid_key(block_hash, tx_index as u32),
            IndexValue::Bytes(hash_bytes(&tx.txid)),
        );
        let tx_meta = TxMeta {
            block_height: height,
            block_hash: block_hash_hex.clone(),
            block_time: block.header.time,
            fee: 0,
            size: tx.size,
            weight: tx.weight,
            version: tx.version,
            locktime: tx.locktime,
            tx_index: tx_index as u32,
            vin_count: tx.inputs.len() as u32,
            vout_count: tx.outputs.len() as u32,
        };
        push_pair(&mut pairs, tx_key(&tx.txid), IndexValue::Tx(tx_meta));
        push_pair(
            &mut pairs,
            tx_raw_key(&tx.txid),
            IndexValue::Bytes(vstd::slice::slice_to_vec(tx.raw.as_slice())),
        );
        push_spend_pairs(&mut pairs, block, tx_index);
        push_output_pairs(&mut pairs, height, block, tx_index, &block_hash_hex, &txid_hex);
        assert(pairs_view(pairs@) =~= before + tx_pairs(height, block@, tx_index as int));
        tx_index = tx_index + 1;
        assert(pairs_view(pairs@) =~= head + txs_pairs(height, block@, tx_index as nat));
    }
    pairs
}

} // verus!
