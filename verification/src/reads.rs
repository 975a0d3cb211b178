//! What the store holds after a block has been indexed: the records of the
//! block read back as they were written, and every key the block does not
//! write keeps its value.
use vstd::prelude::*;

use crate::block::{
    hex_spec, compact_at, inputs_from, lemma_parse_tx_within, lemma_reparse_raw, parse_block_spec,
    parse_tx_spec, sha256, txs_from, SpecBlock, SpecTransaction,
};
use crate::encoding::{le_bytes, lemma_read_le4};
use crate::indexer::{
    total_weight, block_meta_spec, header_pairs, index_pairs, output_pairs, spend_pairs, tx_meta_spec, tx_pairs,
    txs_pairs, utxo_entry_spec,
};
use crate::keys::{key_bytes, key_well_formed, lemma_keys_injective, IndexKey};
use crate::store::{
    apply_pairs, lemma_apply_pairs_append, lemma_apply_pairs_last, lemma_apply_pairs_source,
    lemma_apply_pairs_untouched,
};
use crate::types::SpecIndexValue;
use crate::views::{
    block_txids_spec, bytes_at, decode_hash_outcome, display_hash, hash_or_zero,
    lemma_decode_display_hash, raw_or_empty, spend_key_of_utxo, tx_meta_at, tx_view_fails,
    u32_or_zero, utxo_listed,
};

verus! {

/// The hashes that a block model carries are 32 bytes long, as in the block
/// it models.
pub open spec fn block_hashes_sized(b: SpecBlock) -> bool {
    &&& b.header.hash.len() == 32
    &&& forall|j: int|
        0 <= j < b.transactions.len() ==> (#[trigger] b.transactions[j]).txid.len() == 32
    &&& forall|j: int, q: int|
        0 <= j < b.transactions.len() && 0 <= q < b.transactions[j].inputs.len() ==> (
        #[trigger] b.transactions[j].inputs[q]).prev_txid.len() == 32
}

/// Keys written for the `j`-th transaction after its first three records:
/// its spending records and the records of its outputs.
pub open spec fn tail_writes(height: u32, b: SpecBlock, j: int, k: IndexKey) -> bool {
    let tx = b.transactions[j];
    match k {
        IndexKey::Spend(t, v) => j != 0 && exists|q: int|
            0 <= q < tx.inputs.len() && (#[trigger] tx.inputs[q]).prev_txid == t
                && tx.inputs[q].prev_vout == v,
        IndexKey::Utxo(sh, t, v) => t == tx.txid && exists|o: int|
            0 <= o < tx.outputs.len() && (#[trigger] tx.outputs[o]).script_pubkey.len() != 0
                && sha256(tx.outputs[o].script_pubkey)@ == sh && v == o as u32,
        IndexKey::AddressTx(sh, hh, x) => hh == height && x == j as u16 && exists|o: int|
            0 <= o < tx.outputs.len() && (#[trigger] tx.outputs[o]).script_pubkey.len() != 0
                && sha256(tx.outputs[o].script_pubkey)@ == sh,
        _ => false,
    }
}

/// Keys written for the `j`-th transaction of `b`.
pub open spec fn tx_writes(height: u32, b: SpecBlock, j: int, k: IndexKey) -> bool {
    let tx = b.transactions[j];
    ||| k == IndexKey::BlockTxid(b.header.hash, j as u32)
    ||| k == IndexKey::Tx(tx.txid)
    ||| k == IndexKey::TxRaw(tx.txid)
    ||| tail_writes(height, b, j, k)
}

/// Keys written for the block itself and the chain tip.
pub open spec fn header_writes(height: u32, b: SpecBlock, k: IndexKey) -> bool {
    ||| k == IndexKey::Tip
    ||| k == IndexKey::TipHash
    ||| k == IndexKey::BlockHeight(height)
    ||| k == IndexKey::Block(b.header.hash)
    ||| k == IndexKey::BlockTxCount(b.header.hash)
}

/// The keys that indexing `b` at `height` writes.
pub open spec fn index_writes(height: u32, b: SpecBlock, k: IndexKey) -> bool {
    ||| header_writes(height, b, k)
    ||| exists|j: int| 0 <= j < b.transactions.len() && #[trigger] tx_writes(height, b, j, k)
}

/// `key` is the key of a well-formed index key among the later records of the `j`-th transaction.
pub open spec fn tail_key(height: u32, b: SpecBlock, j: int, key: Seq<u8>) -> bool {
    exists|k: IndexKey| key_well_formed(k) && tail_writes(height, b, j, k) && key == key_bytes(k)
}

/// `key` is the key of a UTXO or address record of an output of the `j`-th transaction.
pub open spec fn output_key(height: u32, b: SpecBlock, j: int, key: Seq<u8>) -> bool {
    exists|k: IndexKey|
        key_well_formed(k) && tail_writes(height, b, j, k) && (k is Utxo || k is AddressTx) && key
            == key_bytes(k)
}

/// No record of the `j`-th transaction is written under `key`.
pub open spec fn tx_skips(height: u32, b: SpecBlock, j: int, key: Seq<u8>) -> bool {
    forall|idx: int|
        0 <= idx < tx_pairs(height, b, j).len() ==> (#[trigger] tx_pairs(height, b, j)[idx]).0
            != key
}

proof fn lemma_output_pair_keys(height: u32, b: SpecBlock, i: int, k: nat)
    requires
        0 <= i < b.transactions.len(),
        b.transactions[i].txid.len() == 32,
        k <= b.transactions[i].outputs.len(),
    ensures
        forall|idx: int|
            0 <= idx < output_pairs(height, b, i, k).len() ==> output_key(
                height,
                b,
                i,
                (#[trigger] output_pairs(height, b, i, k)[idx]).0,
            ),
    decreases k,
{
    if k > 0 {
        lemma_output_pair_keys(height, b, i, (k - 1) as nat);
        let tx = b.transactions[i];
        let out = tx.outputs[k - 1];
        let prev = output_pairs(height, b, i, (k - 1) as nat);
        let cur = output_pairs(height, b, i, k);
        if out.script_pubkey.len() != 0 {
            let sh = sha256(out.script_pubkey)@;
            let ku = IndexKey::Utxo(sh, tx.txid, (k - 1) as u32);
            let ka = IndexKey::AddressTx(sh, height, i as u16);
            assert(tail_writes(height, b, i, ku));
            assert(tail_writes(height, b, i, ka));
            assert(output_key(height, b, i, key_bytes(ku)));
            assert(output_key(height, b, i, key_bytes(ka)));
            assert forall|idx: int| 0 <= idx < cur.len() implies output_key(
                height,
                b,
                i,
                (#[trigger] cur[idx]).0,
            ) by {
                if idx < prev.len() {
                    assert(cur[idx] == prev[idx]);
                }
            }
        }
    }
}

/// The records of the `j`-th transaction: the block's txid entry, the
/// metadata and the raw bytes, then spending and output records.
proof fn lemma_tx_pair_keys(height: u32, b: SpecBlock, j: int)
    requires
        block_hashes_sized(b),
        0 <= j < b.transactions.len(),
    ensures
        tx_pairs(height, b, j).len() >= 3,
        tx_pairs(height, b, j)[0] == (
            key_bytes(IndexKey::BlockTxid(b.header.hash, j as u32)),
            SpecIndexValue::Bytes(b.transactions[j].txid),
        ),
        tx_pairs(height, b, j)[1] == (
            key_bytes(IndexKey::Tx(b.transactions[j].txid)),
            SpecIndexValue::Tx(tx_meta_spec(height, b, j)),
        ),
        tx_pairs(height, b, j)[2] == (
            key_bytes(IndexKey::TxRaw(b.transactions[j].txid)),
            SpecIndexValue::Bytes(b.transactions[j].raw),
        ),
        forall|idx: int|
            3 <= idx < tx_pairs(height, b, j).len() ==> tail_key(
                height,
                b,
                j,
                (#[trigger] tx_pairs(height, b, j)[idx]).0,
            ),
        forall|idx: int|
            3 <= idx < tx_pairs(height, b, j).len() ==> (3 <= idx < 3 + spend_pairs(
                b.transactions[j],
                j,
            ).len() && (#[trigger] tx_pairs(height, b, j)[idx]).1 == SpecIndexValue::Bytes(
                b.transactions[j].txid,
            )) || output_key(height, b, j, tx_pairs(height, b, j)[idx].0),
        forall|q: int|
            0 <= q < b.transactions[j].inputs.len() && j != 0 ==> tx_pairs(height, b, j)[3 + q].0
                == key_bytes(
                IndexKey::Spend(
                    (#[trigger] b.transactions[j].inputs[q]).prev_txid,
                    b.transactions[j].inputs[q].prev_vout,
                ),
            ),
{
    let tx = b.transactions[j];
    assert(tx.txid.len() == 32);
    let sp = spend_pairs(tx, j);
    let op = output_pairs(height, b, j, tx.outputs.len());
    lemma_output_pair_keys(height, b, j, tx.outputs.len());
    let tp = tx_pairs(height, b, j);
    assert forall|idx: int| 3 <= idx < tp.len() implies tail_key(
        height,
        b,
        j,
        (#[trigger] tp[idx]).0,
    ) by {
        if idx < 3 + sp.len() {
            assert(tp[idx] == sp[idx - 3]);
            let q = idx - 3;
            assert(tx.inputs[q].prev_txid.len() == 32);
            let ks = IndexKey::Spend(tx.inputs[q].prev_txid, tx.inputs[q].prev_vout);
            assert(tail_writes(height, b, j, ks));
            assert(tail_key(height, b, j, key_bytes(ks)));
        } else {
            assert(tp[idx] == op[idx - 3 - sp.len()]);
            let key = tp[idx].0;
            let k = choose|k: IndexKey|
                key_well_formed(k) && tail_writes(height, b, j, k) && (k is Utxo || k is AddressTx)
                    && key == key_bytes(k);
            assert(tail_key(height, b, j, key));
        }
    }
    assert forall|q: int| 0 <= q < tx.inputs.len() && j != 0 implies tp[3 + q].0 == key_bytes(
        IndexKey::Spend((#[trigger] tx.inputs[q]).prev_txid, tx.inputs[q].prev_vout),
    ) by {
        assert(tp[3 + q] == sp[q]);
    }
}

/// Every record of the `j`-th transaction is written under the key of a
/// well-formed index key that `tx_writes` names.
proof fn lemma_tx_pair_written(height: u32, b: SpecBlock, j: int, idx: int) -> (k: IndexKey)
    requires
        block_hashes_sized(b),
        0 <= j < b.transactions.len(),
        0 <= idx < tx_pairs(height, b, j).len(),
    ensures
        key_well_formed(k),
        tx_writes(height, b, j, k),
        tx_pairs(height, b, j)[idx].0 == key_bytes(k),
        idx == 0 ==> k == IndexKey::BlockTxid(b.header.hash, j as u32),
        idx == 1 ==> k == IndexKey::Tx(b.transactions[j].txid),
        idx == 2 ==> k == IndexKey::TxRaw(b.transactions[j].txid),
        idx >= 3 ==> tail_writes(height, b, j, k),
{
    lemma_tx_pair_keys(height, b, j);
    let tx = b.transactions[j];
    assert(tx.txid.len() == 32);
    if idx == 0 {
        IndexKey::BlockTxid(b.header.hash, j as u32)
    } else if idx == 1 {
        IndexKey::Tx(tx.txid)
    } else if idx == 2 {
        IndexKey::TxRaw(tx.txid)
    } else {
        let key = tx_pairs(height, b, j)[idx].0;
        assert(tail_key(height, b, j, key));
        choose|k: IndexKey| key_well_formed(k) && tail_writes(height, b, j, k) && key == key_bytes(k)
    }
}

/// Writing the records of the first `n` transactions leaves a key that none
/// of them writes as it was.
proof fn lemma_txs_skip(
    m: Map<Seq<u8>, SpecIndexValue>,
    height: u32,
    b: SpecBlock,
    n: nat,
    key: Seq<u8>,
)
    requires
        forall|j: int| 0 <= j < n ==> #[trigger] tx_skips(height, b, j, key),
    ensures
        apply_pairs(m, txs_pairs(height, b, n)).contains_key(key) == m.contains_key(key),
        m.contains_key(key) ==> apply_pairs(m, txs_pairs(height, b, n))[key] == m[key],
    decreases n,
{
    if n > 0 {
        let prev = txs_pairs(height, b, (n - 1) as nat);
        lemma_txs_skip(m, height, b, (n - 1) as nat, key);
        lemma_apply_pairs_append(m, prev, tx_pairs(height, b, n - 1));
        assert(tx_skips(height, b, n - 1, key));
        lemma_apply_pairs_untouched(apply_pairs(m, prev), tx_pairs(height, b, n - 1), key);
    }
}

/// A key that no transaction after the `i`-th writes holds, after the first
/// `n` transactions, what it held right after the `i`-th.
proof fn lemma_txs_from(
    m: Map<Seq<u8>, SpecIndexValue>,
    height: u32,
    b: SpecBlock,
    i: int,
    n: nat,
    key: Seq<u8>,
)
    requires
        0 <= i < n,
        forall|j: int| i < j < n ==> #[trigger] tx_skips(height, b, j, key),
    ensures
        ({
            let at = apply_pairs(
                apply_pairs(m, txs_pairs(height, b, i as nat)),
                tx_pairs(height, b, i),
            );
            &&& apply_pairs(m, txs_pairs(height, b, n)).contains_key(key) == at.contains_key(key)
            &&& at.contains_key(key) ==> apply_pairs(m, txs_pairs(height, b, n))[key] == at[key]
        }),
    decreases n,
{
    let prev = txs_pairs(height, b, (n - 1) as nat);
    lemma_apply_pairs_append(m, prev, tx_pairs(height, b, n - 1));
    if n - 1 > i {
        lemma_txs_from(m, height, b, i, (n - 1) as nat, key);
        assert(tx_skips(height, b, n - 1, key));
        lemma_apply_pairs_untouched(apply_pairs(m, prev), tx_pairs(height, b, n - 1), key);
    }
}

/// The five records of the block itself, and the map they leave.
proof fn lemma_header_reads(m: Map<Seq<u8>, SpecIndexValue>, height: u32, b: SpecBlock, raw_size: u32)
    requires
        block_hashes_sized(b),
    ensures
        ({
            let hp = header_pairs(height, b, raw_size);
            let hm = apply_pairs(m, hp);
            &&& forall|p: int|
                0 <= p < hp.len() ==> hm.contains_key((#[trigger] hp[p]).0) && hm[hp[p].0]
                    == hp[p].1
            &&& forall|p: int|
                0 <= p < hp.len() ==> exists|k: IndexKey|
                    key_well_formed(k) && header_writes(height, b, k) && (#[trigger] hp[p]).0
                        == key_bytes(k)
        }),
{
    let hash = b.header.hash;
    let hp = header_pairs(height, b, raw_size);
    let ks = seq![
        IndexKey::Block(hash),
        IndexKey::BlockHeight(height),
        IndexKey::BlockTxCount(hash),
        IndexKey::Tip,
        IndexKey::TipHash,
    ];
    assert forall|p: int| 0 <= p < 5 implies key_well_formed(#[trigger] ks[p]) && header_writes(
        height,
        b,
        ks[p],
    ) && hp[p].0 == key_bytes(ks[p]) by {}
    assert forall|p: int| 0 <= p < hp.len() implies exists|k: IndexKey|
        key_well_formed(k) && header_writes(height, b, k) && (#[trigger] hp[p]).0 == key_bytes(
            k,
        ) by {
        assert(key_well_formed(ks[p]) && header_writes(height, b, ks[p]) && hp[p].0 == key_bytes(
            ks[p],
        ));
    }
    assert forall|p: int| 0 <= p < hp.len() implies apply_pairs(m, hp).contains_key(
        (#[trigger] hp[p]).0,
    ) && apply_pairs(m, hp)[hp[p].0] == hp[p].1 by {
        assert forall|q: int| p < q < hp.len() implies (#[trigger] hp[q]).0 != hp[p].0 by {
            assert(ks[p] != ks[q]);
            if hp[q].0 == hp[p].0 {
                assert(key_well_formed(ks[p]) && key_well_formed(ks[q]));
                lemma_keys_injective(ks[p], ks[q]);
            }
        }
        lemma_apply_pairs_last(m, hp, p);
    }
}

/// A key that indexing `b` does not write reads, after indexing, as it did
/// before: indexing a block changes nothing but its own records.
pub proof fn lemma_index_keeps(
    m: Map<Seq<u8>, SpecIndexValue>,
    height: u32,
    b: SpecBlock,
    raw_size: u32,
    k: IndexKey,
)
    requires
        block_hashes_sized(b),
        key_well_formed(k),
        !index_writes(height, b, k),
    ensures
        apply_pairs(m, index_pairs(height, b, raw_size)).contains_key(key_bytes(k))
            == m.contains_key(key_bytes(k)),
        m.contains_key(key_bytes(k)) ==> apply_pairs(m, index_pairs(height, b, raw_size))[key_bytes(
            k,
        )] == m[key_bytes(k)],
{
    let key = key_bytes(k);
    let hp = header_pairs(height, b, raw_size);
    let n = b.transactions.len();
    lemma_header_reads(m, height, b, raw_size);
    assert forall|p: int| 0 <= p < hp.len() implies (#[trigger] hp[p]).0 != key by {
        let kp = choose|kp: IndexKey|
            key_well_formed(kp) && header_writes(height, b, kp) && hp[p].0 == key_bytes(kp);
        if hp[p].0 == key {
            lemma_keys_injective(kp, k);
        }
    }
    lemma_apply_pairs_untouched(m, hp, key);
    assert forall|j: int| 0 <= j < n implies #[trigger] tx_skips(height, b, j, key) by {
        assert forall|idx: int| 0 <= idx < tx_pairs(height, b, j).len() implies (
        #[trigger] tx_pairs(height, b, j)[idx]).0 != key by {
            let kt = lemma_tx_pair_written(height, b, j, idx);
            if tx_pairs(height, b, j)[idx].0 == key {
                lemma_keys_injective(kt, k);
                assert(tx_writes(height, b, j, k));
            }
        }
    }
    lemma_txs_skip(apply_pairs(m, hp), height, b, n, key);
    lemma_apply_pairs_append(m, hp, txs_pairs(height, b, n));
}

/// After a block is indexed, the chain tip reads as its height and hash, its
/// height reads as its hash, and its hash reads as its metadata and its
/// transaction count.
pub proof fn lemma_index_reads_block(
    m: Map<Seq<u8>, SpecIndexValue>,
    height: u32,
    b: SpecBlock,
    raw_size: u32,
)
    requires
        block_hashes_sized(b),
    ensures
        ({
            let s = apply_pairs(m, index_pairs(height, b, raw_size));
            let hash = b.header.hash;
            &&& bytes_at(s, key_bytes(IndexKey::Tip)) == Some(le_bytes(height as int, 4))
            &&& u32_or_zero(bytes_at(s, key_bytes(IndexKey::Tip))) == height
            &&& bytes_at(s, key_bytes(IndexKey::TipHash)) == Some(hash)
            &&& bytes_at(s, key_bytes(IndexKey::BlockHeight(height))) == Some(hash)
            &&& s.contains_key(key_bytes(IndexKey::Block(hash)))
            &&& s[key_bytes(IndexKey::Block(hash))] == SpecIndexValue::Block(
                block_meta_spec(height, b, raw_size),
            )
            &&& u32_or_zero(bytes_at(s, key_bytes(IndexKey::BlockTxCount(hash))))
                == b.transactions.len() as u32
        }),
{
    let hash = b.header.hash;
    let hp = header_pairs(height, b, raw_size);
    let hm = apply_pairs(m, hp);
    let n = b.transactions.len();
    lemma_header_reads(m, height, b, raw_size);
    lemma_apply_pairs_append(m, hp, txs_pairs(height, b, n));
    let ks = seq![
        IndexKey::Block(hash),
        IndexKey::BlockHeight(height),
        IndexKey::BlockTxCount(hash),
        IndexKey::Tip,
        IndexKey::TipHash,
    ];
    assert forall|p: int| 0 <= p < 5 implies hm.contains_key(key_bytes(#[trigger] ks[p]))
        && apply_pairs(hm, txs_pairs(height, b, n)).contains_key(key_bytes(ks[p])) && apply_pairs(
        hm,
        txs_pairs(height, b, n),
    )[key_bytes(ks[p])] == hm[key_bytes(ks[p])] by {
        let k = ks[p];
        assert(hp[p].0 == key_bytes(k));
        assert forall|j: int| 0 <= j < n implies #[trigger] tx_skips(
            height,
            b,
            j,
            key_bytes(k),
        ) by {
            assert forall|idx: int| 0 <= idx < tx_pairs(height, b, j).len() implies (
            #[trigger] tx_pairs(height, b, j)[idx]).0 != key_bytes(k) by {
                let kt = lemma_tx_pair_written(height, b, j, idx);
                if tx_pairs(height, b, j)[idx].0 == key_bytes(k) {
                    lemma_keys_injective(kt, k);
                }
            }
        }
        lemma_txs_skip(hm, height, b, n, key_bytes(k));
    }
    assert(hp[0].0 == key_bytes(ks[0]));
    assert(hp[1].0 == key_bytes(ks[1]));
    assert(hp[2].0 == key_bytes(ks[2]));
    assert(hp[3].0 == key_bytes(ks[3]));
    assert(hp[4].0 == key_bytes(ks[4]));
    let s = apply_pairs(m, index_pairs(height, b, raw_size));
    assert(bytes_at(s, key_bytes(IndexKey::Tip)) == Some(le_bytes(height as int, 4)));
    assert(le_bytes(height as int, 4).subrange(0, 4) =~= le_bytes(height as int, 4));
    lemma_read_le4(le_bytes(height as int, 4), 0, height as int);
    let c = le_bytes((n as u32) as int, 4);
    assert(bytes_at(s, key_bytes(IndexKey::BlockTxCount(hash))) == Some(c));
    assert(c.subrange(0, 4) =~= c);
    lemma_read_le4(c, 0, (n as u32) as int);
}

/// After a block is indexed, the txid entry of each of its transactions
/// reads as that transaction's txid (for blocks whose transaction indices
/// fit the `u32` that the key holds).
pub proof fn lemma_index_reads_block_txid(
    m: Map<Seq<u8>, SpecIndexValue>,
    height: u32,
    b: SpecBlock,
    raw_size: u32,
    i: int,
)
    requires
        block_hashes_sized(b),
        0 <= i < b.transactions.len(),
        b.transactions.len() <= 0x1_0000_0000,
    ensures
        bytes_at(
            apply_pairs(m, index_pairs(height, b, raw_size)),
            key_bytes(IndexKey::BlockTxid(b.header.hash, i as u32)),
        ) == Some(b.transactions[i].txid),
{
    let k = IndexKey::BlockTxid(b.header.hash, i as u32);
    let key = key_bytes(k);
    let n = b.transactions.len();
    let hm = apply_pairs(m, header_pairs(height, b, raw_size));
    lemma_apply_pairs_append(m, header_pairs(height, b, raw_size), txs_pairs(height, b, n));
    assert forall|j: int| i < j < n implies #[trigger] tx_skips(height, b, j, key) by {
        assert forall|idx: int| 0 <= idx < tx_pairs(height, b, j).len() implies (
        #[trigger] tx_pairs(height, b, j)[idx]).0 != key by {
            let kt = lemma_tx_pair_written(height, b, j, idx);
            if tx_pairs(height, b, j)[idx].0 == key {
                lemma_keys_injective(kt, k);
            }
        }
    }
    lemma_txs_from(hm, height, b, i, n, key);
    let tp = tx_pairs(height, b, i);
    lemma_tx_pair_keys(height, b, i);
    assert forall|q: int| 0 < q < tp.len() implies (#[trigger] tp[q]).0 != tp[0].0 by {
        let kt = lemma_tx_pair_written(height, b, i, q);
        if tp[q].0 == key {
            lemma_keys_injective(kt, k);
        }
    }
    lemma_apply_pairs_last(apply_pairs(hm, txs_pairs(height, b, i as nat)), tp, 0);
}

/// After a block is indexed, each transaction that no later transaction of
/// the block shares a txid with reads back, under its txid, as its metadata
/// and its raw bytes.
pub proof fn lemma_index_reads_tx(
    m: Map<Seq<u8>, SpecIndexValue>,
    height: u32,
    b: SpecBlock,
    raw_size: u32,
    i: int,
)
    requires
        block_hashes_sized(b),
        0 <= i < b.transactions.len(),
        forall|j: int|
            i < j < b.transactions.len() ==> (#[trigger] b.transactions[j]).txid
                != b.transactions[i].txid,
    ensures
        ({
            let s = apply_pairs(m, index_pairs(height, b, raw_size));
            let txid = b.transactions[i].txid;
            &&& s.contains_key(key_bytes(IndexKey::Tx(txid)))
            &&& s[key_bytes(IndexKey::Tx(txid))] == SpecIndexValue::Tx(tx_meta_spec(height, b, i))
            &&& bytes_at(s, key_bytes(IndexKey::TxRaw(txid))) == Some(b.transactions[i].raw)
        }),
{
    let txid = b.transactions[i].txid;
    let n = b.transactions.len();
    let hm = apply_pairs(m, header_pairs(height, b, raw_size));
    lemma_apply_pairs_append(m, header_pairs(height, b, raw_size), txs_pairs(height, b, n));
    let tp = tx_pairs(height, b, i);
    lemma_tx_pair_keys(height, b, i);
    let at_i = apply_pairs(hm, txs_pairs(height, b, i as nat));
    let kk = seq![IndexKey::Tx(txid), IndexKey::TxRaw(txid)];
    assert forall|r: int| 0 <= r < 2 implies ({
        let k = #[trigger] kk[r];
        let s = apply_pairs(hm, txs_pairs(height, b, n));
        s.contains_key(key_bytes(k)) && s[key_bytes(k)] == tp[r + 1].1
    }) by {
        let k = kk[r];
        let key = key_bytes(k);
        assert(tp[r + 1].0 == key);
        assert forall|j: int| i < j < n implies #[trigger] tx_skips(height, b, j, key) by {
            assert forall|idx: int| 0 <= idx < tx_pairs(height, b, j).len() implies (
            #[trigger] tx_pairs(height, b, j)[idx]).0 != key by {
                let kt = lemma_tx_pair_written(height, b, j, idx);
                if tx_pairs(height, b, j)[idx].0 == key {
                    lemma_keys_injective(kt, k);
                    assert(b.transactions[j].txid != txid);
                }
            }
        }
        lemma_txs_from(hm, height, b, i, n, key);
        assert forall|q: int| r + 1 < q < tp.len() implies (#[trigger] tp[q]).0 != tp[r + 1].0 by {
            let kt = lemma_tx_pair_written(height, b, i, q);
            if tp[q].0 == key {
                lemma_keys_injective(kt, k);
            }
        }
        lemma_apply_pairs_last(at_i, tp, r + 1);
    }
    assert(kk[0] == IndexKey::Tx(txid));
    assert(kk[1] == IndexKey::TxRaw(txid));
}

/// Two blocks indexed one after the other at different heights: the tip is
/// the later block, each height reads as its block's hash, and the earlier
/// block's metadata stays where the two hashes differ.
pub proof fn lemma_index_two_blocks(
    m: Map<Seq<u8>, SpecIndexValue>,
    h0: u32,
    b0: SpecBlock,
    r0: u32,
    h1: u32,
    b1: SpecBlock,
    r1: u32,
)
    requires
        block_hashes_sized(b0),
        block_hashes_sized(b1),
        h0 != h1,
    ensures
        ({
            let s1 = apply_pairs(m, index_pairs(h0, b0, r0));
            let s2 = apply_pairs(s1, index_pairs(h1, b1, r1));
            let k0 = key_bytes(IndexKey::Block(b0.header.hash));
            &&& u32_or_zero(bytes_at(s2, key_bytes(IndexKey::Tip))) == h1
            &&& bytes_at(s2, key_bytes(IndexKey::TipHash)) == Some(b1.header.hash)
            &&& bytes_at(s2, key_bytes(IndexKey::BlockHeight(h0))) == Some(b0.header.hash)
            &&& bytes_at(s2, key_bytes(IndexKey::BlockHeight(h1))) == Some(b1.header.hash)
            &&& b0.header.hash != b1.header.hash ==> s2.contains_key(k0) && s2[k0]
                == SpecIndexValue::Block(block_meta_spec(h0, b0, r0))
        }),
{
    let s1 = apply_pairs(m, index_pairs(h0, b0, r0));
    lemma_index_reads_block(m, h0, b0, r0);
    lemma_index_reads_block(s1, h1, b1, r1);
    lemma_index_keeps(s1, h1, b1, r1, IndexKey::BlockHeight(h0));
    if b0.header.hash != b1.header.hash {
        lemma_index_keeps(s1, h1, b1, r1, IndexKey::Block(b0.header.hash));
    }
}

/// The display txids of the first `k` transactions, as the txid list of the
/// block reads them after indexing.
proof fn lemma_block_txids_prefix(
    m: Map<Seq<u8>, SpecIndexValue>,
    height: u32,
    b: SpecBlock,
    raw_size: u32,
    k: nat,
)
    requires
        block_hashes_sized(b),
        k <= b.transactions.len() <= u32::MAX,
    ensures
        block_txids_spec(apply_pairs(m, index_pairs(height, b, raw_size)), b.header.hash, k)
            == b.transactions.subrange(0, k as int).map_values(
            |t: SpecTransaction| display_hash(t.txid),
        ),
    decreases k,
{
    let s = apply_pairs(m, index_pairs(height, b, raw_size));
    let f = |t: SpecTransaction| display_hash(t.txid);
    if k == 0 {
        assert(b.transactions.subrange(0, 0).map_values(f) =~= Seq::<Seq<char>>::empty());
    } else {
        lemma_block_txids_prefix(m, height, b, raw_size, (k - 1) as nat);
        lemma_index_reads_block_txid(m, height, b, raw_size, k - 1);
        let t = b.transactions[k - 1].txid;
        assert(t.len() == 32);
        assert(hash_or_zero(t) == t);
        assert(b.transactions.subrange(0, k as int).map_values(f) =~= b.transactions.subrange(
            0,
            k - 1,
        ).map_values(f).push(display_hash(t)));
    }
}

/// After a block is indexed, its txid list reads as the display txids of its
/// transactions, in block order (for blocks whose transaction count fits the
/// `u32` that records it).
pub proof fn lemma_index_block_txids_view(
    m: Map<Seq<u8>, SpecIndexValue>,
    height: u32,
    b: SpecBlock,
    raw_size: u32,
)
    requires
        block_hashes_sized(b),
        b.transactions.len() <= u32::MAX,
    ensures
        ({
            let s = apply_pairs(m, index_pairs(height, b, raw_size));
            let hash = b.header.hash;
            block_txids_spec(
                s,
                hash,
                u32_or_zero(bytes_at(s, key_bytes(IndexKey::BlockTxCount(hash)))) as nat,
            ) == b.transactions.map_values(
                |t: SpecTransaction| display_hash(t.txid),
            )
        }),
{
    let n = b.transactions.len();
    lemma_index_reads_block(m, height, b, raw_size);
    lemma_block_txids_prefix(m, height, b, raw_size, n);
    assert(b.transactions.subrange(0, n as int) =~= b.transactions);
}

/// After a block is indexed, its metadata record carries the block's own
/// values: the display hash as its id, the height it was indexed at, the
/// header's version, time, bits and nonce, the display merkle root and
/// previous block hash, the number of transactions, the size given, and the
/// sum of the transaction weights.
pub proof fn lemma_index_block_record(
    m: Map<Seq<u8>, SpecIndexValue>,
    height: u32,
    b: SpecBlock,
    raw_size: u32,
)
    requires
        block_hashes_sized(b),
    ensures
        ({
            let s = apply_pairs(m, index_pairs(height, b, raw_size));
            let k = key_bytes(IndexKey::Block(b.header.hash));
            &&& s.contains_key(k)
            &&& match s[k] {
                SpecIndexValue::Block(meta) => {
                    &&& meta.id == hex_spec(b.header.hash.reverse())
                    &&& meta.height == height
                    &&& meta.version == b.header.version
                    &&& meta.timestamp == b.header.time
                    &&& meta.merkle_root == hex_spec(b.header.merkle_root.reverse())
                    &&& meta.tx_count == b.transactions.len() as u32
                    &&& meta.size == raw_size
                    &&& meta.weight == total_weight(b.transactions) as u32
                    &&& meta.bits == b.header.bits
                    &&& meta.nonce == b.header.nonce
                    &&& meta.previousblockhash == hex_spec(b.header.prev_block.reverse())
                },
                _ => false,
            }
        }),
{
    lemma_index_reads_block(m, height, b, raw_size);
}

/// After a block is indexed, the metadata record of each transaction that no
/// later transaction of the block shares a txid with carries that
/// transaction's own values: the block's height, display hash and time, a
/// zero fee, the transaction's size, weight, version and locktime, its
/// position in the block, and its input and output counts.
pub proof fn lemma_index_tx_record(
    m: Map<Seq<u8>, SpecIndexValue>,
    height: u32,
    b: SpecBlock,
    raw_size: u32,
    i: int,
)
    requires
        block_hashes_sized(b),
        0 <= i < b.transactions.len(),
        forall|j: int|
            i < j < b.transactions.len() ==> (#[trigger] b.transactions[j]).txid
                != b.transactions[i].txid,
    ensures
        ({
            let s = apply_pairs(m, index_pairs(height, b, raw_size));
            let tx = b.transactions[i];
            match tx_meta_at(s, key_bytes(IndexKey::Tx(tx.txid))) {
                Some(meta) => {
                    &&& meta.block_height == height
                    &&& meta.block_hash == hex_spec(b.header.hash.reverse())
                    &&& meta.block_time == b.header.time
                    &&& meta.fee == 0
                    &&& meta.size == tx.size
                    &&& meta.weight == tx.weight
                    &&& meta.version == tx.version
                    &&& meta.locktime == tx.locktime
                    &&& meta.tx_index == i as u32
                    &&& meta.vin_count == tx.inputs.len() as u32
                    &&& meta.vout_count == tx.outputs.len() as u32
                },
                None => false,
            }
        }),
{
    lemma_index_reads_tx(m, height, b, raw_size, i);
}

/// After a block is indexed, the UTXO record of output `o` of a transaction
/// (with a script, and no later transaction of the block sharing its txid)
/// carries that output's own values: the display txid, the index `o`, the
/// output's value, and the block's height, display hash and time.
pub proof fn lemma_index_utxo_record(
    m: Map<Seq<u8>, SpecIndexValue>,
    height: u32,
    b: SpecBlock,
    raw_size: u32,
    i: int,
    o: int,
)
    requires
        block_hashes_sized(b),
        0 <= i < b.transactions.len(),
        0 <= o < b.transactions[i].outputs.len() <= 0x1_0000_0000,
        b.transactions[i].outputs[o].script_pubkey.len() != 0,
        forall|j: int|
            i < j < b.transactions.len() ==> (#[trigger] b.transactions[j]).txid
                != b.transactions[i].txid,
    ensures
        ({
            let s = apply_pairs(m, index_pairs(height, b, raw_size));
            let tx = b.transactions[i];
            let key = key_bytes(
                IndexKey::Utxo(sha256(tx.outputs[o].script_pubkey)@, tx.txid, o as u32),
            );
            &&& s.contains_key(key)
            &&& match s[key] {
                SpecIndexValue::Utxo(e) => {
                    &&& e.txid == hex_spec(tx.txid.reverse())
                    &&& e.vout == o as u32
                    &&& e.value == tx.outputs[o].value
                    &&& e.block_height == height
                    &&& e.block_hash == hex_spec(b.header.hash.reverse())
                    &&& e.block_time == b.header.time
                },
                _ => false,
            }
        }),
{
    lemma_index_reads_utxo(m, height, b, raw_size, i, o);
}

/// After a block is indexed, the spending record of an outpoint that an
/// input of a non-coinbase transaction spends, where no later transaction of
/// the block spends it again, holds that transaction's txid.
pub proof fn lemma_index_spend_record(
    m: Map<Seq<u8>, SpecIndexValue>,
    height: u32,
    b: SpecBlock,
    raw_size: u32,
    j: int,
    q: int,
)
    requires
        block_hashes_sized(b),
        1 <= j < b.transactions.len(),
        0 <= q < b.transactions[j].inputs.len(),
        forall|j2: int, q2: int|
            j < j2 < b.transactions.len() && 0 <= q2 < b.transactions[j2].inputs.len() ==> !(
            #[trigger] b.transactions[j2].inputs[q2].prev_txid
                == b.transactions[j].inputs[q].prev_txid && b.transactions[j2].inputs[q2].prev_vout
                == b.transactions[j].inputs[q].prev_vout),
    ensures
        ({
            let inp = b.transactions[j].inputs[q];
            bytes_at(
                apply_pairs(m, index_pairs(height, b, raw_size)),
                key_bytes(IndexKey::Spend(inp.prev_txid, inp.prev_vout)),
            ) == Some(b.transactions[j].txid)
        }),
{
    let inp = b.transactions[j].inputs[q];
    let t = inp.prev_txid;
    let v = inp.prev_vout;
    let k = IndexKey::Spend(t, v);
    let key = key_bytes(k);
    assert(t.len() == 32);
    let n = b.transactions.len();
    let hm = apply_pairs(m, header_pairs(height, b, raw_size));
    lemma_apply_pairs_append(m, header_pairs(height, b, raw_size), txs_pairs(height, b, n));
    assert forall|j2: int| j < j2 < n implies #[trigger] tx_skips(height, b, j2, key) by {
        assert forall|idx: int| 0 <= idx < tx_pairs(height, b, j2).len() implies (
        #[trigger] tx_pairs(height, b, j2)[idx]).0 != key by {
            let kt = lemma_tx_pair_written(height, b, j2, idx);
            if tx_pairs(height, b, j2)[idx].0 == key {
                lemma_keys_injective(kt, k);
                assert(tail_writes(height, b, j2, k));
                let q2 = choose|q2: int|
                    0 <= q2 < b.transactions[j2].inputs.len()
                        && (#[trigger] b.transactions[j2].inputs[q2]).prev_txid == t
                        && b.transactions[j2].inputs[q2].prev_vout == v;
                assert(b.transactions[j2].inputs[q2].prev_txid == t);
            }
        }
    }
    lemma_txs_from(hm, height, b, j, n, key);
    lemma_tx_pair_keys(height, b, j);
    let tp = tx_pairs(height, b, j);
    let at_j = apply_pairs(hm, txs_pairs(height, b, j as nat));
    let e = lemma_apply_pairs_source(at_j, tp, key, 3 + q);
    lemma_spend_pair_value(height, b, j, e, t, v);
}

/// A record among the output records of the `i`-th transaction written under
/// an address key holds the transaction's txid.
proof fn lemma_output_addr_value(
    height: u32,
    b: SpecBlock,
    i: int,
    k: nat,
    idx: int,
    sh: Seq<u8>,
    hh: u32,
    x: u16,
)
    requires
        0 <= i < b.transactions.len(),
        b.transactions[i].txid.len() == 32,
        k <= b.transactions[i].outputs.len(),
        0 <= idx < output_pairs(height, b, i, k).len(),
        sh.len() == 32,
        output_pairs(height, b, i, k)[idx].0 == key_bytes(IndexKey::AddressTx(sh, hh, x)),
    ensures
        output_pairs(height, b, i, k)[idx].1 == SpecIndexValue::Bytes(b.transactions[i].txid),
    decreases k,
{
    let tx = b.transactions[i];
    let prev = output_pairs(height, b, i, (k - 1) as nat);
    let cur = output_pairs(height, b, i, k);
    let target = IndexKey::AddressTx(sh, hh, x);
    if idx < prev.len() {
        assert(cur[idx] == prev[idx]);
        lemma_output_addr_value(height, b, i, (k - 1) as nat, idx, sh, hh, x);
    } else {
        let out = tx.outputs[k - 1];
        let osh = sha256(out.script_pubkey)@;
        if idx == prev.len() {
            lemma_keys_injective(IndexKey::Utxo(osh, tx.txid, (k - 1) as u32), target);
        }
    }
}

/// The output records of the `i`-th transaction hold an address record under
/// the address key of each of its first `k` outputs with a script.
proof fn lemma_output_has_addr(height: u32, b: SpecBlock, i: int, k: nat, o: int) -> (idx: int)
    requires
        0 <= i < b.transactions.len(),
        0 <= o < k <= b.transactions[i].outputs.len(),
        b.transactions[i].outputs[o].script_pubkey.len() != 0,
    ensures
        0 <= idx < output_pairs(height, b, i, k).len(),
        output_pairs(height, b, i, k)[idx].0 == key_bytes(
            IndexKey::AddressTx(
                sha256(b.transactions[i].outputs[o].script_pubkey)@,
                height,
                i as u16,
            ),
        ),
    decreases k,
{
    let prev = output_pairs(height, b, i, (k - 1) as nat);
    if o == k - 1 {
        prev.len() + 1int
    } else {
        let idx = lemma_output_has_addr(height, b, i, (k - 1) as nat, o);
        assert(output_pairs(height, b, i, k)[idx] == prev[idx]);
        idx
    }
}

/// After a block is indexed (with transaction positions that fit the 16 bits
/// of the address key), the address record of each output with a script
/// holds the txid of its transaction, under the script's hash, the height
/// and the transaction's position.
pub proof fn lemma_index_address_record(
    m: Map<Seq<u8>, SpecIndexValue>,
    height: u32,
    b: SpecBlock,
    raw_size: u32,
    i: int,
    o: int,
)
    requires
        block_hashes_sized(b),
        b.transactions.len() <= 0x1_0000,
        0 <= i < b.transactions.len(),
        0 <= o < b.transactions[i].outputs.len(),
        b.transactions[i].outputs[o].script_pubkey.len() != 0,
    ensures
        ({
            let tx = b.transactions[i];
            bytes_at(
                apply_pairs(m, index_pairs(height, b, raw_size)),
                key_bytes(
                    IndexKey::AddressTx(sha256(tx.outputs[o].script_pubkey)@, height, i as u16),
                ),
            ) == Some(tx.txid)
        }),
{
    let tx = b.transactions[i];
    let n = b.transactions.len();
    let sh = sha256(tx.outputs[o].script_pubkey)@;
    let k = IndexKey::AddressTx(sh, height, i as u16);
    let key = key_bytes(k);
    assert(tx.txid.len() == 32);
    let hm = apply_pairs(m, header_pairs(height, b, raw_size));
    lemma_apply_pairs_append(m, header_pairs(height, b, raw_size), txs_pairs(height, b, n));
    assert forall|j: int| i < j < n implies #[trigger] tx_skips(height, b, j, key) by {
        assert forall|idx: int| 0 <= idx < tx_pairs(height, b, j).len() implies (
        #[trigger] tx_pairs(height, b, j)[idx]).0 != key by {
            let kt = lemma_tx_pair_written(height, b, j, idx);
            if tx_pairs(height, b, j)[idx].0 == key {
                lemma_keys_injective(kt, k);
                assert(tail_writes(height, b, j, k));
            }
        }
    }
    lemma_txs_from(hm, height, b, i, n, key);
    let tp = tx_pairs(height, b, i);
    let sp = spend_pairs(tx, i);
    let op = output_pairs(height, b, i, tx.outputs.len());
    let oi = lemma_output_has_addr(height, b, i, tx.outputs.len(), o);
    assert(tp[3 + sp.len() + oi] == op[oi]);
    let at_i = apply_pairs(hm, txs_pairs(height, b, i as nat));
    let e = lemma_apply_pairs_source(at_i, tp, key, 3 + sp.len() + oi);
    lemma_tx_pair_keys(height, b, i);
    let kt = lemma_tx_pair_written(height, b, i, e);
    lemma_keys_injective(kt, k);
    if e < 3 + sp.len() {
        let q = e - 3;
        assert(tp[e] == sp[q]);
        assert(tx.inputs[q].prev_txid.len() == 32);
        lemma_keys_injective(IndexKey::Spend(tx.inputs[q].prev_txid, tx.inputs[q].prev_vout), k);
    } else {
        assert(tp[e] == op[e - 3 - sp.len()]);
        lemma_output_addr_value(height, b, i, tx.outputs.len(), e - 3 - sp.len(), sh, height, i as u16);
    }
}

/// Every record of the `j`-th transaction written under a spending key holds
/// that transaction's txid.
proof fn lemma_spend_pair_value(height: u32, b: SpecBlock, j: int, e: int, t: Seq<u8>, v: u32)
    requires
        block_hashes_sized(b),
        0 <= j < b.transactions.len(),
        0 <= e < tx_pairs(height, b, j).len(),
        t.len() == 32,
        tx_pairs(height, b, j)[e].0 == key_bytes(IndexKey::Spend(t, v)),
    ensures
        tx_pairs(height, b, j)[e].1 == SpecIndexValue::Bytes(b.transactions[j].txid),
{
    let tp = tx_pairs(height, b, j);
    let ks = IndexKey::Spend(t, v);
    lemma_tx_pair_keys(height, b, j);
    let kt = lemma_tx_pair_written(height, b, j, e);
    lemma_keys_injective(kt, ks);
    if output_key(height, b, j, tp[e].0) {
        let k = choose|k: IndexKey|
            key_well_formed(k) && tail_writes(height, b, j, k) && (k is Utxo || k is AddressTx)
                && tp[e].0 == key_bytes(k);
        lemma_keys_injective(k, ks);
    }
}

/// The spending key of an input of the `j`-th transaction holds a 32-byte
/// txid after the records of every transaction from the `j`-th on.
proof fn lemma_spend_held(
    mm: Map<Seq<u8>, SpecIndexValue>,
    height: u32,
    b: SpecBlock,
    j: int,
    q: int,
    n: nat,
)
    requires
        block_hashes_sized(b),
        1 <= j < n <= b.transactions.len(),
        0 <= q < b.transactions[j].inputs.len(),
    ensures
        ({
            let inp = b.transactions[j].inputs[q];
            let key = key_bytes(IndexKey::Spend(inp.prev_txid, inp.prev_vout));
            let s = apply_pairs(mm, txs_pairs(height, b, n));
            &&& s.contains_key(key)
            &&& s[key] matches SpecIndexValue::Bytes(x) && x.len() == 32
        }),
    decreases n,
{
    let inp = b.transactions[j].inputs[q];
    let t = inp.prev_txid;
    let v = inp.prev_vout;
    let key = key_bytes(IndexKey::Spend(t, v));
    assert(t.len() == 32);
    let prev = txs_pairs(height, b, (n - 1) as nat);
    let tp = tx_pairs(height, b, n - 1);
    let mid = apply_pairs(mm, prev);
    lemma_apply_pairs_append(mm, prev, tp);
    if n - 1 == j {
        lemma_tx_pair_keys(height, b, j);
        let e = lemma_apply_pairs_source(mid, tp, key, 3 + q);
        lemma_spend_pair_value(height, b, j, e, t, v);
    } else {
        lemma_spend_held(mm, height, b, j, q, (n - 1) as nat);
        if exists|idx: int| 0 <= idx < tp.len() && (#[trigger] tp[idx]).0 == key {
            let i = choose|idx: int| 0 <= idx < tp.len() && (#[trigger] tp[idx]).0 == key;
            let e = lemma_apply_pairs_source(mid, tp, key, i);
            lemma_spend_pair_value(height, b, n - 1, e, t, v);
        } else {
            lemma_apply_pairs_untouched(mid, tp, key);
        }
    }
}

/// After a block is indexed, no output that one of its transactions spends
/// is listed among the unspent outputs of any script hash.
pub proof fn lemma_index_hides_spent(
    m: Map<Seq<u8>, SpecIndexValue>,
    height: u32,
    b: SpecBlock,
    raw_size: u32,
    j: int,
    q: int,
    sh: Seq<u8>,
)
    requires
        block_hashes_sized(b),
        1 <= j < b.transactions.len(),
        0 <= q < b.transactions[j].inputs.len(),
    ensures
        !utxo_listed(
            apply_pairs(m, index_pairs(height, b, raw_size)),
            sh,
            key_bytes(
                IndexKey::Utxo(
                    sh,
                    b.transactions[j].inputs[q].prev_txid,
                    b.transactions[j].inputs[q].prev_vout,
                ),
            ),
        ),
{
    let inp = b.transactions[j].inputs[q];
    let n = b.transactions.len();
    let hp = header_pairs(height, b, raw_size);
    lemma_apply_pairs_append(m, hp, txs_pairs(height, b, n));
    lemma_spend_held(apply_pairs(m, hp), height, b, j, q, n);
    let uk = key_bytes(IndexKey::Utxo(sh, inp.prev_txid, inp.prev_vout));
    if sh.len() == 32 {
        assert(inp.prev_txid.len() == 32);
        assert(spend_key_of_utxo(uk) =~= key_bytes(IndexKey::Spend(inp.prev_txid, inp.prev_vout)));
    }
}

/// A record among the output records of the `i`-th transaction written under
/// the UTXO key of output `v` holds that output's UTXO record.
proof fn lemma_output_utxo_value(
    height: u32,
    b: SpecBlock,
    i: int,
    k: nat,
    idx: int,
    sh: Seq<u8>,
    t: Seq<u8>,
    v: u32,
)
    requires
        0 <= i < b.transactions.len(),
        b.transactions[i].txid.len() == 32,
        k <= b.transactions[i].outputs.len() <= 0x1_0000_0000,
        0 <= idx < output_pairs(height, b, i, k).len(),
        sh.len() == 32,
        t.len() == 32,
        output_pairs(height, b, i, k)[idx].0 == key_bytes(IndexKey::Utxo(sh, t, v)),
    ensures
        output_pairs(height, b, i, k)[idx].1 == SpecIndexValue::Utxo(
            utxo_entry_spec(height, b, i, v as int),
        ),
        v < k,
    decreases k,
{
    let tx = b.transactions[i];
    let prev = output_pairs(height, b, i, (k - 1) as nat);
    let cur = output_pairs(height, b, i, k);
    let target = IndexKey::Utxo(sh, t, v);
    if idx < prev.len() {
        assert(cur[idx] == prev[idx]);
        lemma_output_utxo_value(height, b, i, (k - 1) as nat, idx, sh, t, v);
    } else {
        let out = tx.outputs[k - 1];
        let osh = sha256(out.script_pubkey)@;
        if idx == prev.len() {
            lemma_keys_injective(IndexKey::Utxo(osh, tx.txid, (k - 1) as u32), target);
        } else {
            lemma_keys_injective(IndexKey::AddressTx(osh, height, i as u16), target);
        }
    }
}

/// The output records of the `i`-th transaction hold a UTXO record under the
/// UTXO key of each of its first `k` outputs with a script.
proof fn lemma_output_has_utxo(height: u32, b: SpecBlock, i: int, k: nat, o: int) -> (idx: int)
    requires
        0 <= i < b.transactions.len(),
        0 <= o < k <= b.transactions[i].outputs.len(),
        b.transactions[i].outputs[o].script_pubkey.len() != 0,
    ensures
        0 <= idx < output_pairs(height, b, i, k).len(),
        output_pairs(height, b, i, k)[idx].0 == key_bytes(
            IndexKey::Utxo(
                sha256(b.transactions[i].outputs[o].script_pubkey)@,
                b.transactions[i].txid,
                o as u32,
            ),
        ),
    decreases k,
{
    let prev = output_pairs(height, b, i, (k - 1) as nat);
    if o == k - 1 {
        prev.len() as int
    } else {
        let idx = lemma_output_has_utxo(height, b, i, (k - 1) as nat, o);
        assert(output_pairs(height, b, i, k)[idx] == prev[idx]);
        idx
    }
}

/// Every record of the `j`-th transaction written under a UTXO key holds the
/// UTXO record of the output that the key names.
proof fn lemma_utxo_pair_value(
    height: u32,
    b: SpecBlock,
    j: int,
    e: int,
    sh: Seq<u8>,
    t: Seq<u8>,
    v: u32,
)
    requires
        block_hashes_sized(b),
        0 <= j < b.transactions.len(),
        b.transactions[j].outputs.len() <= 0x1_0000_0000,
        0 <= e < tx_pairs(height, b, j).len(),
        sh.len() == 32,
        t.len() == 32,
        tx_pairs(height, b, j)[e].0 == key_bytes(IndexKey::Utxo(sh, t, v)),
    ensures
        t == b.transactions[j].txid,
        tx_pairs(height, b, j)[e].1 == SpecIndexValue::Utxo(utxo_entry_spec(height, b, j, v as int)),
{
    let tx = b.transactions[j];
    let tp = tx_pairs(height, b, j);
    let target = IndexKey::Utxo(sh, t, v);
    lemma_tx_pair_keys(height, b, j);
    let kt = lemma_tx_pair_written(height, b, j, e);
    lemma_keys_injective(kt, target);
    let sp = spend_pairs(tx, j);
    let op = output_pairs(height, b, j, tx.outputs.len());
    if e < 3 + sp.len() {
        let q = e - 3;
        assert(tx.inputs[q].prev_txid.len() == 32);
        lemma_keys_injective(IndexKey::Spend(tx.inputs[q].prev_txid, tx.inputs[q].prev_vout), target);
    } else {
        assert(tp[e] == op[e - 3 - sp.len()]);
        lemma_output_utxo_value(height, b, j, tx.outputs.len(), e - 3 - sp.len(), sh, t, v);
    }
}

/// After a block is indexed, the UTXO record of each output with a script
/// reads back as written, for transactions that no later transaction of the
/// block shares a txid with (and output indices that fit the `u32` of the key).
pub proof fn lemma_index_reads_utxo(
    m: Map<Seq<u8>, SpecIndexValue>,
    height: u32,
    b: SpecBlock,
    raw_size: u32,
    i: int,
    o: int,
)
    requires
        block_hashes_sized(b),
        0 <= i < b.transactions.len(),
        0 <= o < b.transactions[i].outputs.len() <= 0x1_0000_0000,
        b.transactions[i].outputs[o].script_pubkey.len() != 0,
        forall|j: int|
            i < j < b.transactions.len() ==> (#[trigger] b.transactions[j]).txid
                != b.transactions[i].txid,
    ensures
        ({
            let s = apply_pairs(m, index_pairs(height, b, raw_size));
            let tx = b.transactions[i];
            let key = key_bytes(
                IndexKey::Utxo(sha256(tx.outputs[o].script_pubkey)@, tx.txid, o as u32),
            );
            &&& s.contains_key(key)
            &&& s[key] == SpecIndexValue::Utxo(utxo_entry_spec(height, b, i, o))
        }),
{
    let tx = b.transactions[i];
    let n = b.transactions.len();
    let sh = sha256(tx.outputs[o].script_pubkey)@;
    let k = IndexKey::Utxo(sh, tx.txid, o as u32);
    let key = key_bytes(k);
    assert(tx.txid.len() == 32);
    let hm = apply_pairs(m, header_pairs(height, b, raw_size));
    lemma_apply_pairs_append(m, header_pairs(height, b, raw_size), txs_pairs(height, b, n));
    assert forall|j: int| i < j < n implies #[trigger] tx_skips(height, b, j, key) by {
        assert forall|idx: int| 0 <= idx < tx_pairs(height, b, j).len() implies (
        #[trigger] tx_pairs(height, b, j)[idx]).0 != key by {
            let kt = lemma_tx_pair_written(height, b, j, idx);
            if tx_pairs(height, b, j)[idx].0 == key {
                lemma_keys_injective(kt, k);
                assert(b.transactions[j].txid != tx.txid);
            }
        }
    }
    lemma_txs_from(hm, height, b, i, n, key);
    let tp = tx_pairs(height, b, i);
    let sp = spend_pairs(tx, i);
    let op = output_pairs(height, b, i, tx.outputs.len());
    let oi = lemma_output_has_utxo(height, b, i, tx.outputs.len(), o);
    assert(tp[3 + sp.len() + oi] == op[oi]);
    let at_i = apply_pairs(hm, txs_pairs(height, b, i as nat));
    let e = lemma_apply_pairs_source(at_i, tp, key, 3 + sp.len() + oi);
    lemma_utxo_pair_value(height, b, i, e, sh, tx.txid, o as u32);
}

/// Every input read by `inputs_from` names a 32-byte previous txid.
proof fn lemma_inputs_sized(s: Seq<u8>, p: int, n: nat)
    requires
        inputs_from(s, p, n) is Some,
    ensures
        forall|q: int|
            0 <= q < inputs_from(s, p, n).unwrap().0.len() ==> (#[trigger] inputs_from(
                s,
                p,
                n,
            ).unwrap().0[q]).prev_txid.len() == 32,
    decreases n,
{
    if n > 0 {
        lemma_inputs_sized(s, p, (n - 1) as nat);
    }
}

/// The inputs of a parsed transaction name 32-byte previous txids.
proof fn lemma_tx_inputs_sized(s: Seq<u8>)
    requires
        parse_tx_spec(s) is Some,
    ensures
        parse_tx_spec(s).unwrap().0.txid.len() == 32,
        forall|q: int|
            0 <= q < parse_tx_spec(s).unwrap().0.inputs.len() ==> (
            #[trigger] parse_tx_spec(s).unwrap().0.inputs[q]).prev_txid.len() == 32,
{
    let hw = s[4] == 0 && s[5] != 0;
    let p0: int = if hw { 6 } else { 4 };
    let (nin, c1) = compact_at(s, p0).unwrap();
    lemma_inputs_sized(s, p0 + c1, nin as nat);
}

/// The transactions read by `txs_from` carry 32-byte txids and previous txids.
proof fn lemma_txs_sized(s: Seq<u8>, p: int, n: nat)
    requires
        txs_from(s, p, n) is Some,
    ensures
        ({
            let txs = txs_from(s, p, n).unwrap().0;
            &&& forall|j: int| 0 <= j < txs.len() ==> (#[trigger] txs[j]).txid.len() == 32
            &&& forall|j: int, q: int|
                0 <= j < txs.len() && 0 <= q < txs[j].inputs.len() ==> (
                #[trigger] txs[j].inputs[q]).prev_txid.len() == 32
        }),
    decreases n,
{
    if n > 0 {
        lemma_txs_sized(s, p, (n - 1) as nat);
        let (prev, q) = txs_from(s, p, (n - 1) as nat).unwrap();
        lemma_tx_inputs_sized(s.subrange(q, s.len() as int));
        let txs = txs_from(s, p, n).unwrap().0;
        assert forall|j: int| 0 <= j < txs.len() - 1 implies txs[j] == prev[j] by {}
    }
}

/// A block that parses carries 32-byte hashes throughout.
pub proof fn lemma_parsed_block_sized(s: Seq<u8>)
    requires
        parse_block_spec(s) is Some,
    ensures
        block_hashes_sized(parse_block_spec(s).unwrap()),
{
    let (n, c) = compact_at(s, 80).unwrap();
    lemma_txs_sized(s, 80 + c, n as nat);
}

/// The transactions read by `txs_from` parse back from their raw bytes.
proof fn lemma_txs_reparse(s: Seq<u8>, p: int, n: nat)
    requires
        txs_from(s, p, n) is Some,
    ensures
        forall|j: int|
            0 <= j < txs_from(s, p, n).unwrap().0.len() ==> parse_tx_spec(
                (#[trigger] txs_from(s, p, n).unwrap().0[j]).raw,
            ) == Some((txs_from(s, p, n).unwrap().0[j], txs_from(s, p, n).unwrap().0[j].raw.len() as int)),
    decreases n,
{
    if n > 0 {
        lemma_txs_reparse(s, p, (n - 1) as nat);
        let (prev, q) = txs_from(s, p, (n - 1) as nat).unwrap();
        let sub = s.subrange(q, s.len() as int);
        lemma_reparse_raw(sub);
        lemma_parse_tx_within(sub);
        let txs = txs_from(s, p, n).unwrap().0;
        assert forall|j: int| 0 <= j < txs.len() - 1 implies txs[j] == prev[j] by {}
    }
}

/// After a parsed block is indexed, the transaction view answers for each of
/// its transactions that no later transaction of the block shares a txid
/// with: the display txid names the transaction, the view does not fail, and
/// it reads the indexed metadata and the transaction parsed back from the
/// indexed raw bytes.
pub proof fn lemma_index_tx_view(
    m: Map<Seq<u8>, SpecIndexValue>,
    height: u32,
    data: Seq<u8>,
    raw_size: u32,
    i: int,
)
    requires
        parse_block_spec(data) is Some,
        0 <= i < parse_block_spec(data).unwrap().transactions.len(),
        forall|j: int|
            i < j < parse_block_spec(data).unwrap().transactions.len() ==> (
            #[trigger] parse_block_spec(data).unwrap().transactions[j]).txid
                != parse_block_spec(data).unwrap().transactions[i].txid,
    ensures
        ({
            let b = parse_block_spec(data).unwrap();
            let tx = b.transactions[i];
            let s = apply_pairs(m, index_pairs(height, b, raw_size));
            let req = display_hash(tx.txid);
            &&& decode_hash_outcome(req) == Some(Some(tx.txid))
            &&& !tx_view_fails(s, req)
            &&& tx_meta_at(s, key_bytes(IndexKey::Tx(tx.txid))) == Some(tx_meta_spec(height, b, i))
            &&& parse_tx_spec(raw_or_empty(s, tx.txid)) == Some((tx, tx.raw.len() as int))
        }),
{
    let b = parse_block_spec(data).unwrap();
    let tx = b.transactions[i];
    lemma_parsed_block_sized(data);
    lemma_index_reads_tx(m, height, b, raw_size, i);
    assert(tx.txid.len() == 32);
    lemma_decode_display_hash(tx.txid);
    let (n, c) = compact_at(data, 80).unwrap();
    lemma_txs_reparse(data, 80 + c, n as nat);
}

} // verus!
