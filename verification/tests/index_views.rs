//! Tests for the block indexer and the views: index blocks into a store,
//! then read the records and call the views.

use esplorashrew::block::{
    encode_compact_size, hash256, parse_block, parse_transaction, script_hash, to_hex, to_hex_rev,
};
use esplorashrew::flush::{empty_flush_message, encode_flush};
use esplorashrew::keys::{
    address_key, address_tx_key, block_height_key, block_key, block_tx_count_key, block_txid_key,
    spend_key, tip_hash_key, tip_key, tx_key, tx_raw_key, utxo_key,
};
use esplorashrew::keys::{record_kind, RecordKind};
use esplorashrew::store::Store;
use esplorashrew::types::IndexValue;
use esplorashrew::views;
use esplorashrew::views::ViewError;
use esplorashrew::{index_block, split_block_input, try_index_block};

/// Build a minimal coinbase transaction.
fn build_coinbase_tx(height: u32, value_sats: u64) -> Vec<u8> {
    let mut tx = Vec::new();
    tx.extend_from_slice(&1i32.to_le_bytes());
    tx.push(1u8);
    tx.extend_from_slice(&[0u8; 32]);
    tx.extend_from_slice(&0xFFFFFFFFu32.to_le_bytes());
    let height_bytes = height.to_le_bytes();
    let sig_len = 4 + 1;
    tx.extend_from_slice(&encode_compact_size(sig_len as u64));
    tx.push(4u8);
    tx.extend_from_slice(&height_bytes);
    tx.extend_from_slice(&0xFFFFFFFFu32.to_le_bytes());
    tx.push(1u8);
    tx.extend_from_slice(&value_sats.to_le_bytes());
    tx.extend_from_slice(&encode_compact_size(1));
    tx.push(0x51);
    tx.extend_from_slice(&0u32.to_le_bytes());
    tx
}

/// Build a simple spending transaction.
fn build_spending_tx(
    prev_txid: &[u8; 32],
    prev_vout: u32,
    value_sats: u64,
    script_pubkey: &[u8],
) -> Vec<u8> {
    let mut tx = Vec::new();
    tx.extend_from_slice(&2i32.to_le_bytes());
    tx.push(1u8);
    tx.extend_from_slice(prev_txid);
    tx.extend_from_slice(&prev_vout.to_le_bytes());
    tx.push(0u8);
    tx.extend_from_slice(&0xFFFFFFFEu32.to_le_bytes());
    tx.push(1u8);
    tx.extend_from_slice(&value_sats.to_le_bytes());
    tx.extend_from_slice(&encode_compact_size(script_pubkey.len() as u64));
    tx.extend_from_slice(script_pubkey);
    tx.extend_from_slice(&0u32.to_le_bytes());
    tx
}

fn compute_merkle_root(hashes: &[[u8; 32]]) -> [u8; 32] {
    if hashes.is_empty() {
        return [0u8; 32];
    }
    if hashes.len() == 1 {
        return hashes[0];
    }
    let mut level = hashes.to_vec();
    while level.len() > 1 {
        let mut next = Vec::new();
        for i in (0..level.len()).step_by(2) {
            let left = &level[i];
            let right = if i + 1 < level.len() { &level[i + 1] } else { &level[i] };
            let mut combined = Vec::with_capacity(64);
            combined.extend_from_slice(left);
            combined.extend_from_slice(right);
            next.push(hash256(&combined));
        }
        level = next;
    }
    level[0]
}

/// Build a raw block from a header and a list of raw transactions.
fn build_raw_block(
    version: i32,
    prev_block: &[u8; 32],
    time: u32,
    bits: u32,
    nonce: u32,
    txs: &[Vec<u8>],
) -> Vec<u8> {
    let tx_hashes: Vec<[u8; 32]> = txs.iter().map(|tx| hash256(tx)).collect();
    let merkle_root = compute_merkle_root(&tx_hashes);
    let mut block = Vec::new();
    block.extend_from_slice(&version.to_le_bytes());
    block.extend_from_slice(prev_block);
    block.extend_from_slice(&merkle_root);
    block.extend_from_slice(&time.to_le_bytes());
    block.extend_from_slice(&bits.to_le_bytes());
    block.extend_from_slice(&nonce.to_le_bytes());
    block.extend_from_slice(&encode_compact_size(txs.len() as u64));
    for tx in txs {
        block.extend_from_slice(tx);
    }
    block
}

fn build_test_block(height: u32) -> Vec<u8> {
    let coinbase = build_coinbase_tx(height, 50_0000_0000);
    build_raw_block(0x20000000, &[0u8; 32], 1231006505 + height, 0x1d00ffff, 0, &[coinbase])
}

fn build_test_block_with_spend(
    height: u32,
    prev_block: &[u8; 32],
    prev_txid: &[u8; 32],
    prev_vout: u32,
    spend_value: u64,
    spend_script: &[u8],
) -> Vec<u8> {
    let coinbase = build_coinbase_tx(height, 50_0000_0000);
    let spend_tx = build_spending_tx(prev_txid, prev_vout, spend_value, spend_script);
    build_raw_block(0x20000000, prev_block, 1231006505 + height, 0x1d00ffff, 0, &[coinbase, spend_tx])
}

/// The bytes stored under `key`, where the key holds bytes.
fn cache_get(store: &Store, key: &[u8]) -> Option<Vec<u8>> {
    match store.get(key) {
        Some(IndexValue::Bytes(b)) => Some(b.clone()),
        _ => None,
    }
}

fn le_u32(b: &[u8]) -> u32 {
    u32::from_le_bytes([b[0], b[1], b[2], b[3]])
}

// ---- indexer ----

#[test]
fn test_index_single_block() {
    let mut store = Store::new();
    let block_data = build_test_block(0);
    index_block(&mut store, 0, &block_data);

    let tip = cache_get(&store, &tip_key()).unwrap();
    assert_eq!(le_u32(&tip), 0);

    let tip_hash = cache_get(&store, &tip_hash_key()).unwrap();
    assert_eq!(tip_hash.len(), 32);

    let parsed = parse_block(&block_data);
    let block_hash = parsed.header.hash;
    let meta = match store.get(&block_key(&block_hash)) {
        Some(IndexValue::Block(m)) => m.clone(),
        other => panic!("expected block metadata, got {:?}", other),
    };
    assert_eq!(meta.height, 0);
    assert_eq!(meta.tx_count, 1);
    assert_eq!(meta.version, 0x20000000);

    let hash_at_0 = cache_get(&store, &block_height_key(0)).unwrap();
    assert_eq!(hash_at_0, block_hash.to_vec());
}

#[test]
fn test_index_tx_metadata() {
    let mut store = Store::new();
    let block_data = build_test_block(42);
    index_block(&mut store, 42, &block_data);

    let parsed = parse_block(&block_data);
    let txid = parsed.transactions[0].txid;

    let meta = match store.get(&tx_key(&txid)) {
        Some(IndexValue::Tx(m)) => m.clone(),
        other => panic!("expected tx metadata, got {:?}", other),
    };
    assert_eq!(meta.block_height, 42);
    assert_eq!(meta.tx_index, 0);
    assert_eq!(meta.vin_count, 1);
    assert_eq!(meta.vout_count, 1);
}

#[test]
fn test_index_tx_raw() {
    let mut store = Store::new();
    let block_data = build_test_block(1);
    index_block(&mut store, 1, &block_data);

    let parsed = parse_block(&block_data);
    let txid = parsed.transactions[0].txid;

    let raw = cache_get(&store, &tx_raw_key(&txid)).unwrap();
    assert!(!raw.is_empty());
    let (reparsed, _) = parse_transaction(&raw);
    assert_eq!(reparsed.txid, txid);
}

#[test]
fn test_index_block_txids() {
    let mut store = Store::new();
    let block_data = build_test_block(0);
    index_block(&mut store, 0, &block_data);

    let parsed = parse_block(&block_data);
    let block_hash = parsed.header.hash;

    let count_bytes = cache_get(&store, &block_tx_count_key(&block_hash)).unwrap();
    assert_eq!(le_u32(&count_bytes), 1);

    let txid_bytes = cache_get(&store, &block_txid_key(&block_hash, 0)).unwrap();
    assert_eq!(txid_bytes.len(), 32);
    assert_eq!(txid_bytes, parsed.transactions[0].txid.to_vec());
}

#[test]
fn test_index_spending_creates_spend_record() {
    let mut store = Store::new();
    let block0 = build_test_block(0);
    index_block(&mut store, 0, &block0);

    let parsed0 = parse_block(&block0);
    let coinbase_txid = parsed0.transactions[0].txid;
    let block0_hash = parsed0.header.hash;

    let block1 =
        build_test_block_with_spend(1, &block0_hash, &coinbase_txid, 0, 49_0000_0000, &[0x51]);
    index_block(&mut store, 1, &block1);

    let spending_txid = cache_get(&store, &spend_key(&coinbase_txid, 0)).unwrap();
    assert_eq!(spending_txid.len(), 32);

    let parsed1 = parse_block(&block1);
    assert_eq!(spending_txid, parsed1.transactions[1].txid.to_vec());
}

#[test]
fn test_index_multiple_blocks_updates_tip() {
    let mut store = Store::new();
    let block0 = build_test_block(0);
    index_block(&mut store, 0, &block0);

    let parsed0 = parse_block(&block0);
    let block0_hash = parsed0.header.hash;

    let coinbase1 = build_coinbase_tx(1, 50_0000_0000);
    let block1 = build_raw_block(0x20000000, &block0_hash, 1231006506, 0x1d00ffff, 0, &[coinbase1]);
    index_block(&mut store, 1, &block1);

    let tip = cache_get(&store, &tip_key()).unwrap();
    assert_eq!(le_u32(&tip), 1);

    assert!(cache_get(&store, &block_height_key(0)).is_some());
    assert!(cache_get(&store, &block_height_key(1)).is_some());
}

#[test]
fn test_index_utxo_created() {
    let mut store = Store::new();
    let block_data = build_test_block(0);
    index_block(&mut store, 0, &block_data);

    let parsed = parse_block(&block_data);
    let txid = parsed.transactions[0].txid;
    let script = &parsed.transactions[0].outputs[0].script_pubkey;
    let sh = script_hash(script);

    let utxo = match store.get(&utxo_key(&sh, &txid, 0)) {
        Some(IndexValue::Utxo(u)) => u.clone(),
        other => panic!("expected a UTXO record, got {:?}", other),
    };
    assert_eq!(utxo.value, 50_0000_0000);
    assert_eq!(utxo.vout, 0);
    assert_eq!(utxo.block_height, 0);
}

#[test]
fn test_index_address_tx_mapping() {
    let mut store = Store::new();
    let block_data = build_test_block(5);
    index_block(&mut store, 5, &block_data);

    let parsed = parse_block(&block_data);
    let txid = parsed.transactions[0].txid;
    let script = &parsed.transactions[0].outputs[0].script_pubkey;
    let sh = script_hash(script);

    let addr_tx = cache_get(&store, &address_tx_key(&sh, 5, 0)).unwrap();
    assert_eq!(addr_tx.len(), 32);
    assert_eq!(addr_tx, txid.to_vec());
}

// ---- views ----

#[test]
fn test_tipheight_empty() {
    let store = Store::new();
    assert_eq!(views::tipheight(&store), "0");
}

#[test]
fn test_tipheight_after_indexing() {
    let mut store = Store::new();
    let block = build_test_block(0);
    index_block(&mut store, 0, &block);
    assert_eq!(views::tipheight(&store), "0");

    let parsed = parse_block(&block);
    let coinbase = build_coinbase_tx(1, 50_0000_0000);
    let block1 =
        build_raw_block(0x20000000, &parsed.header.hash, 1231006506, 0x1d00ffff, 0, &[coinbase]);
    index_block(&mut store, 1, &block1);
    assert_eq!(views::tipheight(&store), "1");
}

#[test]
fn test_tiphash_after_indexing() {
    let mut store = Store::new();
    let block = build_test_block(0);
    index_block(&mut store, 0, &block);
    let parsed = parse_block(&block);
    let expected_hash = to_hex_rev(&parsed.header.hash);
    assert_eq!(views::tiphash(&store), expected_hash);
}

#[test]
fn test_blockheight() {
    let mut store = Store::new();
    let block = build_test_block(0);
    index_block(&mut store, 0, &block);
    let parsed = parse_block(&block);
    let expected_hash = to_hex_rev(&parsed.header.hash);
    assert_eq!(views::blockheight(&store, "0"), expected_hash);
}

#[test]
fn test_blockheight_not_found() {
    let store = Store::new();
    assert_eq!(views::blockheight(&store, "999"), "block not found");
}

#[test]
fn test_block_view() {
    let mut store = Store::new();
    let block_data = build_test_block(0);
    index_block(&mut store, 0, &block_data);
    let parsed = parse_block(&block_data);
    let hash_hex = to_hex_rev(&parsed.header.hash);

    let meta = views::block(&store, &hash_hex).unwrap();
    assert_eq!(meta.height, 0);
    assert_eq!(meta.tx_count, 1);
    assert_eq!(meta.id, hash_hex);
}

#[test]
fn test_block_view_not_found() {
    let store = Store::new();
    let fake_hash = "00".repeat(32);
    let err = views::block(&store, &fake_hash).unwrap_err();
    assert_eq!(err, ViewError::BlockNotFound);
    assert_eq!(err.message(), "block not found");
}

#[test]
fn test_blockstatus() {
    let mut store = Store::new();
    let block_data = build_test_block(0);
    index_block(&mut store, 0, &block_data);
    let parsed = parse_block(&block_data);
    let hash_hex = to_hex_rev(&parsed.header.hash);

    let status = views::blockstatus(&store, &hash_hex).unwrap();
    assert!(status.in_best_chain);
    assert_eq!(status.height, 0);
    assert_eq!(status.next_best, None);
}

#[test]
fn test_blocktxids() {
    let mut store = Store::new();
    let block_data = build_test_block(0);
    index_block(&mut store, 0, &block_data);
    let parsed = parse_block(&block_data);
    let hash_hex = to_hex_rev(&parsed.header.hash);
    let expected_txid = to_hex_rev(&parsed.transactions[0].txid);

    let txids = views::blocktxids(&store, &hash_hex).unwrap();
    assert_eq!(txids.len(), 1);
    assert_eq!(txids[0], expected_txid);
}

#[test]
fn test_tx_view() {
    let mut store = Store::new();
    let block_data = build_test_block(10);
    index_block(&mut store, 10, &block_data);
    let parsed = parse_block(&block_data);
    let txid_hex = to_hex_rev(&parsed.transactions[0].txid);

    let view = views::tx(&store, &txid_hex).unwrap();
    assert_eq!(view.txid, txid_hex);
    assert_eq!(view.version, 1);
    assert!(view.status.confirmed);
    assert_eq!(view.status.block_height, Some(10));
    assert_eq!(view.vin.len(), 1);
    assert_eq!(view.vout.len(), 1);
    assert_eq!(view.vout[0].value, 50_0000_0000u64);
}

#[test]
fn test_tx_not_found() {
    let store = Store::new();
    let fake_txid = "ff".repeat(32);
    let err = views::tx(&store, &fake_txid).unwrap_err();
    assert_eq!(err, ViewError::TxNotFound);
    assert_eq!(err.message(), "tx not found");
}

#[test]
fn test_txhex() {
    let mut store = Store::new();
    let block_data = build_test_block(0);
    index_block(&mut store, 0, &block_data);
    let parsed = parse_block(&block_data);
    let txid_hex = to_hex_rev(&parsed.transactions[0].txid);

    let result = views::txhex(&store, &txid_hex);
    assert!(result.len() > 0);
    assert!(result.chars().all(|c| c.is_ascii_hexdigit()));
}

#[test]
fn test_txstatus_confirmed() {
    let mut store = Store::new();
    let block_data = build_test_block(7);
    index_block(&mut store, 7, &block_data);
    let parsed = parse_block(&block_data);
    let txid_hex = to_hex_rev(&parsed.transactions[0].txid);

    let status = views::txstatus(&store, &txid_hex).unwrap();
    assert!(status.confirmed);
    assert_eq!(status.block_height, Some(7));
}

#[test]
fn test_txstatus_not_found() {
    let store = Store::new();
    let fake_txid = "aa".repeat(32);
    let status = views::txstatus(&store, &fake_txid).unwrap();
    assert!(!status.confirmed);
}

#[test]
fn test_txoutspend_unspent() {
    let mut store = Store::new();
    let block_data = build_test_block(0);
    index_block(&mut store, 0, &block_data);
    let parsed = parse_block(&block_data);
    let txid_hex = to_hex_rev(&parsed.transactions[0].txid);

    let info = views::txoutspend(&store, &txid_hex, 0).unwrap();
    assert!(!info.spent);
}

#[test]
fn test_txoutspend_spent() {
    let mut store = Store::new();
    let block0 = build_test_block(0);
    index_block(&mut store, 0, &block0);
    let parsed0 = parse_block(&block0);
    let coinbase_txid = parsed0.transactions[0].txid;

    let block1 = build_test_block_with_spend(
        1,
        &parsed0.header.hash,
        &coinbase_txid,
        0,
        49_0000_0000,
        &[0x51],
    );
    index_block(&mut store, 1, &block1);

    let txid_hex = to_hex_rev(&coinbase_txid);
    let info = views::txoutspend(&store, &txid_hex, 0).unwrap();
    assert!(info.spent);
    assert!(info.txid.is_some());
}

#[test]
fn test_utxosbyscripthash_coinbase() {
    let mut store = Store::new();
    let block_data = build_test_block(0);
    index_block(&mut store, 0, &block_data);
    let parsed = parse_block(&block_data);

    let script_pubkey = &[0x51u8];
    let sh = script_hash(script_pubkey);
    let sh_hex = to_hex_rev(&sh);

    let utxos = views::utxosbyscripthash(&store, &sh_hex).expect("expected a list");
    assert_eq!(utxos.len(), 1, "expected 1 UTXO, got {}: {:?}", utxos.len(), utxos);
    assert_eq!(utxos[0].value, 50_0000_0000u64);
    assert_eq!(utxos[0].vout, 0);

    let expected_txid = to_hex_rev(&parsed.transactions[0].txid);
    assert_eq!(utxos[0].txid, expected_txid);
    assert_eq!(utxos[0].block_height, 0);
}

#[test]
fn test_utxosbyscripthash_spent() {
    let mut store = Store::new();
    let block0 = build_test_block(0);
    index_block(&mut store, 0, &block0);
    let parsed0 = parse_block(&block0);
    let coinbase_txid = parsed0.transactions[0].txid;

    let block1 = build_test_block_with_spend(
        1,
        &parsed0.header.hash,
        &coinbase_txid,
        0,
        49_0000_0000,
        &[0x51],
    );
    index_block(&mut store, 1, &block1);

    let sh = script_hash(&[0x51u8]);
    let sh_hex = to_hex_rev(&sh);
    let utxos = views::utxosbyscripthash(&store, &sh_hex).expect("expected a list");
    assert!(utxos.len() >= 2, "expected at least 2 UTXOs, got {}: {:?}", utxos.len(), utxos);

    let coinbase0_txid_hex = to_hex_rev(&coinbase_txid);
    for utxo in &utxos {
        assert_ne!(
            utxo.txid, coinbase0_txid_hex,
            "spent coinbase from block 0 should not appear in UTXO set"
        );
    }
}

#[test]
fn test_utxosbyscripthash_empty() {
    let mut store = Store::new();
    let block = build_test_block(0);
    index_block(&mut store, 0, &block);

    let sh = script_hash(&[
        0x00, 0x14, 0x01, 0x02, 0x03, 0x04, 0x05, 0x06, 0x07, 0x08, 0x09, 0x0a, 0x0b, 0x0c, 0x0d,
        0x0e, 0x0f, 0x10, 0x11, 0x12, 0x13, 0x14,
    ]);
    let sh_hex = to_hex_rev(&sh);
    let utxos = views::utxosbyscripthash(&store, &sh_hex).expect("expected a list");
    assert_eq!(utxos.len(), 0, "expected 0 UTXOs for unknown script");
}

#[test]
fn test_utxosbyscripthash_via_hex_encoded_input() {
    let mut store = Store::new();
    let block_data = build_test_block(0);
    index_block(&mut store, 0, &block_data);

    let script_pubkey = &[0x51u8];
    let sh = script_hash(script_pubkey);
    let sh_hex = to_hex_rev(&sh);

    let hex_encoded = to_hex(sh_hex.as_bytes());
    let decoded_bytes = (0..hex_encoded.len())
        .step_by(2)
        .map(|i| u8::from_str_radix(&hex_encoded[i..i + 2], 16).unwrap())
        .collect::<Vec<u8>>();
    let decoded_string = String::from_utf8(decoded_bytes).unwrap();
    assert_eq!(decoded_string, sh_hex, "hex roundtrip should preserve the script hash string");

    let utxos = views::utxosbyscripthash(&store, &decoded_string).expect("expected a list");
    assert_eq!(utxos.len(), 1, "expected 1 UTXO via hex-encoded path");
}

#[test]
fn test_utxosbyscripthash_p2tr_output() {
    let mut store = Store::new();
    let fake_pubkey = [0xabu8; 32];
    let mut p2tr_script = Vec::with_capacity(34);
    p2tr_script.push(0x51);
    p2tr_script.push(0x20);
    p2tr_script.extend_from_slice(&fake_pubkey);

    let _coinbase = build_spending_tx(&[0u8; 32], 0xFFFFFFFF, 50_0000_0000, &p2tr_script);

    let mut tx = Vec::new();
    tx.extend_from_slice(&1i32.to_le_bytes());
    tx.push(1u8);
    tx.extend_from_slice(&[0u8; 32]);
    tx.extend_from_slice(&0xFFFFFFFFu32.to_le_bytes());
    let height_bytes = 0u32.to_le_bytes();
    tx.push(5u8);
    tx.push(4u8);
    tx.extend_from_slice(&height_bytes);
    tx.extend_from_slice(&0xFFFFFFFFu32.to_le_bytes());
    tx.push(1u8);
    tx.extend_from_slice(&50_0000_0000u64.to_le_bytes());
    tx.push(p2tr_script.len() as u8);
    tx.extend_from_slice(&p2tr_script);
    tx.extend_from_slice(&0u32.to_le_bytes());

    let block = build_raw_block(0x20000000, &[0u8; 32], 1231006505, 0x1d00ffff, 0, &[tx]);
    index_block(&mut store, 0, &block);

    let sh = script_hash(&p2tr_script);
    let sh_hex = to_hex_rev(&sh);
    println!("P2TR script: {}", to_hex(&p2tr_script));
    println!("Script hash (raw): {}", to_hex(&sh));
    println!("Script hash (reversed hex for query): {}", sh_hex);

    let utxos = views::utxosbyscripthash(&store, &sh_hex).expect("expected a list");
    assert_eq!(utxos.len(), 1, "expected 1 UTXO for P2TR address, got: {:?}", utxos);
    assert_eq!(utxos[0].value, 50_0000_0000u64);
}

#[test]
fn test_end_to_end_two_blocks() {
    let mut store = Store::new();
    let block0 = build_test_block(0);
    index_block(&mut store, 0, &block0);
    let parsed0 = parse_block(&block0);

    let coinbase1 = build_coinbase_tx(1, 50_0000_0000);
    let block1 = build_raw_block(0x20000000, &parsed0.header.hash, 1231006506, 0x1d00ffff, 1, &[coinbase1]);
    index_block(&mut store, 1, &block1);
    let parsed1 = parse_block(&block1);

    assert_eq!(views::tipheight(&store), "1");
    assert_eq!(views::tiphash(&store), to_hex_rev(&parsed1.header.hash));

    let hash0 = views::blockheight(&store, "0");
    assert_eq!(hash0, to_hex_rev(&parsed0.header.hash));
    let hash1 = views::blockheight(&store, "1");
    assert_eq!(hash1, to_hex_rev(&parsed1.header.hash));

    assert_eq!(views::block(&store, &hash0).unwrap().height, 0);
    assert_eq!(views::block(&store, &hash1).unwrap().height, 1);

    let status0 = views::blockstatus(&store, &hash0).unwrap();
    assert_eq!(status0.next_best, Some(hash1.clone()));

    let txid0 = to_hex_rev(&parsed0.transactions[0].txid);
    assert_eq!(views::tx(&store, &txid0).unwrap().status.block_height, Some(0));
    let txid1 = to_hex_rev(&parsed1.transactions[0].txid);
    assert_eq!(views::tx(&store, &txid1).unwrap().status.block_height, Some(1));
}

// ---- further cases ----

#[test]
fn test_reads_after_two_tx_block() {
    let mut store = Store::new();
    let block = build_test_block_with_spend(9, &[3u8; 32], &[0x42u8; 32], 2, 1234, &[0x51, 0x52]);
    index_block(&mut store, 9, &block);
    let parsed = parse_block(&block);
    let hash = parsed.header.hash;
    assert_eq!(le_u32(&cache_get(&store, &block_tx_count_key(&hash)).unwrap()), 2);
    for (i, tx) in parsed.transactions.iter().enumerate() {
        assert_eq!(cache_get(&store, &block_txid_key(&hash, i as u32)).unwrap(), tx.txid.to_vec());
        assert_eq!(cache_get(&store, &tx_raw_key(&tx.txid)).unwrap(), tx.raw);
        match store.get(&tx_key(&tx.txid)) {
            Some(IndexValue::Tx(meta)) => {
                assert_eq!(meta.tx_index, i as u32);
                assert_eq!(meta.block_height, 9);
                assert_eq!(meta.block_hash, to_hex_rev(&hash));
                assert_eq!(meta.fee, 0);
                assert_eq!(meta.size, tx.size);
                assert_eq!(meta.weight, tx.weight);
            }
            other => panic!("expected tx metadata, got {:?}", other),
        }
    }
    // The spending record names the second transaction.
    assert_eq!(
        cache_get(&store, &spend_key(&[0x42u8; 32], 2)).unwrap(),
        parsed.transactions[1].txid.to_vec()
    );
    // The coinbase writes no spending record.
    assert!(store.get(&spend_key(&[0u8; 32], 0xFFFFFFFF)).is_none());
    // Block metadata.
    match store.get(&block_key(&hash)) {
        Some(IndexValue::Block(meta)) => {
            assert_eq!(meta.size as usize, block.len());
            assert_eq!(meta.weight, parsed.transactions[0].weight + parsed.transactions[1].weight);
            assert_eq!(meta.previousblockhash, to_hex_rev(&[3u8; 32]));
            assert_eq!(meta.merkle_root, to_hex_rev(&parsed.header.merkle_root));
            assert_eq!(meta.timestamp, 1231006505 + 9);
            assert_eq!(meta.bits, 0x1d00ffff);
            assert_eq!(meta.nonce, 0);
        }
        other => panic!("expected block metadata, got {:?}", other),
    }
    // Nothing is written under the address key.
    let sh = script_hash(&[0x51, 0x52]);
    assert!(store.get(&address_key(&sh)).is_none());
    assert!(store.get(&address_tx_key(&sh, 9, 1)).is_some());
}

#[test]
fn test_output_without_script_is_not_recorded() {
    let mut store = Store::new();
    let spend = build_spending_tx(&[0x10u8; 32], 0, 77, &[]);
    let coinbase = build_coinbase_tx(4, 50);
    let block = build_raw_block(1, &[0u8; 32], 5, 6, 7, &[coinbase, spend]);
    index_block(&mut store, 4, &block);
    let parsed = parse_block(&block);
    let txid = parsed.transactions[1].txid;
    let sh = script_hash(&[]);
    assert!(store.get(&utxo_key(&sh, &txid, 0)).is_none());
    assert!(store.get(&address_tx_key(&sh, 4, 1)).is_none());
}

#[test]
fn test_try_index_block_rejects_bad_block() {
    let mut store = Store::new();
    let block = build_test_block(0);
    assert!(!try_index_block(&mut store, 0, &block[..block.len() - 1]));
    assert!(store.keys().is_empty());
    assert!(try_index_block(&mut store, 0, &block));
    assert_eq!(views::tipheight(&store), "0");
}

#[test]
fn test_split_block_input() {
    let mut input = 7u32.to_le_bytes().to_vec();
    input.extend_from_slice(&[1, 2, 3]);
    let (height, data) = split_block_input(&input).unwrap();
    assert_eq!(height, 7);
    assert_eq!(data, &[1, 2, 3]);
    assert!(split_block_input(&[1, 2, 3]).is_none());
    let (h, rest) = split_block_input(&[0xff, 0xff, 0xff, 0xff]).unwrap();
    assert_eq!(h, u32::MAX);
    assert!(rest.is_empty());
}

#[test]
fn test_flush_encoding() {
    let pairs = vec![(vec![0x41u8], vec![0x01u8, 0x02]), (vec![], vec![0xffu8])];
    let buf = encode_flush(&pairs);
    // Field 1, wire type 2: tag byte 0x0a, then length, then the bytes.
    assert_eq!(buf, vec![0x0a, 1, 0x41, 0x0a, 2, 1, 2, 0x0a, 0, 0x0a, 1, 0xff]);
    assert!(empty_flush_message().is_empty());
    // A 200-byte value takes a two-byte length.
    let long = vec![(vec![1u8], vec![9u8; 200])];
    let buf = encode_flush(&long);
    assert_eq!(&buf[..6], &[0x0a, 1, 1, 0x0a, 0xc8, 0x01]);
    assert_eq!(buf.len(), 6 + 200);
}

#[test]
fn test_decode_hash_edge_cases() {
    let h = [0x5au8; 32];
    let mut bytes = [0u8; 32];
    for (i, b) in bytes.iter_mut().enumerate() {
        *b = i as u8;
    }
    let shown = to_hex_rev(&bytes);
    assert_eq!(views::decode_hash(&shown), Some(bytes));
    // Upper case and surrounding whitespace are accepted.
    assert_eq!(views::decode_hash(&format!("  {}\n", "5A".repeat(32))), Some(h));
    // Wrong length or bad digits.
    assert_eq!(views::decode_hash(&"5a".repeat(31)), None);
    assert_eq!(views::decode_hash(&"zz".repeat(32)), None);
    // A pair "+f" reads as 0x0f.
    let mut plus = "+f".to_string();
    plus.push_str(&"00".repeat(31));
    let mut expected = [0u8; 32];
    expected[31] = 0x0f;
    assert_eq!(views::decode_hash(&plus), Some(expected));
    // A pair starting with '-' is rejected.
    let mut minus = "-1".to_string();
    minus.push_str(&"00".repeat(31));
    assert_eq!(views::decode_hash(&minus), None);
    // 64 bytes that split a character would panic; the checked form says so.
    let mut split = "0é".to_string();
    split.push_str(&"0".repeat(61));
    assert_eq!(split.len(), 64);
    assert_eq!(views::decode_hash_checked(&split), None);
    assert_eq!(views::decode_hash_checked(&shown), Some(Some(bytes)));
    assert_eq!(views::decode_hash_checked("00"), Some(None));
}

#[test]
fn test_view_errors() {
    let store = Store::new();
    assert_eq!(views::blockheight(&store, "abc"), "invalid height");
    assert_eq!(views::blockheight(&store, "4294967296"), "invalid height");
    assert_eq!(views::block(&store, "xyz").unwrap_err(), ViewError::InvalidBlockHash);
    assert_eq!(views::blockstatus(&store, "xyz").unwrap_err(), ViewError::InvalidBlockHash);
    assert_eq!(views::blockstatus(&store, &"00".repeat(32)).unwrap_err(), ViewError::BlockNotFound);
    assert_eq!(views::blocktxids(&store, "xyz").unwrap_err(), ViewError::InvalidBlockHash);
    assert!(views::blocktxids(&store, &"00".repeat(32)).unwrap().is_empty());
    assert_eq!(views::tx(&store, "xyz").unwrap_err(), ViewError::InvalidTxid);
    assert_eq!(views::txhex(&store, "xyz"), "invalid txid");
    assert_eq!(views::txhex(&store, &"00".repeat(32)), "tx not found");
    assert_eq!(views::txraw(&store, "xyz"), b"invalid txid".to_vec());
    assert_eq!(views::txraw(&store, &"00".repeat(32)), b"tx not found".to_vec());
    assert_eq!(views::txstatus(&store, "xyz").unwrap_err(), ViewError::InvalidTxid);
    assert_eq!(views::txoutspend(&store, "xyz", 0).unwrap_err(), ViewError::InvalidTxid);
    assert_eq!(views::utxosbyscripthash(&store, "xyz").unwrap_err(), ViewError::InvalidScriptHash);
    assert_eq!(views::tiphash(&store), "");
    assert_eq!(ViewError::InvalidTxid.message(), "invalid txid");
    assert_eq!(ViewError::CorruptTxMetadata.message(), "corrupt tx metadata");
    assert_eq!(ViewError::InvalidBlockHash.message(), "invalid block hash");
    assert_eq!(ViewError::CorruptBlockMetadata.message(), "corrupt block metadata");
    assert_eq!(ViewError::CorruptBlock.message(), "corrupt block");
    assert_eq!(ViewError::InvalidScriptHash.message(), "invalid script hash");
}

#[test]
fn test_corrupt_records() {
    let mut store = Store::new();
    let hash = [0x33u8; 32];
    store.set(block_key(&hash), IndexValue::Bytes(vec![1, 2, 3]));
    store.set(tx_key(&hash), IndexValue::Bytes(vec![]));
    let shown = to_hex_rev(&hash);
    assert_eq!(views::block(&store, &shown).unwrap_err(), ViewError::CorruptBlockMetadata);
    assert_eq!(views::blockstatus(&store, &shown).unwrap_err(), ViewError::CorruptBlock);
    assert_eq!(views::tx(&store, &shown).unwrap_err(), ViewError::CorruptTxMetadata);
    assert!(!views::txstatus(&store, &shown).unwrap().confirmed);
    // A short stored hash reads as all zeros.
    store.set(block_height_key(3), IndexValue::Bytes(vec![1, 2]));
    assert_eq!(views::blockheight(&store, " 3 "), "00".repeat(32));
    assert_eq!(views::blockheight(&store, "+3"), "00".repeat(32));
}

#[test]
fn test_txoutspend_status_of_spender() {
    let mut store = Store::new();
    let block0 = build_test_block(0);
    index_block(&mut store, 0, &block0);
    let parsed0 = parse_block(&block0);
    let coinbase_txid = parsed0.transactions[0].txid;
    let block1 =
        build_test_block_with_spend(1, &parsed0.header.hash, &coinbase_txid, 0, 5, &[0x51]);
    index_block(&mut store, 1, &block1);
    let parsed1 = parse_block(&block1);
    let info = views::txoutspend(&store, &to_hex_rev(&coinbase_txid), 0).unwrap();
    assert_eq!(info.txid, Some(to_hex_rev(&parsed1.transactions[1].txid)));
    let status = info.status.unwrap();
    assert!(status.confirmed);
    assert_eq!(status.block_height, Some(1));
    assert_eq!(status.block_hash, Some(to_hex_rev(&parsed1.header.hash)));
    assert_eq!(info.vin, None);
    // Another output of the same transaction is unspent.
    assert!(!views::txoutspend(&store, &to_hex_rev(&coinbase_txid), 1).unwrap().spent);
}

#[test]
fn test_tx_view_fields() {
    let mut store = Store::new();
    let block = build_test_block_with_spend(3, &[0u8; 32], &[0x42u8; 32], 6, 999, &[0x51, 0x00]);
    index_block(&mut store, 3, &block);
    let parsed = parse_block(&block);
    let tx = &parsed.transactions[1];
    let view = views::tx(&store, &format!(" {} ", to_hex_rev(&tx.txid))).unwrap();
    assert_eq!(view.txid, to_hex_rev(&tx.txid));
    assert_eq!(view.version, 2);
    assert_eq!(view.locktime, 0);
    assert_eq!(view.size, tx.size);
    assert_eq!(view.weight, tx.weight);
    assert_eq!(view.fee, 0);
    assert_eq!(view.vin[0].txid, to_hex_rev(&[0x42u8; 32]));
    assert_eq!(view.vin[0].vout, 6);
    assert_eq!(view.vin[0].scriptsig, "");
    assert_eq!(view.vin[0].sequence, 0xFFFFFFFE);
    assert!(view.vin[0].witness.is_empty());
    assert_eq!(view.vout[0].scriptpubkey, "5100");
    assert_eq!(view.vout[0].value, 999);
    assert_eq!(view.status.block_hash, Some(to_hex_rev(&parsed.header.hash)));
    assert_eq!(views::txhex(&store, &to_hex_rev(&tx.txid)), to_hex(&tx.raw));
    assert_eq!(views::txraw(&store, &to_hex_rev(&tx.txid)), tx.raw);
}

#[test]
fn test_input_string_and_header_view() {
    let mut data = vec![0u8, 0, 0, 0];
    data.extend_from_slice(b"abc");
    assert_eq!(views::input_string(&data), "abc");
    // Without more than the prefix, the input is taken whole.
    assert_eq!(views::input_string(b"ab"), "ab");
    // Invalid UTF-8 is replaced.
    let bad = vec![1u8, 2, 3, 4, 0x61, 0xff, 0x62];
    assert_eq!(views::input_string(&bad), "a\u{fffd}b");
    assert_eq!(views::blockheader(" some text "), " some text ");
    assert_eq!(views::u32_to_decimal(0), "0");
    assert_eq!(views::u32_to_decimal(4294967295), "4294967295");
}

#[test]
fn test_store_last_write_wins() {
    let mut store = Store::new();
    store.set(vec![1, 2], IndexValue::Bytes(vec![1]));
    store.set(vec![3], IndexValue::Bytes(vec![2]));
    store.flush(vec![(vec![1, 2], IndexValue::Bytes(vec![9])), (vec![4], IndexValue::Bytes(vec![]))]);
    match store.get(&[1, 2]) {
        Some(IndexValue::Bytes(b)) => assert_eq!(b, &vec![9]),
        other => panic!("unexpected {:?}", other),
    }
    assert!(store.get(&[5]).is_none());
    let mut keys = store.keys();
    keys.sort();
    assert_eq!(keys, vec![vec![1, 2], vec![3], vec![4]]);
}

#[test]
fn test_key_bytes() {
    let h = [7u8; 32];
    let mut expected = vec![b'T'];
    expected.extend_from_slice(&h);
    assert_eq!(tx_key(&h), expected);
    assert_eq!(tx_raw_key(&h)[0], b'R');
    assert_eq!(block_key(&h)[0], b'B');
    assert_eq!(block_height_key(0x01020304), vec![b'H', 1, 2, 3, 4]);
    let k = block_txid_key(&h, 5);
    assert_eq!(k.len(), 37);
    assert_eq!(k[0], b'I');
    assert_eq!(&k[33..], &[0, 0, 0, 5]);
    assert_eq!(block_tx_count_key(&h)[0], b'C');
    assert_eq!(address_key(&h)[0], b'A');
    let k = address_tx_key(&h, 0x0a0b0c0d, 0x0102);
    assert_eq!(k.len(), 39);
    assert_eq!(k[0], b'a');
    assert_eq!(&k[33..], &[0x0a, 0x0b, 0x0c, 0x0d, 0x01, 0x02]);
    let k = utxo_key(&h, &[8u8; 32], 1);
    assert_eq!(k.len(), 69);
    assert_eq!(k[0], b'U');
    assert_eq!(&k[1..33], &h);
    assert_eq!(&k[33..65], &[8u8; 32]);
    assert_eq!(&k[65..], &[0, 0, 0, 1]);
    assert_eq!(spend_key(&h, 0xffffffff)[33..], [0xff, 0xff, 0xff, 0xff]);
    assert_eq!(tip_key(), b"__TIP__".to_vec());
    assert_eq!(tip_hash_key(), b"__TIP_HASH__".to_vec());
}

#[test]
fn test_address_stats_default() {
    let s = esplorashrew::types::AddressStats::default();
    assert_eq!(s.tx_count, 0);
    assert_eq!(s.funded_txo_count, 0);
    assert_eq!(s.funded_txo_sum, 0);
    assert_eq!(s.spent_txo_count, 0);
    assert_eq!(s.spent_txo_sum, 0);
}

#[test]
fn test_hash256_matches_parse() {
    let raw = build_coinbase_tx(11, 3);
    assert_eq!(parse_transaction(&raw).0.txid, hash256(&raw));
    assert_eq!(encode_compact_size(3), vec![3]);
}

#[test]
fn test_outspend_request() {
    let txid = "ab".repeat(32);
    let req = format!("{{\"txid\": \"{}\", \"vout\": 3}}", txid);
    assert_eq!(views::outspend_request(&req), Some((txid.clone(), 3)));
    // Missing or mistyped members take their defaults; vout is truncated.
    assert_eq!(views::outspend_request("{}"), Some((String::new(), 0)));
    assert_eq!(
        views::outspend_request("{\"txid\": 5, \"vout\": \"x\"}"),
        Some((String::new(), 0))
    );
    assert_eq!(
        views::outspend_request("{\"vout\": 4294967297}"),
        Some((String::new(), 1))
    );
    assert_eq!(views::outspend_request("[1, 2]"), Some((String::new(), 0)));
    assert_eq!(views::outspend_request("not json"), None);
}

#[test]
fn test_record_kind() {
    let h = [1u8; 32];
    assert_eq!(record_kind(&block_key(&h)), RecordKind::Block);
    assert_eq!(record_kind(&tx_key(&h)), RecordKind::Tx);
    assert_eq!(record_kind(&utxo_key(&h, &h, 0)), RecordKind::Utxo);
    assert_eq!(record_kind(&tx_raw_key(&h)), RecordKind::Bytes);
    assert_eq!(record_kind(&block_tx_count_key(&h)), RecordKind::Bytes);
    assert_eq!(record_kind(&tip_key()), RecordKind::Bytes);
    assert_eq!(record_kind(&[]), RecordKind::Bytes);
}

#[test]
fn test_key_order() {
    let h = [9u8; 32];
    assert!(block_height_key(255) < block_height_key(256));
    assert!(block_height_key(0x0100_0000) > block_height_key(0x00ff_ffff));
    assert!(block_txid_key(&h, 1) < block_txid_key(&h, 0x100));
    assert!(address_tx_key(&h, 1, 0xffff) < address_tx_key(&h, 2, 0));
    assert!(address_tx_key(&h, 2, 1) < address_tx_key(&h, 2, 0x100));
}

#[test]
fn test_block_pairs() {
    let block = build_test_block(2);
    let pairs = esplorashrew::block_pairs(2, &block).unwrap();
    // Five records for the block and the tip, three for the coinbase, two for its output.
    assert_eq!(pairs.len(), 10);
    assert_eq!(pairs[3].0, tip_key());
    assert!(esplorashrew::block_pairs(2, &block[..block.len() - 1]).is_none());
}
