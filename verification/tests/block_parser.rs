//! Tests for the block/transaction parser, hashing, hex and compact sizes.

use esplorashrew::block::{
    encode_compact_size, hash256, parse_block, parse_header, parse_transaction, read_compact_size,
    script_hash, to_hex, to_hex_rev, try_parse_block, try_parse_transaction, try_read_compact_size,
};

/// Build a minimal coinbase transaction.
fn build_coinbase_tx(height: u32, value_sats: u64) -> Vec<u8> {
    let mut tx = Vec::new();
    tx.extend_from_slice(&1i32.to_le_bytes());
    tx.push(1u8);
    tx.extend_from_slice(&[0u8; 32]);
    tx.extend_from_slice(&0xFFFFFFFFu32.to_le_bytes());
    let height_bytes = height.to_le_bytes();
    let sig_len = 4 + 1;
    tx.extend_from_slice(&encode_compact_size(sig_len as u64));
    tx.push(4u8);
    tx.extend_from_slice(&height_bytes);
    tx.extend_from_slice(&0xFFFFFFFFu32.to_le_bytes());
    tx.push(1u8);
    tx.extend_from_slice(&value_sats.to_le_bytes());
    tx.extend_from_slice(&encode_compact_size(1));
    tx.push(0x51);
    tx.extend_from_slice(&0u32.to_le_bytes());
    tx
}

/// Build a simple spending transaction.
fn build_spending_tx(
    prev_txid: &[u8; 32],
    prev_vout: u32,
    value_sats: u64,
    script_pubkey: &[u8],
) -> Vec<u8> {
    let mut tx = Vec::new();
    tx.extend_from_slice(&2i32.to_le_bytes());
    tx.push(1u8);
    tx.extend_from_slice(prev_txid);
    tx.extend_from_slice(&prev_vout.to_le_bytes());
    tx.push(0u8);
    tx.extend_from_slice(&0xFFFFFFFEu32.to_le_bytes());
    tx.push(1u8);
    tx.extend_from_slice(&value_sats.to_le_bytes());
    tx.extend_from_slice(&encode_compact_size(script_pubkey.len() as u64));
    tx.extend_from_slice(script_pubkey);
    tx.extend_from_slice(&0u32.to_le_bytes());
    tx
}

fn compute_merkle_root(hashes: &[[u8; 32]]) -> [u8; 32] {
    if hashes.is_empty() {
        return [0u8; 32];
    }
    if hashes.len() == 1 {
        return hashes[0];
    }
    let mut level = hashes.to_vec();
    while level.len() > 1 {
        let mut next = Vec::new();
        for i in (0..level.len()).step_by(2) {
            let left = &level[i];
            let right = if i + 1 < level.len() { &level[i + 1] } else { &level[i] };
            let mut combined = Vec::with_capacity(64);
            combined.extend_from_slice(left);
            combined.extend_from_slice(right);
            next.push(hash256(&combined));
        }
        level = next;
    }
    level[0]
}

/// Build a raw block from a header and a list of raw transactions.
fn build_raw_block(
    version: i32,
    prev_block: &[u8; 32],
    time: u32,
    bits: u32,
    nonce: u32,
    txs: &[Vec<u8>],
) -> Vec<u8> {
    let tx_hashes: Vec<[u8; 32]> = txs.iter().map(|tx| hash256(tx)).collect();
    let merkle_root = compute_merkle_root(&tx_hashes);
    let mut block = Vec::new();
    block.extend_from_slice(&version.to_le_bytes());
    block.extend_from_slice(prev_block);
    block.extend_from_slice(&merkle_root);
    block.extend_from_slice(&time.to_le_bytes());
    block.extend_from_slice(&bits.to_le_bytes());
    block.extend_from_slice(&nonce.to_le_bytes());
    block.extend_from_slice(&encode_compact_size(txs.len() as u64));
    for tx in txs {
        block.extend_from_slice(tx);
    }
    block
}

fn build_test_block(height: u32) -> Vec<u8> {
    let coinbase = build_coinbase_tx(height, 50_0000_0000);
    build_raw_block(0x20000000, &[0u8; 32], 1231006505 + height, 0x1d00ffff, 0, &[coinbase])
}

fn build_test_block_with_spend(
    height: u32,
    prev_block: &[u8; 32],
    prev_txid: &[u8; 32],
    prev_vout: u32,
    spend_value: u64,
    spend_script: &[u8],
) -> Vec<u8> {
    let coinbase = build_coinbase_tx(height, 50_0000_0000);
    let spend_tx = build_spending_tx(prev_txid, prev_vout, spend_value, spend_script);
    build_raw_block(0x20000000, prev_block, 1231006505 + height, 0x1d00ffff, 0, &[coinbase, spend_tx])
}

/// A segwit transaction: one input with a two-item witness, one output.
fn build_segwit_tx() -> Vec<u8> {
    let mut tx = Vec::new();
    tx.extend_from_slice(&2i32.to_le_bytes());
    tx.push(0x00); // marker
    tx.push(0x01); // flag
    tx.push(1u8);
    tx.extend_from_slice(&[0x11u8; 32]);
    tx.extend_from_slice(&3u32.to_le_bytes());
    tx.push(0u8);
    tx.extend_from_slice(&0xFFFFFFFDu32.to_le_bytes());
    tx.push(1u8);
    tx.extend_from_slice(&1000u64.to_le_bytes());
    tx.push(2u8);
    tx.extend_from_slice(&[0x00, 0x14]);
    // witness: 2 items
    tx.push(2u8);
    tx.push(3u8);
    tx.extend_from_slice(&[0xaa, 0xbb, 0xcc]);
    tx.push(1u8);
    tx.push(0xdd);
    tx.extend_from_slice(&7u32.to_le_bytes());
    tx
}

#[test]
fn test_parse_coinbase_tx() {
    let raw = build_coinbase_tx(100, 50_0000_0000);
    let (tx, consumed) = parse_transaction(&raw);
    assert_eq!(consumed, raw.len());
    assert_eq!(tx.version, 1);
    assert_eq!(tx.inputs.len(), 1);
    assert_eq!(tx.outputs.len(), 1);
    assert_eq!(tx.outputs[0].value, 50_0000_0000);
    assert_eq!(tx.outputs[0].script_pubkey, vec![0x51]);
    assert_eq!(tx.locktime, 0);
    assert_eq!(tx.inputs[0].prev_txid, [0u8; 32]);
    assert_eq!(tx.inputs[0].prev_vout, 0xFFFFFFFF);
}

#[test]
fn test_parse_spending_tx() {
    let prev_txid = [0xABu8; 32];
    let script = vec![0x76, 0xa9, 0x14];
    let raw = build_spending_tx(&prev_txid, 0, 49_0000_0000, &script);
    let (tx, consumed) = parse_transaction(&raw);
    assert_eq!(consumed, raw.len());
    assert_eq!(tx.version, 2);
    assert_eq!(tx.inputs.len(), 1);
    assert_eq!(tx.inputs[0].prev_txid, prev_txid);
    assert_eq!(tx.inputs[0].prev_vout, 0);
    assert_eq!(tx.outputs.len(), 1);
    assert_eq!(tx.outputs[0].value, 49_0000_0000);
    assert_eq!(tx.outputs[0].script_pubkey, script);
}

#[test]
fn test_txid_is_hash256() {
    let raw = build_coinbase_tx(1, 50_0000_0000);
    let (tx, _) = parse_transaction(&raw);
    let expected = hash256(&raw);
    assert_eq!(tx.txid, expected);
}

#[test]
fn test_different_heights_different_txids() {
    let raw1 = build_coinbase_tx(1, 50_0000_0000);
    let raw2 = build_coinbase_tx(2, 50_0000_0000);
    let (tx1, _) = parse_transaction(&raw1);
    let (tx2, _) = parse_transaction(&raw2);
    assert_ne!(tx1.txid, tx2.txid);
}

#[test]
fn test_parse_block_header() {
    let block_data = build_test_block(0);
    let header = parse_header(&block_data);
    assert_eq!(header.version, 0x20000000);
    assert_eq!(header.prev_block, [0u8; 32]);
    assert_eq!(header.time, 1231006505);
    assert_eq!(header.bits, 0x1d00ffff);
    assert_eq!(header.nonce, 0);
    assert_ne!(header.hash, [0u8; 32]);
}

#[test]
fn test_parse_block_one_tx() {
    let block_data = build_test_block(0);
    let block = parse_block(&block_data);
    assert_eq!(block.transactions.len(), 1);
    assert_eq!(block.header.version, 0x20000000);
    assert_eq!(block.raw_header.len(), 80);
}

#[test]
fn test_parse_block_two_txs() {
    let prev_txid = [0x42u8; 32];
    let block_data =
        build_test_block_with_spend(1, &[0u8; 32], &prev_txid, 0, 49_0000_0000, &[0x51]);
    let block = parse_block(&block_data);
    assert_eq!(block.transactions.len(), 2);
    assert_eq!(block.transactions[0].inputs[0].prev_txid, [0u8; 32]);
    assert_eq!(block.transactions[1].inputs[0].prev_txid, prev_txid);
}

#[test]
fn test_hash256() {
    let empty_hash = hash256(b"");
    assert_ne!(empty_hash, [0u8; 32]);
    assert_eq!(empty_hash, hash256(b""));
}

#[test]
fn test_to_hex_and_rev() {
    let bytes = [0xAB, 0xCD, 0xEF];
    assert_eq!(to_hex(&bytes), "abcdef");
    assert_eq!(to_hex_rev(&bytes), "efcdab");
}

#[test]
fn test_script_hash() {
    let script = vec![0x51];
    let sh = script_hash(&script);
    assert_ne!(sh, [0u8; 32]);
    assert_eq!(sh, script_hash(&script));
    assert_ne!(sh, script_hash(&[0x00]));
}

#[test]
fn test_compact_size_roundtrip() {
    for n in [0u64, 1, 252, 253, 0xFFFF, 0x10000, 0xFFFFFFFF] {
        let encoded = encode_compact_size(n);
        let (decoded, consumed) = read_compact_size(&encoded);
        assert_eq!(decoded, n);
        assert_eq!(consumed, encoded.len());
    }
}

#[test]
fn test_tx_weight_nonwitness() {
    let raw = build_coinbase_tx(0, 50_0000_0000);
    let (tx, _) = parse_transaction(&raw);
    assert_eq!(tx.weight, tx.size * 4);
}

// ---- further cases ----

#[test]
fn test_hash256_known_value() {
    // SHA-256(SHA-256("")) is 5df6e0e2761359d30a8275058e299fcc0381534545f55cf43e41983f5d4c9456.
    assert_eq!(
        to_hex(&hash256(b"")),
        "5df6e0e2761359d30a8275058e299fcc0381534545f55cf43e41983f5d4c9456"
    );
}

#[test]
fn test_script_hash_known_value() {
    // SHA-256("abc").
    assert_eq!(
        to_hex(&script_hash(b"abc")),
        "ba7816bf8f01cfea414140de5dae2223b00361a396177a9cb410ff61f20015ad"
    );
}

#[test]
fn test_compact_size_encodings() {
    assert_eq!(encode_compact_size(0xfc), vec![0xfc]);
    assert_eq!(encode_compact_size(0xfd), vec![0xfd, 0xfd, 0x00]);
    assert_eq!(encode_compact_size(0xffff), vec![0xfd, 0xff, 0xff]);
    assert_eq!(encode_compact_size(0x10000), vec![0xfe, 0x00, 0x00, 0x01, 0x00]);
    assert_eq!(
        encode_compact_size(0x1_0000_0000),
        vec![0xff, 0x00, 0x00, 0x00, 0x00, 0x01, 0x00, 0x00, 0x00]
    );
    assert_eq!(read_compact_size(&[0xfe, 0x01, 0x02, 0x03, 0x04, 0x99]), (0x04030201, 5));
}

#[test]
fn test_compact_size_truncated() {
    // An empty slice reads as zero, taking no bytes.
    assert_eq!(try_read_compact_size(&[]), Some((0, 0)));
    assert_eq!(read_compact_size(&[]), (0, 0));
    assert_eq!(try_read_compact_size(&[0xfd, 0x01]), None);
    assert_eq!(try_read_compact_size(&[0xff, 1, 2, 3, 4, 5, 6, 7]), None);
    assert_eq!(try_read_compact_size(&[0x07]), Some((7, 1)));
}

#[test]
fn test_parse_segwit_tx() {
    let raw = build_segwit_tx();
    let (tx, consumed) = parse_transaction(&raw);
    assert_eq!(consumed, raw.len());
    assert_eq!(tx.version, 2);
    assert_eq!(tx.inputs.len(), 1);
    assert_eq!(tx.inputs[0].prev_txid, [0x11u8; 32]);
    assert_eq!(tx.inputs[0].prev_vout, 3);
    assert_eq!(tx.inputs[0].sequence, 0xFFFFFFFD);
    assert_eq!(tx.inputs[0].witness, vec![vec![0xaa, 0xbb, 0xcc], vec![0xdd]]);
    assert_eq!(tx.outputs[0].value, 1000);
    assert_eq!(tx.outputs[0].script_pubkey, vec![0x00, 0x14]);
    assert_eq!(tx.locktime, 7);
    assert_eq!(tx.raw, raw);
    assert_eq!(tx.size as usize, raw.len());
    // The txid hashes the serialization without marker, flag and witness.
    let mut stripped = Vec::new();
    stripped.extend_from_slice(&raw[0..4]);
    stripped.extend_from_slice(&raw[6..raw.len() - 11]);
    stripped.extend_from_slice(&raw[raw.len() - 4..]);
    assert_eq!(tx.txid, hash256(&stripped));
    assert_eq!(tx.wtxid, hash256(&raw));
    // Base size 4 + 1 + 41 + 1 + 11 + 4 = 62; weight = 3 * 62 + total size.
    assert_eq!(tx.weight, 3 * 62 + raw.len() as u32);
}

#[test]
fn test_parse_transaction_truncated() {
    let raw = build_coinbase_tx(5, 1);
    assert!(try_parse_transaction(&raw[..raw.len() - 1]).is_none());
    assert!(try_parse_transaction(&raw[..4]).is_none());
    assert!(try_parse_transaction(&raw).is_some());
}

#[test]
fn test_parse_block_truncated() {
    let block = build_test_block(3);
    assert!(try_parse_block(&block[..79]).is_none());
    assert!(try_parse_block(&block[..block.len() - 1]).is_none());
    let parsed = try_parse_block(&block).unwrap();
    assert_eq!(parsed.raw_header, block[..80].to_vec());
    assert_eq!(parsed.header.hash, hash256(&block[..80]));
}

#[test]
fn test_reparse_raw_gives_same_tx() {
    let block = build_test_block_with_spend(2, &[1u8; 32], &[7u8; 32], 4, 10, &[0x51, 0x52]);
    let parsed = parse_block(&block);
    for tx in &parsed.transactions {
        let (again, consumed) = parse_transaction(&tx.raw);
        assert_eq!(consumed, tx.raw.len());
        assert_eq!(again.txid, tx.txid);
        assert_eq!(again.wtxid, tx.wtxid);
        assert_eq!(again.weight, tx.weight);
    }
}

#[test]
fn test_parse_transaction_ignores_trailing_bytes() {
    let raw = build_spending_tx(&[9u8; 32], 1, 2, &[0x51]);
    let mut longer = raw.clone();
    longer.extend_from_slice(&[0xde, 0xad, 0xbe, 0xef]);
    let (tx, consumed) = parse_transaction(&raw);
    let (tx2, consumed2) = parse_transaction(&longer);
    assert_eq!(consumed, consumed2);
    assert_eq!(tx.txid, tx2.txid);
    assert_eq!(tx.raw, tx2.raw);
    assert_eq!(tx2.raw, raw);
}

#[test]
fn test_hex_alphabet() {
    let bytes: Vec<u8> = (0u8..=255).collect();
    let hex = to_hex(&bytes);
    assert_eq!(hex.len(), 512);
    assert!(hex.chars().all(|c| c.is_ascii_digit() || ('a'..='f').contains(&c)));
    assert_eq!(&hex[..6], "000102");
    assert_eq!(&hex[506..], "fdfeff");
}

#[test]
fn test_compact_size_reencodes() {
    for data in [vec![0x10u8, 0xaa], vec![0xfd, 0x00, 0x01], vec![0xfe, 0x00, 0x00, 0x01, 0x00, 7]] {
        let (v, c) = read_compact_size(&data);
        assert_eq!(encode_compact_size(v), data[..c].to_vec());
    }
}

#[test]
fn test_hex_concat() {
    let a = [0x01u8, 0xf0];
    let b = [0x7au8];
    let mut ab = a.to_vec();
    ab.extend_from_slice(&b);
    assert_eq!(to_hex(&ab), format!("{}{}", to_hex(&a), to_hex(&b)));
    assert_eq!(to_hex(&b), "7a");
}

#[test]
fn test_parse_block_of_parts() {
    let t0 = build_coinbase_tx(8, 1);
    let t1 = build_segwit_tx();
    let mut block = build_raw_block(1, &[2u8; 32], 3, 4, 5, &[t0.clone(), t1.clone()]);
    block.extend_from_slice(&[0xee, 0xee]);
    let parsed = parse_block(&block);
    assert_eq!(parsed.transactions.len(), 2);
    assert_eq!(parsed.transactions[0].raw, t0);
    assert_eq!(parsed.transactions[1].raw, t1);
    assert_eq!(parsed.transactions[1].txid, parse_transaction(&t1).0.txid);
}
