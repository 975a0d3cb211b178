//! Key schema for the Esplora index.
//!
//! All keys are prefixed with a single byte tag to namespace them.
//! This enables efficient prefix scanning and avoids collisions.
use vstd::prelude::*;

use crate::encoding::{be_bytes, byte_of, lemma_le_bytes_value, low_bytes_value, pow256, push_be};

verus! {

// --- Key prefixes ---
/// tx:<txid_32> -> serialized TxMeta (height, fee, size, weight, locktime, version)
pub const TX_PREFIX: u8 = 0x54;

/// txraw:<txid_32> -> raw transaction bytes
pub const TX_RAW_PREFIX: u8 = 0x52;

/// blk:<block_hash_32> -> serialized BlockMeta
pub const BLOCK_PREFIX: u8 = 0x42;

/// blkh:<height_u32_be> -> block_hash (32 bytes)
pub const BLOCK_HEIGHT_PREFIX: u8 = 0x48;

/// blktxs:<block_hash_32>:<tx_index_u32_be> -> txid (32 bytes)
pub const BLOCK_TXIDS_PREFIX: u8 = 0x49;

/// blktxcount:<block_hash_32> -> tx_count (u32 LE)
pub const BLOCK_TX_COUNT_PREFIX: u8 = 0x43;

/// addr:<script_hash_32> -> AddressStats (chain_stats)
pub const ADDRESS_PREFIX: u8 = 0x41;

/// addrtx:<script_hash_32>:<height_u32_be>:<tx_index_u16_be> -> txid (32 bytes)
pub const ADDRESS_TX_PREFIX: u8 = 0x61;

/// utxo:<script_hash_32>:<txid_32>:<vout_u32_be> -> UtxoEntry (value, height)
pub const UTXO_PREFIX: u8 = 0x55;

/// spend:<txid_32>:<vout_u32_be> -> spending txid (32 bytes)
pub const SPEND_PREFIX: u8 = 0x53;

/// The bytes of `__TIP__`: current chain tip height (u32 LE).
pub open spec fn tip_key_spec() -> Seq<u8> {
    seq![0x5fu8, 0x5f, 0x54, 0x49, 0x50, 0x5f, 0x5f]
}

/// The bytes of `__TIP_HASH__`: current chain tip hash (32 bytes).
pub open spec fn tip_hash_key_spec() -> Seq<u8> {
    seq![0x5fu8, 0x5f, 0x54, 0x49, 0x50, 0x5f, 0x48, 0x41, 0x53, 0x48, 0x5f, 0x5f]
}

/// Every key of the index, by kind and arguments.
pub enum IndexKey {
    Tx(Seq<u8>),
    TxRaw(Seq<u8>),
    Block(Seq<u8>),
    BlockHeight(u32),
    BlockTxid(Seq<u8>, u32),
    BlockTxCount(Seq<u8>),
    Address(Seq<u8>),
    AddressTx(Seq<u8>, u32, u16),
    Utxo(Seq<u8>, Seq<u8>, u32),
    Spend(Seq<u8>, u32),
    Tip,
    TipHash,
}

/// The bytes of a key.
pub open spec fn key_bytes(k: IndexKey) -> Seq<u8> {
    match k {
        IndexKey::Tx(txid) => seq![TX_PREFIX] + txid,
        IndexKey::TxRaw(txid) => seq![TX_RAW_PREFIX] + txid,
        IndexKey::Block(hash) => seq![BLOCK_PREFIX] + hash,
        IndexKey::BlockHeight(height) => seq![BLOCK_HEIGHT_PREFIX] + be_bytes(height as int, 4),
        IndexKey::BlockTxid(hash, index) => seq![BLOCK_TXIDS_PREFIX] + hash + be_bytes(
            index as int,
            4,
        ),
        IndexKey::BlockTxCount(hash) => seq![BLOCK_TX_COUNT_PREFIX] + hash,
        IndexKey::Address(sh) => seq![ADDRESS_PREFIX] + sh,
        IndexKey::AddressTx(sh, height, index) => seq![ADDRESS_TX_PREFIX] + sh + be_bytes(
            height as int,
            4,
        ) + be_bytes(index as int, 2),
        IndexKey::Utxo(sh, txid, vout) => seq![UTXO_PREFIX] + sh + txid + be_bytes(vout as int, 4),
        IndexKey::Spend(txid, vout) => seq![SPEND_PREFIX] + txid + be_bytes(vout as int, 4),
        IndexKey::Tip => tip_key_spec(),
        IndexKey::TipHash => tip_hash_key_spec(),
    }
}

/// Hash arguments of a key are 32 bytes long.
pub open spec fn key_well_formed(k: IndexKey) -> bool {
    match k {
        IndexKey::Tx(a) => a.len() == 32,
        IndexKey::TxRaw(a) => a.len() == 32,
        IndexKey::Block(a) => a.len() == 32,
        IndexKey::BlockHeight(_) => true,
        IndexKey::BlockTxid(a, _) => a.len() == 32,
        IndexKey::BlockTxCount(a) => a.len() == 32,
        IndexKey::Address(a) => a.len() == 32,
        IndexKey::AddressTx(a, _, _) => a.len() == 32,
        IndexKey::Utxo(a, b, _) => a.len() == 32 && b.len() == 32,
        IndexKey::Spend(a, _) => a.len() == 32,
        IndexKey::Tip => true,
        IndexKey::TipHash => true,
    }
}

/// The key of the tip height.
pub fn tip_key() -> (k: Vec<u8>)
    ensures
        k@ == tip_key_spec(),
{
    let k: Vec<u8> = vec![0x5fu8, 0x5f, 0x54, 0x49, 0x50, 0x5f, 0x5f];
    assert(k@ =~= tip_key_spec());
    k
}

/// The key of the tip hash.
pub fn tip_hash_key() -> (k: Vec<u8>)
    ensures
        k@ == tip_hash_key_spec(),
{
    let k: Vec<u8> = vec![0x5fu8, 0x5f, 0x54, 0x49, 0x50, 0x5f, 0x48, 0x41, 0x53, 0x48, 0x5f, 0x5f];
    assert(k@ =~= tip_hash_key_spec());
    k
}

/// `prefix` followed by the 32 bytes of `a`.
pub fn prefixed_hash(prefix: u8, a: &[u8; 32]) -> (k: Vec<u8>)
    ensures
        k@ == seq![prefix] + a@,
{
    let mut k: Vec<u8> = Vec::new();
    k.push(prefix);
    let mut i: usize = 0;
    while i < 32
        invariant
            i <= 32,
            k@ == seq![prefix] + a@.subrange(0, i as int),
        decreases 32 - i,
    {
        k.push(a[i]);
        i = i + 1;
        assert(k@ =~= seq![prefix] + a@.subrange(0, i as int));
    }
    assert(a@.subrange(0, 32) =~= a@);
    k
}

fn append_hash(k: &mut Vec<u8>, a: &[u8; 32])
    ensures
        final(k)@ == old(k)@ + a@,
{
    let ghost start = old(k)@;
    let mut i: usize = 0;
    while i < 32
        invariant
            i <= 32,
            k@ == start + a@.subrange(0, i as int),
        decreases 32 - i,
    {
        k.push(a[i]);
        i = i + 1;
        assert(k@ =~= start + a@.subrange(0, i as int));
    }
    assert(a@.subrange(0, 32) =~= a@);
}

// --- Key builders ---
pub fn tx_key(txid: &[u8; 32]) -> (k: Vec<u8>)
    ensures
        k@ == key_bytes(IndexKey::Tx(txid@)),
{
    prefixed_hash(TX_PREFIX, txid)
}

pub fn tx_raw_key(txid: &[u8; 32]) -> (k: Vec<u8>)
    ensures
        k@ == key_bytes(IndexKey::TxRaw(txid@)),
{
    prefixed_hash(TX_RAW_PREFIX, txid)
}

pub fn block_key(hash: &[u8; 32]) -> (k: Vec<u8>)
    ensures
        k@ == key_bytes(IndexKey::Block(hash@)),
{
    prefixed_hash(BLOCK_PREFIX, hash)
}

pub fn block_height_key(height: u32) -> (k: Vec<u8>)
    ensures
        k@ == key_bytes(IndexKey::BlockHeight(height)),
{
    let mut k: Vec<u8> = Vec::new();
    k.push(BLOCK_HEIGHT_PREFIX);
    push_be(&mut k, height as u64, 4);
    assert(k@ =~= key_bytes(IndexKey::BlockHeight(height)));
    k
}

pub fn block_txid_key(block_hash: &[u8; 32], tx_index: u32) -> (k: Vec<u8>)
    ensures
        k@ == key_bytes(IndexKey::BlockTxid(block_hash@, tx_index)),
{
    let mut k = prefixed_hash(BLOCK_TXIDS_PREFIX, block_hash);
    push_be(&mut k, tx_index as u64, 4);
    k
}

pub fn block_tx_count_key(block_hash: &[u8; 32]) -> (k: Vec<u8>)
    ensures
        k@ == key_bytes(IndexKey::BlockTxCount(block_hash@)),
{
    prefixed_hash(BLOCK_TX_COUNT_PREFIX, block_hash)
}

pub fn address_key(script_hash: &[u8; 32]) -> (k: Vec<u8>)
    ensures
        k@ == key_bytes(IndexKey::Address(script_hash@)),
{
    prefixed_hash(ADDRESS_PREFIX, script_hash)
}

pub fn address_tx_key(script_hash: &[u8; 32], height: u32, tx_index: u16) -> (k: Vec<u8>)
    ensures
        k@ == key_bytes(IndexKey::AddressTx(script_hash@, height, tx_index)),
{
    let mut k = prefixed_hash(ADDRESS_TX_PREFIX, script_hash);
    push_be(&mut k, height as u64, 4);
    push_be(&mut k, tx_index as u64, 2);
    k
}

pub fn utxo_key(script_hash: &[u8; 32], txid: &[u8; 32], vout: u32) -> (k: Vec<u8>)
    ensures
        k@ == key_bytes(IndexKey::Utxo(script_hash@, txid@, vout)),
{
    let mut k = prefixed_hash(UTXO_PREFIX, script_hash);
    append_hash(&mut k, txid);
    push_be(&mut k, vout as u64, 4);
    k
}

pub fn spend_key(txid: &[u8; 32], vout: u32) -> (k: Vec<u8>)
    ensures
        k@ == key_bytes(IndexKey::Spend(txid@, vout)),
{
    let mut k = prefixed_hash(SPEND_PREFIX, txid);
    push_be(&mut k, vout as u64, 4);
    k
}

// --- Collision freedom ---
proof fn lemma_be_injective(n: int, m: int, k: nat)
    requires
        1 <= k <= 8,
        0 <= n < pow256(k as int),
        0 <= m < pow256(k as int),
        be_bytes(n, k) == be_bytes(m, k),
    ensures
        n == m,
{
    assert forall|i: int| 0 <= i < k implies byte_of(n, i) == byte_of(m, i) by {
        let j = k - 1 - i;
        assert(be_bytes(n, k)[j] == byte_of(n, k - 1 - j));
        assert(be_bytes(m, k)[j] == byte_of(m, k - 1 - j));
    }
    lemma_low_bytes_equal(n, m, k);
    lemma_le_bytes_value(n, k);
    lemma_le_bytes_value(m, k);
}

proof fn lemma_low_bytes_equal(n: int, m: int, k: nat)
    requires
        k <= 8,
        forall|i: int| 0 <= i < k ==> byte_of(n, i) == byte_of(m, i),
    ensures
        low_bytes_value(n, k) == low_bytes_value(m, k),
    decreases k,
{
    if k > 0 {
        lemma_low_bytes_equal(n, m, (k - 1) as nat);
    }
}

/// The tag byte that a key starts with.
pub open spec fn key_tag(k: IndexKey) -> u8 {
    match k {
        IndexKey::Tx(_) => TX_PREFIX,
        IndexKey::TxRaw(_) => TX_RAW_PREFIX,
        IndexKey::Block(_) => BLOCK_PREFIX,
        IndexKey::BlockHeight(_) => BLOCK_HEIGHT_PREFIX,
        IndexKey::BlockTxid(_, _) => BLOCK_TXIDS_PREFIX,
        IndexKey::BlockTxCount(_) => BLOCK_TX_COUNT_PREFIX,
        IndexKey::Address(_) => ADDRESS_PREFIX,
        IndexKey::AddressTx(_, _, _) => ADDRESS_TX_PREFIX,
        IndexKey::Utxo(_, _, _) => UTXO_PREFIX,
        IndexKey::Spend(_, _) => SPEND_PREFIX,
        IndexKey::Tip => 0x5f,
        IndexKey::TipHash => 0x5f,
    }
}

proof fn lemma_key_tag(k: IndexKey)
    ensures
        key_bytes(k).len() >= 1,
        key_bytes(k)[0] == key_tag(k),
        k is Tip ==> key_bytes(k).len() == 7,
        k is TipHash ==> key_bytes(k).len() == 12,
{
}

/// Keys of different kinds never collide, and each kind of key determines
/// its arguments: the key encoding is injective on well-formed keys.
pub proof fn lemma_keys_injective(a: IndexKey, b: IndexKey)
    requires
        key_well_formed(a),
        key_well_formed(b),
        key_bytes(a) == key_bytes(b),
    ensures
        a == b,
{
    let ka = key_bytes(a);
    let kb = key_bytes(b);
    lemma_key_tag(a);
    lemma_key_tag(b);
    assert(key_tag(a) == key_tag(b));
    assert(ka.len() == kb.len());
    match a {
        IndexKey::Tx(x) => {
            assert(x =~= ka.subrange(1, 33));
            assert(b matches IndexKey::Tx(y) && y =~= kb.subrange(1, 33));
        },
        IndexKey::TxRaw(x) => {
            assert(x =~= ka.subrange(1, 33));
            assert(b matches IndexKey::TxRaw(y) && y =~= kb.subrange(1, 33));
        },
        IndexKey::Block(x) => {
            assert(x =~= ka.subrange(1, 33));
            assert(b matches IndexKey::Block(y) && y =~= kb.subrange(1, 33));
        },
        IndexKey::BlockHeight(h) => {
            assert(be_bytes(h as int, 4) =~= ka.subrange(1, 5));
            if let IndexKey::BlockHeight(h2) = b {
                assert(be_bytes(h2 as int, 4) =~= kb.subrange(1, 5));
                lemma_be_injective(h as int, h2 as int, 4);
            }
        },
        IndexKey::BlockTxid(x, i) => {
            assert(x =~= ka.subrange(1, 33));
            assert(be_bytes(i as int, 4) =~= ka.subrange(33, 37));
            if let IndexKey::BlockTxid(y, j) = b {
                assert(y =~= kb.subrange(1, 33));
                assert(be_bytes(j as int, 4) =~= kb.subrange(33, 37));
                lemma_be_injective(i as int, j as int, 4);
            }
        },
        IndexKey::BlockTxCount(x) => {
            assert(x =~= ka.subrange(1, 33));
            assert(b matches IndexKey::BlockTxCount(y) && y =~= kb.subrange(1, 33));
        },
        IndexKey::Address(x) => {
            assert(x =~= ka.subrange(1, 33));
            assert(b matches IndexKey::Address(y) && y =~= kb.subrange(1, 33));
        },
        IndexKey::AddressTx(x, h, i) => {
            assert(x =~= ka.subrange(1, 33));
            assert(be_bytes(h as int, 4) =~= ka.subrange(33, 37));
            assert(be_bytes(i as int, 2) =~= ka.subrange(37, 39));
            if let IndexKey::AddressTx(y, h2, j) = b {
                assert(y =~= kb.subrange(1, 33));
                assert(be_bytes(h2 as int, 4) =~= kb.subrange(33, 37));
                assert(be_bytes(j as int, 2) =~= kb.subrange(37, 39));
                lemma_be_injective(h as int, h2 as int, 4);
                lemma_be_injective(i as int, j as int, 2);
            }
        },
        IndexKey::Utxo(x, t, v) => {
            assert(x =~= ka.subrange(1, 33));
            assert(t =~= ka.subrange(33, 65));
            assert(be_bytes(v as int, 4) =~= ka.subrange(65, 69));
            if let IndexKey::Utxo(y, t2, v2) = b {
                assert(y =~= kb.subrange(1, 33));
                assert(t2 =~= kb.subrange(33, 65));
                assert(be_bytes(v2 as int, 4) =~= kb.subrange(65, 69));
                lemma_be_injective(v as int, v2 as int, 4);
            }
        },
        IndexKey::Spend(t, v) => {
            assert(t =~= ka.subrange(1, 33));
            assert(be_bytes(v as int, 4) =~= ka.subrange(33, 37));
            if let IndexKey::Spend(t2, v2) = b {
                assert(t2 =~= kb.subrange(1, 33));
                assert(be_bytes(v2 as int, 4) =~= kb.subrange(33, 37));
                lemma_be_injective(v as int, v2 as int, 4);
            }
        },
        IndexKey::Tip => {},
        IndexKey::TipHash => {},
    }
}

// --- Record kinds ---
/// The kind of value stored under a key: a metadata record of a block, of a
/// transaction or of an unspent output, or raw bytes.
#[derive(Debug, Clone, Copy, PartialEq, Eq, Structural)]
pub enum RecordKind {
    Block,
    Tx,
    Utxo,
    Bytes,
}

/// The kind of value stored under `key`, by its tag and length.
pub open spec fn record_kind_spec(key: Seq<u8>) -> RecordKind {
    if key.len() == 33 && key[0] == BLOCK_PREFIX {
        RecordKind::Block
    } else if key.len() == 33 && key[0] == TX_PREFIX {
        RecordKind::Tx
    } else if key.len() == 69 && key[0] == UTXO_PREFIX {
        RecordKind::Utxo
    } else {
        RecordKind::Bytes
    }
}

/// The kind of value stored under `key`.
pub fn record_kind(key: &[u8]) -> (k: RecordKind)
    ensures
        k == record_kind_spec(key@),
{
    if key.len() == 33 && key[0] == BLOCK_PREFIX {
        RecordKind::Block
    } else if key.len() == 33 && key[0] == TX_PREFIX {
        RecordKind::Tx
    } else if key.len() == 69 && key[0] == UTXO_PREFIX {
        RecordKind::Utxo
    } else {
        RecordKind::Bytes
    }
}

/// Every well-formed key of the schema has the kind of the value the index
/// writes under it: block keys hold block metadata, transaction keys hold
/// transaction metadata, UTXO keys hold UTXO records, all others raw bytes.
pub proof fn lemma_record_kind_of_key(k: IndexKey)
    requires
        key_well_formed(k),
    ensures
        record_kind_spec(key_bytes(k)) == match k {
            IndexKey::Block(_) => RecordKind::Block,
            IndexKey::Tx(_) => RecordKind::Tx,
            IndexKey::Utxo(_, _, _) => RecordKind::Utxo,
            _ => RecordKind::Bytes,
        },
{
    lemma_key_tag(k);
}

// --- Key order ---
/// `a` sorts before `b` in lexicographic byte order (as a store that scans
/// keys by prefix orders them).
pub open spec fn bytes_lt(a: Seq<u8>, b: Seq<u8>) -> bool
    decreases a.len(),
{
    if a.len() == 0 || b.len() == 0 {
        a.len() < b.len()
    } else if a[0] != b[0] {
        a[0] < b[0]
    } else {
        bytes_lt(a.drop_first(), b.drop_first())
    }
}

/// A common prefix does not change the order.
pub proof fn lemma_bytes_lt_prefix(p: Seq<u8>, a: Seq<u8>, b: Seq<u8>)
    ensures
        bytes_lt(p + a, p + b) == bytes_lt(a, b),
    decreases p.len(),
{
    if p.len() > 0 {
        assert((p + a).drop_first() =~= p.drop_first() + a);
        assert((p + b).drop_first() =~= p.drop_first() + b);
        lemma_bytes_lt_prefix(p.drop_first(), a, b);
    } else {
        assert(p + a =~= a);
        assert(p + b =~= b);
    }
}

/// Two concatenations whose first parts have one length sort by the first
/// parts, then by the second.
pub proof fn lemma_bytes_lt_concat(a1: Seq<u8>, a2: Seq<u8>, b1: Seq<u8>, b2: Seq<u8>)
    requires
        a1.len() == b1.len(),
    ensures
        bytes_lt(a1 + a2, b1 + b2) == (bytes_lt(a1, b1) || (a1 == b1 && bytes_lt(a2, b2))),
    decreases a1.len(),
{
    if a1.len() > 0 {
        assert((a1 + a2).drop_first() =~= a1.drop_first() + a2);
        assert((b1 + b2).drop_first() =~= b1.drop_first() + b2);
        lemma_bytes_lt_concat(a1.drop_first(), a2, b1.drop_first(), b2);
        if a1[0] == b1[0] && a1.drop_first() == b1.drop_first() {
            assert(a1 =~= b1) by {
                assert(a1 =~= seq![a1[0]] + a1.drop_first());
                assert(b1 =~= seq![b1[0]] + b1.drop_first());
            }
        }
    } else {
        assert(a1 + a2 =~= a2);
        assert(b1 + b2 =~= b2);
        assert(a1 =~= b1);
    }
}

/// Big-endian 4-byte encodings sort as the numbers do.
proof fn lemma_be4_order(n: u32, m: u32)
    ensures
        bytes_lt(be_bytes(n as int, 4), be_bytes(m as int, 4)) == (n < m),
{
    let a = be_bytes(n as int, 4);
    let b = be_bytes(m as int, 4);
    assert(a[0] as int == (n / 0x100_0000) % 256 && b[0] as int == (m / 0x100_0000) % 256);
    assert(a[1] as int == (n / 0x1_0000) % 256 && b[1] as int == (m / 0x1_0000) % 256);
    assert(a[2] as int == (n / 0x100) % 256 && b[2] as int == (m / 0x100) % 256);
    assert(a[3] as int == n % 256 && b[3] as int == m % 256);
    assert(a.drop_first().drop_first().drop_first().drop_first().len() == 0);
    assert(b.drop_first().drop_first().drop_first().drop_first().len() == 0);
    reveal_with_fuel(bytes_lt, 5);
    assert(((n / 0x100_0000) % 256 < (m / 0x100_0000) % 256 || ((n / 0x100_0000) % 256 == (m
        / 0x100_0000) % 256 && ((n / 0x1_0000) % 256 < (m / 0x1_0000) % 256 || ((n / 0x1_0000)
        % 256 == (m / 0x1_0000) % 256 && ((n / 0x100) % 256 < (m / 0x100) % 256 || ((n / 0x100)
        % 256 == (m / 0x100) % 256 && n % 256 < m % 256)))))) == (n < m)) by (bit_vector);
}

/// Big-endian 2-byte encodings sort as the numbers do.
proof fn lemma_be2_order(n: u16, m: u16)
    ensures
        bytes_lt(be_bytes(n as int, 2), be_bytes(m as int, 2)) == (n < m),
{
    let a = be_bytes(n as int, 2);
    let b = be_bytes(m as int, 2);
    assert(a[0] as int == (n / 0x100) % 256 && b[0] as int == (m / 0x100) % 256);
    assert(a[1] as int == n % 256 && b[1] as int == m % 256);
    assert(a.drop_first().drop_first().len() == 0);
    assert(b.drop_first().drop_first().len() == 0);
    reveal_with_fuel(bytes_lt, 3);
    assert(((n / 0x100) % 256 < (m / 0x100) % 256 || ((n / 0x100) % 256 == (m / 0x100) % 256
        && n % 256 < m % 256)) == (n < m)) by (bit_vector);
}

/// Height keys sort as the heights do (big-endian heights keep a prefix
/// scan in height order), and are equal only for equal heights.
pub proof fn lemma_block_height_key_order(a: u32, b: u32)
    ensures
        bytes_lt(key_bytes(IndexKey::BlockHeight(a)), key_bytes(IndexKey::BlockHeight(b)))
            == (a < b),
        (key_bytes(IndexKey::BlockHeight(a)) == key_bytes(IndexKey::BlockHeight(b))) == (a == b),
{
    lemma_bytes_lt_prefix(seq![BLOCK_HEIGHT_PREFIX], be_bytes(a as int, 4), be_bytes(b as int, 4));
    lemma_be4_order(a, b);
    if key_bytes(IndexKey::BlockHeight(a)) == key_bytes(IndexKey::BlockHeight(b)) {
        lemma_keys_injective(IndexKey::BlockHeight(a), IndexKey::BlockHeight(b));
    }
}

/// The txid keys of one block sort by transaction index.
pub proof fn lemma_block_txid_key_order(hash: Seq<u8>, i: u32, j: u32)
    ensures
        bytes_lt(key_bytes(IndexKey::BlockTxid(hash, i)), key_bytes(IndexKey::BlockTxid(hash, j)))
            == (i < j),
{
    lemma_bytes_lt_prefix(seq![BLOCK_TXIDS_PREFIX] + hash, be_bytes(i as int, 4), be_bytes(j as int, 4));
    lemma_be4_order(i, j);
}

/// The address records of one script hash sort by height, then by index
/// within the block.
pub proof fn lemma_address_tx_key_order(sh: Seq<u8>, h1: u32, i1: u16, h2: u32, i2: u16)
    ensures
        bytes_lt(key_bytes(IndexKey::AddressTx(sh, h1, i1)), key_bytes(IndexKey::AddressTx(sh, h2, i2)))
            == (h1 < h2 || (h1 == h2 && i1 < i2)),
{
    let p = seq![ADDRESS_TX_PREFIX] + sh;
    let x1 = be_bytes(h1 as int, 4);
    let x2 = be_bytes(h2 as int, 4);
    let y1 = be_bytes(i1 as int, 2);
    let y2 = be_bytes(i2 as int, 2);
    assert(key_bytes(IndexKey::AddressTx(sh, h1, i1)) =~= p + (x1 + y1));
    assert(key_bytes(IndexKey::AddressTx(sh, h2, i2)) =~= p + (x2 + y2));
    lemma_bytes_lt_prefix(p, x1 + y1, x2 + y2);
    lemma_bytes_lt_concat(x1, y1, x2, y2);
    lemma_be4_order(h1, h2);
    lemma_be2_order(i1, i2);
    if x1 == x2 {
        lemma_be_injective(h1 as int, h2 as int, 4);
    }
}

} // verus!
