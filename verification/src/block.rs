//! Minimal parser for the Bitcoin block and transaction wire format.
use vstd::prelude::*;

use crate::encoding::{append_bytes, i32_of_bits, read_i32_le, le_bytes, lemma_read_le2, lemma_read_le4, lemma_read_le8, le_u16_at, le_u32_at, le_u64_at, push_le, read_u16_le, read_u32_le, read_u64_le};

verus! {

// ---------------------------------------------------------------------------
// Compact size integers
// ---------------------------------------------------------------------------

/// What `read_compact_size` gives for `s`: the value and the number of bytes it
/// takes. An empty input reads as `(0, 0)`; `None` where the prefix byte
/// announces more bytes than `s` holds.
pub open spec fn compact_size_spec(s: Seq<u8>) -> Option<(u64, int)> {
    if s.len() == 0 {
        Some((0, 0))
    } else if s[0] <= 252 {
        Some((s[0] as u64, 1))
    } else if s[0] == 253 {
        if s.len() >= 3 {
            Some((le_u16_at(s, 1) as u64, 3))
        } else {
            None
        }
    } else if s[0] == 254 {
        if s.len() >= 5 {
            Some((le_u32_at(s, 1) as u64, 5))
        } else {
            None
        }
    } else {
        if s.len() >= 9 {
            Some((le_u64_at(s, 1) as u64, 9))
        } else {
            None
        }
    }
}

/// The canonical (shortest) compact size encoding of `n`.
pub open spec fn compact_size_bytes(n: u64) -> Seq<u8> {
    if n < 253 {
        seq![n as u8]
    } else if n <= 0xffff {
        seq![253u8] + le_bytes(n as int, 2)
    } else if n <= 0xffff_ffff {
        seq![254u8] + le_bytes(n as int, 4)
    } else {
        seq![255u8] + le_bytes(n as int, 8)
    }
}

/// Reads a compact size (varint) from the front of `data`.
/// Returns (value, bytes_consumed); an empty slice reads as (0, 0).
pub fn read_compact_size(data: &[u8]) -> (res: (u64, usize))
    requires
        compact_size_spec(data@) is Some,
    ensures
        compact_size_spec(data@) == Some((res.0, res.1 as int)),
{
    if data.len() == 0 {
        return (0, 0);
    }
    let first = data[0];
    if first <= 252 {
        (first as u64, 1)
    } else if first == 253 {
        (read_u16_le(data, 1) as u64, 3)
    } else if first == 254 {
        (read_u32_le(data, 1) as u64, 5)
    } else {
        (read_u64_le(data, 1), 9)
    }
}

/// Reads a compact size, or `None` where `data` ends inside it.
pub fn try_read_compact_size(data: &[u8]) -> (res: Option<(u64, usize)>)
    ensures
        match res {
            Some((v, n)) => compact_size_spec(data@) == Some((v, n as int)),
            None => compact_size_spec(data@) is None,
        },
{
    if data.len() == 0 {
        return Some((0, 0));
    }
    let first = data[0];
    if first <= 252 {
        Some((first as u64, 1))
    } else if first == 253 {
        if data.len() >= 3 {
            Some((read_u16_le(data, 1) as u64, 3))
        } else {
            None
        }
    } else if first == 254 {
        if data.len() >= 5 {
            Some((read_u32_le(data, 1) as u64, 5))
        } else {
            None
        }
    } else {
        if data.len() >= 9 {
            Some((read_u64_le(data, 1), 9))
        } else {
            None
        }
    }
}

/// Encodes a compact size integer.
pub fn encode_compact_size(n: u64) -> (v: Vec<u8>)
    ensures
        v@ == compact_size_bytes(n),
{
    let mut v: Vec<u8> = Vec::new();
    if n < 253 {
        v.push(n as u8);
        assert(v@ =~= compact_size_bytes(n));
    } else if n <= 0xffff {
        v.push(253u8);
        push_le(&mut v, n, 2);
    } else if n <= 0xffff_ffff {
        v.push(254u8);
        push_le(&mut v, n, 4);
    } else {
        v.push(255u8);
        push_le(&mut v, n, 8);
    }
    v
}

/// Returns the byte length of a compact size encoding.
fn compact_size_len(n: u64) -> (len: usize)
    ensures
        len == compact_size_bytes(n).len(),
        len == 1 <==> n < 253,
        len == 3 <==> 253 <= n <= 0xffff,
        len == 5 <==> 0x1_0000 <= n <= 0xffff_ffff,
        len == 9 <==> n > 0xffff_ffff,
{
    if n < 253 {
        1
    } else if n <= 0xffff {
        3
    } else if n <= 0xffff_ffff {
        5
    } else {
        9
    }
}

/// Reading back the encoding of `n` gives `n` and consumes the whole encoding.
pub proof fn lemma_compact_size_roundtrip(n: u64)
    ensures
        compact_size_spec(compact_size_bytes(n)) == Some((n, compact_size_bytes(n).len() as int)),
{
    let b = compact_size_bytes(n);
    let x = n as int;
    if n < 253 {
    } else if n <= 0xffff {
        assert(b.subrange(1, 3) =~= le_bytes(x, 2));
        lemma_read_le2(b, 1, x);
    } else if n <= 0xffff_ffff {
        assert(b.subrange(1, 5) =~= le_bytes(x, 4));
        lemma_read_le4(b, 1, x);
    } else {
        assert(b.subrange(1, 9) =~= le_bytes(x, 8));
        lemma_read_le8(b, 1, x);
    }
}

/// A compact size read in its canonical (shortest) form re-encodes to the
/// very bytes it was read from.
pub proof fn lemma_compact_size_reencode(s: Seq<u8>)
    requires
        compact_size_spec(s) is Some,
        compact_size_spec(s).unwrap().1 > 0,
        compact_size_spec(s).unwrap().1 == compact_size_bytes(compact_size_spec(s).unwrap().0).len(),
    ensures
        compact_size_bytes(compact_size_spec(s).unwrap().0) == s.subrange(
            0,
            compact_size_spec(s).unwrap().1,
        ),
{
    let (v, c) = compact_size_spec(s).unwrap();
    let t = compact_size_bytes(v);
    lemma_compact_size_roundtrip(v);
    assert(compact_size_spec(t) == Some((v, c)));
    assert(t[0] == s[0]);
    if c > 1 {
        let ts = t.subrange(1, c);
        let ss = s.subrange(1, c);
        reveal_with_fuel(le_value, 9);
        if c == 3 {
            assert(le_u16_at(t, 1) == le_value(ts));
            assert(le_u16_at(s, 1) == le_value(ss));
        } else if c == 5 {
            assert(le_u32_at(t, 1) == le_value(ts));
            assert(le_u32_at(s, 1) == le_value(ss));
        } else {
            assert(le_u64_at(t, 1) == le_value(ts));
            assert(le_u64_at(s, 1) == le_value(ss));
        }
        lemma_le_value_injective(ts, ss);
        assert(t =~= seq![t[0]] + ts);
        assert(s.subrange(0, c) =~= seq![s[0]] + ss);
    } else {
        assert(t =~= s.subrange(0, 1));
    }
}

/// The unsigned little-endian value of all of `s`.
spec fn le_value(s: Seq<u8>) -> int
    decreases s.len(),
{
    if s.len() == 0 {
        0
    } else {
        s[0] + 0x100 * le_value(s.drop_first())
    }
}

proof fn lemma_le_value_injective(a: Seq<u8>, b: Seq<u8>)
    requires
        a.len() == b.len(),
        le_value(a) == le_value(b),
    ensures
        a == b,
    decreases a.len(),
{
    if a.len() > 0 {
        lemma_le_value_nonneg(a.drop_first());
        lemma_le_value_nonneg(b.drop_first());
        let x = le_value(a.drop_first());
        let y = le_value(b.drop_first());
        assert(a[0] == b[0] && x == y) by (nonlinear_arith)
            requires
                a[0] + 0x100 * x == b[0] + 0x100 * y,
                0 <= a[0] < 0x100,
                0 <= b[0] < 0x100,
                x >= 0,
                y >= 0,
        ;
        lemma_le_value_injective(a.drop_first(), b.drop_first());
        assert(a =~= seq![a[0]] + a.drop_first());
        assert(b =~= seq![b[0]] + b.drop_first());
    } else {
        assert(a =~= b);
    }
}

proof fn lemma_le_value_nonneg(a: Seq<u8>)
    ensures
        le_value(a) >= 0,
    decreases a.len(),
{
    if a.len() > 0 {
        lemma_le_value_nonneg(a.drop_first());
    }
}

// ---------------------------------------------------------------------------
// Parsed structures
// ---------------------------------------------------------------------------

/// Parsed block header.
#[derive(Debug, Clone)]
pub struct BlockHeader {
    pub version: i32,
    pub prev_block: [u8; 32],
    pub merkle_root: [u8; 32],
    pub time: u32,
    pub bits: u32,
    pub nonce: u32,
    pub hash: [u8; 32],
}

/// Parsed transaction.
#[derive(Debug, Clone)]
pub struct Transaction {
    pub version: i32,
    pub inputs: Vec<TxInput>,
    pub outputs: Vec<TxOutput>,
    pub locktime: u32,
    pub txid: [u8; 32],
    pub wtxid: [u8; 32],
    /// Raw bytes of this transaction.
    pub raw: Vec<u8>,
    /// Size in bytes.
    pub size: u32,
    /// Weight units.
    pub weight: u32,
}

/// Transaction input.
#[derive(Debug, Clone)]
pub struct TxInput {
    pub prev_txid: [u8; 32],
    pub prev_vout: u32,
    pub script_sig: Vec<u8>,
    pub sequence: u32,
    pub witness: Vec<Vec<u8>>,
}

/// Transaction output.
#[derive(Debug, Clone)]
pub struct TxOutput {
    pub value: u64,
    pub script_pubkey: Vec<u8>,
}

/// Parsed block.
#[derive(Debug, Clone)]
pub struct Block {
    pub header: BlockHeader,
    pub transactions: Vec<Transaction>,
    /// Raw header bytes (80 bytes).
    pub raw_header: Vec<u8>,
}

/// Mathematical model of a block header.
pub struct SpecBlockHeader {
    pub version: i32,
    pub prev_block: Seq<u8>,
    pub merkle_root: Seq<u8>,
    pub time: u32,
    pub bits: u32,
    pub nonce: u32,
    pub hash: Seq<u8>,
}

/// Mathematical model of a transaction input.
pub struct SpecTxInput {
    pub prev_txid: Seq<u8>,
    pub prev_vout: u32,
    pub script_sig: Seq<u8>,
    pub sequence: u32,
    pub witness: Seq<Seq<u8>>,
}

/// Mathematical model of a transaction output.
pub struct SpecTxOutput {
    pub value: u64,
    pub script_pubkey: Seq<u8>,
}

/// Mathematical model of a transaction.
pub struct SpecTransaction {
    pub version: i32,
    pub inputs: Seq<SpecTxInput>,
    pub outputs: Seq<SpecTxOutput>,
    pub locktime: u32,
    pub txid: Seq<u8>,
    pub wtxid: Seq<u8>,
    pub raw: Seq<u8>,
    pub size: u32,
    pub weight: u32,
}

/// Mathematical model of a block.
pub struct SpecBlock {
    pub header: SpecBlockHeader,
    pub transactions: Seq<SpecTransaction>,
    pub raw_header: Seq<u8>,
}

impl View for BlockHeader {
    type V = SpecBlockHeader;

    open spec fn view(&self) -> SpecBlockHeader {
        SpecBlockHeader {
            version: self.version,
            prev_block: self.prev_block@,
            merkle_root: self.merkle_root@,
            time: self.time,
            bits: self.bits,
            nonce: self.nonce,
            hash: self.hash@,
        }
    }
}

/// The model of a list of byte vectors.
pub open spec fn bytes_list_view(v: Seq<Vec<u8>>) -> Seq<Seq<u8>> {
    v.map_values(|b: Vec<u8>| b@)
}

impl View for TxInput {
    type V = SpecTxInput;

    open spec fn view(&self) -> SpecTxInput {
        SpecTxInput {
            prev_txid: self.prev_txid@,
            prev_vout: self.prev_vout,
            script_sig: self.script_sig@,
            sequence: self.sequence,
            witness: bytes_list_view(self.witness@),
        }
    }
}

impl View for TxOutput {
    type V = SpecTxOutput;

    open spec fn view(&self) -> SpecTxOutput {
        SpecTxOutput { value: self.value, script_pubkey: self.script_pubkey@ }
    }
}

impl View for Transaction {
    type V = SpecTransaction;

    open spec fn view(&self) -> SpecTransaction {
        SpecTransaction {
            version: self.version,
            inputs: self.inputs@.map_values(|i: TxInput| i@),
            outputs: self.outputs@.map_values(|o: TxOutput| o@),
            locktime: self.locktime,
            txid: self.txid@,
            wtxid: self.wtxid@,
            raw: self.raw@,
            size: self.size,
            weight: self.weight,
        }
    }
}

impl View for Block {
    type V = SpecBlock;

    open spec fn view(&self) -> SpecBlock {
        SpecBlock {
            header: self.header@,
            transactions: self.transactions@.map_values(|t: Transaction| t@),
            raw_header: self.raw_header@,
        }
    }
}

// ---------------------------------------------------------------------------
// Hashing
// ---------------------------------------------------------------------------

/// The SHA-256 digest of `data`, as `sha2::Sha256` computes it.
pub uninterp spec fn sha256(data: Seq<u8>) -> [u8; 32];

/// Double SHA-256.
pub open spec fn hash256_spec(data: Seq<u8>) -> Seq<u8> {
    sha256(sha256(data)@)@
}

/// `sha2::Sha256::digest` on `data`.
#[verifier::external_body]
fn sha256_digest(data: &[u8]) -> (res: [u8; 32])
    ensures
        res == sha256(data@),
{
    <sha2::Sha256 as sha2::Digest>::digest(data).into()
}

/// Double SHA-256 hash.
pub fn hash256(data: &[u8]) -> (res: [u8; 32])
    ensures
        res@ == hash256_spec(data@),
{
    let first = sha256_digest(data);
    sha256_digest(first.as_slice())
}

/// Compute the script hash (SHA-256 of the scriptPubKey).
/// This is what Esplora uses for the /scripthash/ endpoints.
pub fn script_hash(script_pubkey: &[u8]) -> (res: [u8; 32])
    ensures
        res@ == sha256(script_pubkey@)@,
{
    sha256_digest(script_pubkey)
}

// ---------------------------------------------------------------------------
// Wire format model
// ---------------------------------------------------------------------------

/// The compact size at position `p` of `s`, as `read_compact_size(&s[p..])` reads it.
pub open spec fn compact_at(s: Seq<u8>, p: int) -> Option<(u64, int)> {
    if p < 0 || p > s.len() {
        None
    } else {
        compact_size_spec(s.subrange(p, s.len() as int))
    }
}

/// A length-prefixed byte string at `p`: its bytes and the position after it.
pub open spec fn var_bytes_at(s: Seq<u8>, p: int) -> Option<(Seq<u8>, int)> {
    match compact_at(s, p) {
        None => None,
        Some((len, c)) => {
            let q = p + c;
            if len > s.len() - q {
                None
            } else {
                Some((s.subrange(q, q + len), q + len))
            }
        },
    }
}

/// One input (without its witness) at `p`, and the position after it.
pub open spec fn input_at(s: Seq<u8>, p: int) -> Option<(SpecTxInput, int)> {
    if p < 0 || p + 36 > s.len() {
        None
    } else {
        match var_bytes_at(s, p + 36) {
            None => None,
            Some((script, r)) => if r + 4 > s.len() {
                None
            } else {
                Some(
                    (
                        SpecTxInput {
                            prev_txid: s.subrange(p, p + 32),
                            prev_vout: le_u32_at(s, p + 32) as u32,
                            script_sig: script,
                            sequence: le_u32_at(s, r) as u32,
                            witness: seq![],
                        },
                        r + 4,
                    ),
                )
            },
        }
    }
}

/// `n` inputs from `p`, and the position after them.
pub open spec fn inputs_from(s: Seq<u8>, p: int, n: nat) -> Option<(Seq<SpecTxInput>, int)>
    decreases n,
{
    if n == 0 {
        Some((seq![], p))
    } else {
        match inputs_from(s, p, (n - 1) as nat) {
            None => None,
            Some((ins, q)) => match input_at(s, q) {
                None => None,
                Some((i, r)) => Some((ins.push(i), r)),
            },
        }
    }
}

/// One output at `p`, and the position after it.
pub open spec fn output_at(s: Seq<u8>, p: int) -> Option<(SpecTxOutput, int)> {
    if p < 0 || p + 8 > s.len() {
        None
    } else {
        match var_bytes_at(s, p + 8) {
            None => None,
            Some((script, r)) => Some(
                (SpecTxOutput { value: le_u64_at(s, p) as u64, script_pubkey: script }, r),
            ),
        }
    }
}

/// `n` outputs from `p`, and the position after them.
pub open spec fn outputs_from(s: Seq<u8>, p: int, n: nat) -> Option<(Seq<SpecTxOutput>, int)>
    decreases n,
{
    if n == 0 {
        Some((seq![], p))
    } else {
        match outputs_from(s, p, (n - 1) as nat) {
            None => None,
            Some((outs, q)) => match output_at(s, q) {
                None => None,
                Some((o, r)) => Some((outs.push(o), r)),
            },
        }
    }
}

/// `m` witness items from `p`, and the position after them.
pub open spec fn items_from(s: Seq<u8>, p: int, m: nat) -> Option<(Seq<Seq<u8>>, int)>
    decreases m,
{
    if m == 0 {
        Some((seq![], p))
    } else {
        match items_from(s, p, (m - 1) as nat) {
            None => None,
            Some((items, q)) => match var_bytes_at(s, q) {
                None => None,
                Some((b, r)) => Some((items.push(b), r)),
            },
        }
    }
}

/// One witness stack (count, then items) at `p`, and the position after it.
pub open spec fn witness_at(s: Seq<u8>, p: int) -> Option<(Seq<Seq<u8>>, int)> {
    match compact_at(s, p) {
        None => None,
        Some((m, c)) => items_from(s, p + c, m as nat),
    }
}

/// `k` witness stacks from `p`, and the position after them.
pub open spec fn witnesses_from(s: Seq<u8>, p: int, k: nat) -> Option<(Seq<Seq<Seq<u8>>>, int)>
    decreases k,
{
    if k == 0 {
        Some((seq![], p))
    } else {
        match witnesses_from(s, p, (k - 1) as nat) {
            None => None,
            Some((ws, q)) => match witness_at(s, q) {
                None => None,
                Some((w, r)) => Some((ws.push(w), r)),
            },
        }
    }
}

/// The inputs with their witness stacks attached.
pub open spec fn with_witnesses(ins: Seq<SpecTxInput>, ws: Seq<Seq<Seq<u8>>>) -> Seq<SpecTxInput> {
    Seq::new(
        ins.len(),
        |i: int| SpecTxInput { witness: ws[i], ..ins[i] },
    )
}

/// Non-witness serialization of one input.
pub open spec fn input_bytes(i: SpecTxInput) -> Seq<u8> {
    i.prev_txid + le_bytes(i.prev_vout as int, 4) + compact_size_bytes(i.script_sig.len() as u64)
        + i.script_sig + le_bytes(i.sequence as int, 4)
}

/// Serialization of one output.
pub open spec fn output_bytes(o: SpecTxOutput) -> Seq<u8> {
    le_bytes(o.value as int, 8) + compact_size_bytes(o.script_pubkey.len() as u64)
        + o.script_pubkey
}

/// Concatenated non-witness serialization of inputs.
pub open spec fn inputs_bytes(ins: Seq<SpecTxInput>) -> Seq<u8>
    decreases ins.len(),
{
    if ins.len() == 0 {
        seq![]
    } else {
        inputs_bytes(ins.drop_last()) + input_bytes(ins.last())
    }
}

/// Concatenated serialization of outputs.
pub open spec fn outputs_bytes(outs: Seq<SpecTxOutput>) -> Seq<u8>
    decreases outs.len(),
{
    if outs.len() == 0 {
        seq![]
    } else {
        outputs_bytes(outs.drop_last()) + output_bytes(outs.last())
    }
}

/// Size that one input adds to the base size, as the weight computation counts it.
pub open spec fn input_base_size(i: SpecTxInput) -> int {
    36 + compact_size_bytes(i.script_sig.len() as u64).len() + (i.script_sig.len() as u32) + 4
}

/// Size that one output adds to the base size, as the weight computation counts it.
pub open spec fn output_base_size(o: SpecTxOutput) -> int {
    8 + compact_size_bytes(o.script_pubkey.len() as u64).len() + (o.script_pubkey.len() as u32)
}

/// Sum of the base sizes of inputs.
pub open spec fn inputs_base_size(ins: Seq<SpecTxInput>) -> int
    decreases ins.len(),
{
    if ins.len() == 0 {
        0
    } else {
        inputs_base_size(ins.drop_last()) + input_base_size(ins.last())
    }
}

/// Sum of the base sizes of outputs.
pub open spec fn outputs_base_size(outs: Seq<SpecTxOutput>) -> int
    decreases outs.len(),
{
    if outs.len() == 0 {
        0
    } else {
        outputs_base_size(outs.drop_last()) + output_base_size(outs.last())
    }
}

/// Everything the wire format of a transaction at the front of `s` lays out.
pub struct TxLayout {
    pub has_witness: bool,
    pub input_count: u64,
    pub output_count: u64,
    /// Inputs, witness stacks attached.
    pub inputs: Seq<SpecTxInput>,
    pub outputs: Seq<SpecTxOutput>,
    pub locktime: u32,
    /// Position just past the locktime.
    pub end: int,
}

/// Whether the transaction at the front of `s` carries the segwit marker and flag.
pub open spec fn has_witness_spec(s: Seq<u8>) -> bool {
    s[4] == 0 && s[5] != 0
}

/// The layout of the transaction at the front of `s`, or `None` where the
/// bytes run out before it ends.
pub open spec fn tx_layout(s: Seq<u8>) -> Option<TxLayout> {
    if s.len() < 5 || (s[4] == 0 && s.len() < 6) {
        None
    } else {
        let hw = has_witness_spec(s);
        let p0: int = if hw { 6 } else { 4 };
        match compact_at(s, p0) {
            None => None,
            Some((nin, c1)) => match inputs_from(s, p0 + c1, nin as nat) {
                None => None,
                Some((ins, p1)) => match compact_at(s, p1) {
                    None => None,
                    Some((nout, c2)) => match outputs_from(s, p1 + c2, nout as nat) {
                        None => None,
                        Some((outs, p2)) => {
                            let wit = if hw {
                                witnesses_from(s, p2, ins.len())
                            } else {
                                Some((Seq::new(ins.len(), |i: int| Seq::<Seq<u8>>::empty()), p2))
                            };
                            match wit {
                                None => None,
                                Some((ws, p3)) => if p3 + 4 > s.len() {
                                    None
                                } else {
                                    Some(
                                        TxLayout {
                                            has_witness: hw,
                                            input_count: nin,
                                            output_count: nout,
                                            inputs: with_witnesses(ins, ws),
                                            outputs: outs,
                                            locktime: le_u32_at(s, p3) as u32,
                                            end: p3 + 4,
                                        },
                                    )
                                },
                            }
                        },
                    },
                },
            },
        }
    }
}

/// The serialization without witness data that the txid of a segwit transaction hashes.
pub open spec fn nonwitness_bytes(s: Seq<u8>, l: TxLayout) -> Seq<u8> {
    s.subrange(0, 4) + compact_size_bytes(l.input_count) + inputs_bytes(l.inputs)
        + compact_size_bytes(l.output_count) + outputs_bytes(l.outputs) + le_bytes(
        l.locktime as int,
        4,
    )
}

/// Base size as the weight computation counts it.
pub open spec fn base_size_spec(s: Seq<u8>, l: TxLayout) -> int {
    if l.has_witness {
        4 + compact_size_bytes(l.input_count).len() + inputs_base_size(l.inputs)
            + compact_size_bytes(l.output_count).len() + outputs_base_size(l.outputs) + 4
    } else {
        (l.end as u32) as int
    }
}

/// The serialization of a transaction without marker, flag and witness data:
/// the given version bytes, the input count, the inputs, the output count,
/// the outputs and the locktime, counts in canonical form.
pub open spec fn base_serialization(version_bytes: Seq<u8>, tx: SpecTransaction) -> Seq<u8> {
    version_bytes + compact_size_bytes(tx.inputs.len() as u64) + inputs_bytes(tx.inputs)
        + compact_size_bytes(tx.outputs.len() as u64) + outputs_bytes(tx.outputs) + le_bytes(
        tx.locktime as int,
        4,
    )
}

proof fn lemma_inputs_shape(s: Seq<u8>, p: int, n: nat)
    requires
        inputs_from(s, p, n) is Some,
    ensures
        inputs_from(s, p, n).unwrap().0.len() == n,
        forall|i: int|
            0 <= i < n ==> (#[trigger] inputs_from(s, p, n).unwrap().0[i]).prev_txid.len() == 32
                && inputs_from(s, p, n).unwrap().0[i].script_sig.len() <= s.len(),
    decreases n,
{
    if n > 0 {
        lemma_inputs_shape(s, p, (n - 1) as nat);
        let prev = inputs_from(s, p, (n - 1) as nat).unwrap().0;
        let all = inputs_from(s, p, n).unwrap().0;
        assert forall|i: int| 0 <= i < n - 1 implies all[i] == prev[i] by {}
    }
}

proof fn lemma_outputs_shape(s: Seq<u8>, p: int, n: nat)
    requires
        outputs_from(s, p, n) is Some,
    ensures
        outputs_from(s, p, n).unwrap().0.len() == n,
        forall|i: int|
            0 <= i < n ==> (#[trigger] outputs_from(s, p, n).unwrap().0[i]).script_pubkey.len()
                <= s.len(),
    decreases n,
{
    if n > 0 {
        lemma_outputs_shape(s, p, (n - 1) as nat);
        let prev = outputs_from(s, p, (n - 1) as nat).unwrap().0;
        let all = outputs_from(s, p, n).unwrap().0;
        assert forall|i: int| 0 <= i < n - 1 implies all[i] == prev[i] by {}
    }
}

proof fn lemma_inputs_base_size(ins: Seq<SpecTxInput>)
    requires
        forall|i: int|
            0 <= i < ins.len() ==> (#[trigger] ins[i]).prev_txid.len() == 32
                && ins[i].script_sig.len() <= u32::MAX,
    ensures
        inputs_base_size(ins) == inputs_bytes(ins).len(),
    decreases ins.len(),
{
    if ins.len() > 0 {
        assert(ins.last() == ins[ins.len() - 1]);
        lemma_inputs_base_size(ins.drop_last());
    }
}

proof fn lemma_outputs_base_size(outs: Seq<SpecTxOutput>)
    requires
        forall|i: int| 0 <= i < outs.len() ==> (#[trigger] outs[i]).script_pubkey.len() <= u32::MAX,
    ensures
        outputs_base_size(outs) == outputs_bytes(outs).len(),
    decreases outs.len(),
{
    if outs.len() > 0 {
        assert(outs.last() == outs[outs.len() - 1]);
        lemma_outputs_base_size(outs.drop_last());
    }
}

/// A segwit transaction (marker and flag after the version) parses to its
/// raw bytes, a txid that hashes its serialization without marker, flag and
/// witness data, a wtxid that hashes the raw bytes, and a weight of three
/// times the length of that serialization plus its size (for inputs that fit
/// a 32-bit address space).
pub proof fn lemma_segwit_reserialization(s: Seq<u8>)
    requires
        parse_tx_spec(s) is Some,
        has_witness_spec(s),
        s.len() <= u32::MAX,
    ensures
        ({
            let (tx, n) = parse_tx_spec(s).unwrap();
            let b = base_serialization(s.subrange(0, 4), tx);
            &&& n <= s.len()
            &&& tx.raw == s.subrange(0, n)
            &&& tx.size == n
            &&& tx.txid == hash256_spec(b)
            &&& tx.wtxid == hash256_spec(tx.raw)
            &&& tx.weight == 3 * b.len() + tx.size
        }),
{
    let l = tx_layout(s).unwrap();
    let (nin, c1) = compact_at(s, 6).unwrap();
    let (ins, p1) = inputs_from(s, 6 + c1, nin as nat).unwrap();
    let (nout, c2) = compact_at(s, p1).unwrap();
    let (outs, p2) = outputs_from(s, p1 + c2, nout as nat).unwrap();
    lemma_inputs_shape(s, 6 + c1, nin as nat);
    lemma_outputs_shape(s, p1 + c2, nout as nat);
    let (ws, p3) = witnesses_from(s, p2, ins.len()).unwrap();
    let wins = with_witnesses(ins, ws);
    assert(l.inputs == wins);
    assert forall|i: int| 0 <= i < wins.len() implies (#[trigger] wins[i]).prev_txid.len() == 32
        && wins[i].script_sig.len() <= u32::MAX by {
        assert(wins[i].prev_txid == ins[i].prev_txid);
        assert(wins[i].script_sig == ins[i].script_sig);
    }
    lemma_inputs_base_size(wins);
    lemma_outputs_base_size(outs);
    lemma_parse_tx_within(s);
    let tx = parse_tx_spec(s).unwrap().0;
    assert(tx.inputs.len() as u64 == nin);
    assert(tx.outputs.len() as u64 == nout);
    assert(base_serialization(s.subrange(0, 4), tx) == nonwitness_bytes(s, l));
}

/// The transaction that `parse_transaction` returns for `s`.
pub open spec fn tx_of_layout(s: Seq<u8>, l: TxLayout) -> SpecTransaction {
    let raw = s.subrange(0, l.end);
    let size = l.end as u32;
    SpecTransaction {
        version: i32_of_bits(le_u32_at(s, 0)),
        inputs: l.inputs,
        outputs: l.outputs,
        locktime: l.locktime,
        txid: if l.has_witness {
            hash256_spec(nonwitness_bytes(s, l))
        } else {
            hash256_spec(raw)
        },
        wtxid: hash256_spec(raw),
        raw: raw,
        size: size,
        weight: (base_size_spec(s, l) * 3 + size) as u32,
    }
}

/// What `parse_transaction` returns for `s`: the transaction and the bytes it
/// consumed; `None` where it does not return (the bytes run out, or the
/// weight does not fit in a `u32`).
pub open spec fn parse_tx_spec(s: Seq<u8>) -> Option<(SpecTransaction, int)> {
    match tx_layout(s) {
        None => None,
        Some(l) => if base_size_spec(s, l) * 3 + (l.end as u32) > u32::MAX {
            None
        } else {
            Some((tx_of_layout(s, l), l.end))
        },
    }
}

/// The header model of the first 80 bytes of `s`.
pub open spec fn header_spec(s: Seq<u8>) -> SpecBlockHeader {
    SpecBlockHeader {
        version: i32_of_bits(le_u32_at(s, 0)),
        prev_block: s.subrange(4, 36),
        merkle_root: s.subrange(36, 68),
        time: le_u32_at(s, 68) as u32,
        bits: le_u32_at(s, 72) as u32,
        nonce: le_u32_at(s, 76) as u32,
        hash: hash256_spec(s.subrange(0, 80)),
    }
}

/// `n` transactions from `p`, and the position after them.
pub open spec fn txs_from(s: Seq<u8>, p: int, n: nat) -> Option<(Seq<SpecTransaction>, int)>
    decreases n,
{
    if n == 0 {
        Some((seq![], p))
    } else {
        match txs_from(s, p, (n - 1) as nat) {
            None => None,
            Some((txs, q)) => if q < 0 || q > s.len() {
                None
            } else {
                match parse_tx_spec(s.subrange(q, s.len() as int)) {
                    None => None,
                    Some((tx, c)) => Some((txs.push(tx), q + c)),
                }
            },
        }
    }
}

/// What `parse_block` returns for `s`, or `None` where it does not return.
pub open spec fn parse_block_spec(s: Seq<u8>) -> Option<SpecBlock> {
    if s.len() < 80 {
        None
    } else {
        match compact_at(s, 80) {
            None => None,
            Some((n, c)) => match txs_from(s, 80 + c, n as nat) {
                None => None,
                Some((txs, _)) => Some(
                    SpecBlock {
                        header: header_spec(s),
                        transactions: txs,
                        raw_header: s.subrange(0, 80),
                    },
                ),
            },
        }
    }
}


// ---------------------------------------------------------------------------
// Parsing
// ---------------------------------------------------------------------------

/// Copies `data[start..start + 32]` into an array.
fn copy_hash(data: &[u8], start: usize) -> (r: [u8; 32])
    requires
        start + 32 <= data.len(),
    ensures
        r@ == data@.subrange(start as int, start + 32),
{
    let mut r = [0u8; 32];
    let mut i: usize = 0;
    while i < 32
        invariant
            i <= 32,
            start + 32 <= data.len(),
            forall|j: int| 0 <= j < i ==> r@[j] == data@[start + j],
        decreases 32 - i,
    {
        r[i] = data[start + i];
        i = i + 1;
    }
    assert(r@ =~= data@.subrange(start as int, start + 32));
    r
}

/// Copies `data[start..end]` into a new vector.
fn copy_range(data: &[u8], start: usize, end: usize) -> (r: Vec<u8>)
    requires
        start <= end <= data.len(),
    ensures
        r@ == data@.subrange(start as int, end as int),
{
    vstd::slice::slice_to_vec(vstd::slice::slice_subrange(data, start, end))
}

/// Reads the compact size at `p`.
fn compact_at_exec(data: &[u8], p: usize) -> (res: Option<(u64, usize)>)
    requires
        p <= data.len(),
    ensures
        match res {
            Some((v, c)) => compact_at(data@, p as int) == Some((v, c as int)) && p + c
                <= data.len(),
            None => compact_at(data@, p as int) is None,
        },
{
    let rest = vstd::slice::slice_subrange(data, p, data.len());
    try_read_compact_size(rest)
}

/// Reads a length-prefixed byte string at `p`.
fn var_bytes_exec(data: &[u8], p: usize) -> (res: Option<(Vec<u8>, usize)>)
    requires
        p <= data.len(),
    ensures
        match res {
            Some((b, q)) => var_bytes_at(data@, p as int) == Some((b@, q as int)) && q
                <= data.len(),
            None => var_bytes_at(data@, p as int) is None,
        },
{
    match compact_at_exec(data, p) {
        None => None,
        Some((len, c)) => {
            let q = p + c;
            if len > (data.len() - q) as u64 {
                None
            } else {
                let end = q + len as usize;
                Some((copy_range(data, q, end), end))
            }
        },
    }
}

/// Parses one input (without witness) at `p`.
fn input_exec(data: &[u8], p: usize) -> (res: Option<(TxInput, usize)>)
    requires
        p <= data.len(),
    ensures
        match res {
            Some((i, q)) => input_at(data@, p as int) == Some((i@, q as int)) && q <= data.len()
                && i.witness@.len() == 0,
            None => input_at(data@, p as int) is None,
        },
{
    if data.len() - p < 36 {
        return None;
    }
    let prev_txid = copy_hash(data, p);
    let prev_vout = read_u32_le(data, p + 32);
    match var_bytes_exec(data, p + 36) {
        None => None,
        Some((script_sig, r)) => {
            if data.len() - r < 4 {
                None
            } else {
                let sequence = read_u32_le(data, r);
                let input = TxInput {
                    prev_txid,
                    prev_vout,
                    script_sig,
                    sequence,
                    witness: Vec::new(),
                };
                assert(input@.witness =~= Seq::<Seq<u8>>::empty());
                Some((input, r + 4))
            }
        },
    }
}

/// Parses one output at `p`.
fn output_exec(data: &[u8], p: usize) -> (res: Option<(TxOutput, usize)>)
    requires
        p <= data.len(),
    ensures
        match res {
            Some((o, q)) => output_at(data@, p as int) == Some((o@, q as int)) && q <= data.len(),
            None => output_at(data@, p as int) is None,
        },
{
    if data.len() - p < 8 {
        return None;
    }
    let value = read_u64_le(data, p);
    match var_bytes_exec(data, p + 8) {
        None => None,
        Some((script_pubkey, r)) => Some((TxOutput { value, script_pubkey }, r)),
    }
}

proof fn lemma_inputs_none(s: Seq<u8>, p: int, k: nat, n: nat)
    requires
        k <= n,
        inputs_from(s, p, k) is None,
    ensures
        inputs_from(s, p, n) is None,
    decreases n,
{
    if n > k {
        lemma_inputs_none(s, p, k, (n - 1) as nat);
    }
}

proof fn lemma_outputs_none(s: Seq<u8>, p: int, k: nat, n: nat)
    requires
        k <= n,
        outputs_from(s, p, k) is None,
    ensures
        outputs_from(s, p, n) is None,
    decreases n,
{
    if n > k {
        lemma_outputs_none(s, p, k, (n - 1) as nat);
    }
}

proof fn lemma_items_none(s: Seq<u8>, p: int, k: nat, n: nat)
    requires
        k <= n,
        items_from(s, p, k) is None,
    ensures
        items_from(s, p, n) is None,
    decreases n,
{
    if n > k {
        lemma_items_none(s, p, k, (n - 1) as nat);
    }
}

proof fn lemma_witnesses_none(s: Seq<u8>, p: int, k: nat, n: nat)
    requires
        k <= n,
        witnesses_from(s, p, k) is None,
    ensures
        witnesses_from(s, p, n) is None,
    decreases n,
{
    if n > k {
        lemma_witnesses_none(s, p, k, (n - 1) as nat);
    }
}

proof fn lemma_txs_none(s: Seq<u8>, p: int, k: nat, n: nat)
    requires
        k <= n,
        txs_from(s, p, k) is None,
    ensures
        txs_from(s, p, n) is None,
    decreases n,
{
    if n > k {
        lemma_txs_none(s, p, k, (n - 1) as nat);
    }
}

/// Parses `n` inputs from `p`.
fn inputs_exec(data: &[u8], p: usize, n: u64) -> (res: Option<(Vec<TxInput>, usize)>)
    requires
        p <= data.len(),
    ensures
        match res {
            Some((v, q)) => inputs_from(data@, p as int, n as nat) == Some(
                (v@.map_values(|i: TxInput| i@), q as int),
            ) && q <= data.len() && forall|j: int|
                0 <= j < v@.len() ==> (#[trigger] v@[j]).witness@.len() == 0,
            None => inputs_from(data@, p as int, n as nat) is None,
        },
{
    let mut v: Vec<TxInput> = Vec::new();
    let mut off = p;
    let mut i: u64 = 0;
    while i < n
        invariant
            i <= n,
            off <= data.len(),
            inputs_from(data@, p as int, i as nat) == Some(
                (v@.map_values(|x: TxInput| x@), off as int),
            ),
            forall|j: int| 0 <= j < v@.len() ==> (#[trigger] v@[j]).witness@.len() == 0,
        decreases n - i,
    {
        match input_exec(data, off) {
            None => {
                proof {
                    lemma_inputs_none(data@, p as int, (i + 1) as nat, n as nat);
                }
                return None;
            },
            Some((input, q)) => {
                let ghost old_v = v@;
                v.push(input);
                off = q;
                i = i + 1;
                assert(v@.map_values(|x: TxInput| x@) =~= old_v.map_values(|x: TxInput| x@).push(
                    input@,
                ));
            },
        }
    }
    Some((v, off))
}

/// Parses `n` outputs from `p`.
fn outputs_exec(data: &[u8], p: usize, n: u64) -> (res: Option<(Vec<TxOutput>, usize)>)
    requires
        p <= data.len(),
    ensures
        match res {
            Some((v, q)) => outputs_from(data@, p as int, n as nat) == Some(
                (v@.map_values(|o: TxOutput| o@), q as int),
            ) && q <= data.len(),
            None => outputs_from(data@, p as int, n as nat) is None,
        },
{
    let mut v: Vec<TxOutput> = Vec::new();
    let mut off = p;
    let mut i: u64 = 0;
    while i < n
        invariant
            i <= n,
            off <= data.len(),
            outputs_from(data@, p as int, i as nat) == Some(
                (v@.map_values(|x: TxOutput| x@), off as int),
            ),
        decreases n - i,
    {
        match output_exec(data, off) {
            None => {
                proof {
                    lemma_outputs_none(data@, p as int, (i + 1) as nat, n as nat);
                }
                return None;
            },
            Some((output, q)) => {
                let ghost old_v = v@;
                v.push(output);
                off = q;
                i = i + 1;
                assert(v@.map_values(|x: TxOutput| x@) =~= old_v.map_values(|x: TxOutput| x@).push(
                    output@,
                ));
            },
        }
    }
    Some((v, off))
}

/// Parses one witness stack at `p`.
fn witness_exec(data: &[u8], p: usize) -> (res: Option<(Vec<Vec<u8>>, usize)>)
    requires
        p <= data.len(),
    ensures
        match res {
            Some((w, q)) => witness_at(data@, p as int) == Some((bytes_list_view(w@), q as int))
                && q <= data.len(),
            None => witness_at(data@, p as int) is None,
        },
{
    match compact_at_exec(data, p) {
        None => None,
        Some((m, c)) => {
            let start = p + c;
            let mut items: Vec<Vec<u8>> = Vec::new();
            let mut off = start;
            let mut i: u64 = 0;
            while i < m
                invariant
                    i <= m,
                    off <= data.len(),
                    start == p + c,
                    compact_at(data@, p as int) == Some((m, c as int)),
                    items_from(data@, start as int, i as nat) == Some(
                        (bytes_list_view(items@), off as int),
                    ),
                decreases m - i,
            {
                match var_bytes_exec(data, off) {
                    None => {
                        proof {
                            lemma_items_none(data@, start as int, (i + 1) as nat, m as nat);
                        }
                        return None;
                    },
                    Some((item, q)) => {
                        let ghost old_items = items@;
                        items.push(item);
                        off = q;
                        i = i + 1;
                        assert(bytes_list_view(items@) =~= bytes_list_view(old_items).push(item@));
                    },
                }
            }
            Some((items, off))
        },
    }
}

/// Parses `k` witness stacks from `p`.
fn witnesses_exec(data: &[u8], p: usize, k: usize) -> (res: Option<(Vec<Vec<Vec<u8>>>, usize)>)
    requires
        p <= data.len(),
    ensures
        match res {
            Some((ws, q)) => witnesses_from(data@, p as int, k as nat) == Some(
                (ws@.map_values(|w: Vec<Vec<u8>>| bytes_list_view(w@)), q as int),
            ) && q <= data.len() && ws@.len() == k,
            None => witnesses_from(data@, p as int, k as nat) is None,
        },
{
    let mut ws: Vec<Vec<Vec<u8>>> = Vec::new();
    let mut off = p;
    let mut i: usize = 0;
    while i < k
        invariant
            i <= k,
            off <= data.len(),
            ws@.len() == i,
            witnesses_from(data@, p as int, i as nat) == Some(
                (ws@.map_values(|w: Vec<Vec<u8>>| bytes_list_view(w@)), off as int),
            ),
        decreases k - i,
    {
        match witness_exec(data, off) {
            None => {
                proof {
                    lemma_witnesses_none(data@, p as int, (i + 1) as nat, k as nat);
                }
                return None;
            },
            Some((w, q)) => {
                let ghost old_ws = ws@;
                ws.push(w);
                off = q;
                i = i + 1;
                assert(ws@.map_values(|w: Vec<Vec<u8>>| bytes_list_view(w@)) =~= old_ws.map_values(
                    |w: Vec<Vec<u8>>| bytes_list_view(w@),
                ).push(bytes_list_view(w@)));
            },
        }
    }
    Some((ws, off))
}


/// Puts the witness stacks `ws` on the inputs, in order.
fn attach_witnesses(inputs: &mut Vec<TxInput>, ws: Vec<Vec<Vec<u8>>>)
    requires
        old(inputs)@.len() == ws@.len(),
    ensures
        final(inputs)@.map_values(|i: TxInput| i@) == with_witnesses(
            old(inputs)@.map_values(|i: TxInput| i@),
            ws@.map_values(|w: Vec<Vec<u8>>| bytes_list_view(w@)),
        ),
{
    let ghost ins0 = old(inputs)@.map_values(|i: TxInput| i@);
    let ghost ws0 = ws@.map_values(|w: Vec<Vec<u8>>| bytes_list_view(w@));
    let ghost target = with_witnesses(ins0, ws0);
    let mut ws = ws;
    let mut k: usize = ws.len();
    while k > 0
        invariant
            k <= inputs@.len(),
            inputs@.len() == ins0.len(),
            ws@.len() == k,
            ins0.len() == ws0.len(),
            target == with_witnesses(ins0, ws0),
            forall|j: int| 0 <= j < k ==> bytes_list_view((#[trigger] ws@[j])@) == ws0[j],
            forall|j: int| 0 <= j < k ==> (#[trigger] inputs@[j])@ == ins0[j],
            forall|j: int| k <= j < inputs@.len() ==> (#[trigger] inputs@[j])@ == target[j],
        decreases k,
    {
        let w = ws.pop().unwrap();
        k = k - 1;
        assert(bytes_list_view(w@) == ws0[k as int]);
        inputs[k].witness = w;
        assert(inputs@[k as int]@ == target[k as int]);
    }
    assert(inputs@.map_values(|i: TxInput| i@) =~= target);
}

/// Appends the non-witness serialization of `input`.
fn append_input_bytes(v: &mut Vec<u8>, input: &TxInput)
    ensures
        final(v)@ == old(v)@ + input_bytes(input@),
{
    append_bytes(v, input.prev_txid.as_slice());
    push_le(v, input.prev_vout as u64, 4);
    let mut len_bytes = encode_compact_size(input.script_sig.len() as u64);
    v.append(&mut len_bytes);
    append_bytes(v, input.script_sig.as_slice());
    push_le(v, input.sequence as u64, 4);
    assert(final(v)@ =~= old(v)@ + input_bytes(input@));
}

/// Appends the serialization of `output`.
fn append_output_bytes(v: &mut Vec<u8>, output: &TxOutput)
    ensures
        final(v)@ == old(v)@ + output_bytes(output@),
{
    push_le(v, output.value, 8);
    let mut len_bytes = encode_compact_size(output.script_pubkey.len() as u64);
    v.append(&mut len_bytes);
    append_bytes(v, output.script_pubkey.as_slice());
    assert(final(v)@ =~= old(v)@ + output_bytes(output@));
}

/// The serialization without witness data.
fn nonwitness_serialization(
    version_bytes: &[u8],
    input_count: u64,
    inputs: &Vec<TxInput>,
    output_count: u64,
    outputs: &Vec<TxOutput>,
    locktime: u32,
) -> (v: Vec<u8>)
    ensures
        v@ == version_bytes@ + compact_size_bytes(input_count) + inputs_bytes(
            inputs@.map_values(|i: TxInput| i@),
        ) + compact_size_bytes(output_count) + outputs_bytes(
            outputs@.map_values(|o: TxOutput| o@),
        ) + le_bytes(locktime as int, 4),
{
    let ghost ins = inputs@.map_values(|i: TxInput| i@);
    let ghost outs = outputs@.map_values(|o: TxOutput| o@);
    let mut v: Vec<u8> = Vec::new();
    append_bytes(&mut v, version_bytes);
    let mut cs = encode_compact_size(input_count);
    v.append(&mut cs);
    let ghost head = v@;
    let mut i: usize = 0;
    while i < inputs.len()
        invariant
            i <= inputs@.len(),
            ins == inputs@.map_values(|x: TxInput| x@),
            v@ == head + inputs_bytes(ins.subrange(0, i as int)),
        decreases inputs@.len() - i,
    {
        append_input_bytes(&mut v, &inputs[i]);
        assert(ins.subrange(0, i + 1).drop_last() =~= ins.subrange(0, i as int));
        i = i + 1;
        assert(v@ =~= head + inputs_bytes(ins.subrange(0, i as int)));
    }
    assert(ins.subrange(0, inputs@.len() as int) =~= ins);
    let mut cs2 = encode_compact_size(output_count);
    v.append(&mut cs2);
    let ghost mid = v@;
    let mut j: usize = 0;
    while j < outputs.len()
        invariant
            j <= outputs@.len(),
            outs == outputs@.map_values(|x: TxOutput| x@),
            v@ == mid + outputs_bytes(outs.subrange(0, j as int)),
        decreases outputs@.len() - j,
    {
        append_output_bytes(&mut v, &outputs[j]);
        assert(outs.subrange(0, j + 1).drop_last() =~= outs.subrange(0, j as int));
        j = j + 1;
        assert(v@ =~= mid + outputs_bytes(outs.subrange(0, j as int)));
    }
    assert(outs.subrange(0, outputs@.len() as int) =~= outs);
    push_le(&mut v, locktime as u64, 4);
    assert(v@ =~= version_bytes@ + compact_size_bytes(input_count) + inputs_bytes(ins)
        + compact_size_bytes(output_count) + outputs_bytes(outs) + le_bytes(locktime as int, 4));
    v
}

/// Base size of a segwit transaction as the weight computation counts it.
fn witness_base_size(
    input_count: u64,
    inputs: &Vec<TxInput>,
    output_count: u64,
    outputs: &Vec<TxOutput>,
) -> (r: u128)
    ensures
        r == 4 + compact_size_bytes(input_count).len() + inputs_base_size(
            inputs@.map_values(|i: TxInput| i@),
        ) + compact_size_bytes(output_count).len() + outputs_base_size(
            outputs@.map_values(|o: TxOutput| o@),
        ) + 4,
{
    let ghost ins = inputs@.map_values(|i: TxInput| i@);
    let ghost outs = outputs@.map_values(|o: TxOutput| o@);
    let mut acc: u128 = 4 + compact_size_len(input_count) as u128;
    let mut i: usize = 0;
    while i < inputs.len()
        invariant
            i <= inputs@.len(),
            ins == inputs@.map_values(|x: TxInput| x@),
            acc == 4 + compact_size_bytes(input_count).len() + inputs_base_size(
                ins.subrange(0, i as int),
            ),
            acc <= 13 + i * 0x1_0000_0100,
        decreases inputs@.len() - i,
    {
        let len = inputs[i].script_sig.len();
        acc = acc + 36 + compact_size_len(len as u64) as u128 + (len as u32) as u128 + 4;
        assert(ins.subrange(0, i + 1).drop_last() =~= ins.subrange(0, i as int));
        i = i + 1;
    }
    assert(ins.subrange(0, inputs@.len() as int) =~= ins);
    acc = acc + compact_size_len(output_count) as u128;
    let ghost mid = acc;
    let mut j: usize = 0;
    while j < outputs.len()
        invariant
            j <= outputs@.len(),
            outs == outputs@.map_values(|x: TxOutput| x@),
            mid <= 22 + 0xffff_ffff_ffff_ffff * 0x1_0000_0100,
            acc == mid + outputs_base_size(outs.subrange(0, j as int)),
            acc <= mid + j * 0x1_0000_0100,
        decreases outputs@.len() - j,
    {
        let len = outputs[j].script_pubkey.len();
        acc = acc + 8 + compact_size_len(len as u64) as u128 + (len as u32) as u128;
        assert(outs.subrange(0, j + 1).drop_last() =~= outs.subrange(0, j as int));
        j = j + 1;
    }
    assert(outs.subrange(0, outputs@.len() as int) =~= outs);
    acc + 4
}


/// The pieces of a transaction's wire layout, as parsed.
struct LayoutParts {
    has_witness: bool,
    input_count: u64,
    inputs: Vec<TxInput>,
    output_count: u64,
    outputs: Vec<TxOutput>,
    locktime: u32,
    end: usize,
}

impl LayoutParts {
    spec fn model(&self) -> TxLayout {
        TxLayout {
            has_witness: self.has_witness,
            input_count: self.input_count,
            output_count: self.output_count,
            inputs: self.inputs@.map_values(|i: TxInput| i@),
            outputs: self.outputs@.map_values(|o: TxOutput| o@),
            locktime: self.locktime,
            end: self.end as int,
        }
    }
}

proof fn lemma_no_witnesses(v: Seq<TxInput>)
    requires
        forall|j: int| 0 <= j < v.len() ==> (#[trigger] v[j]).witness@.len() == 0,
    ensures
        ({
            let ins = v.map_values(|i: TxInput| i@);
            with_witnesses(ins, Seq::new(ins.len(), |i: int| Seq::<Seq<u8>>::empty())) == ins
        }),
{
    let ins = v.map_values(|i: TxInput| i@);
    let ws = Seq::new(ins.len(), |i: int| Seq::<Seq<u8>>::empty());
    assert forall|j: int| 0 <= j < ins.len() implies #[trigger] with_witnesses(ins, ws)[j]
        == ins[j] by {
        assert(v[j].witness@.len() == 0);
        assert(ins[j].witness =~= Seq::<Seq<u8>>::empty());
    }
    assert(with_witnesses(ins, ws) =~= ins);
}

/// Parses the layout of the transaction at the front of `data`.
#[verifier::rlimit(40)]
fn tx_layout_exec(data: &[u8]) -> (res: Option<LayoutParts>)
    ensures
        match res {
            Some(l) => tx_layout(data@) == Some(l.model()) && l.end <= data.len(),
            None => tx_layout(data@) is None,
        },
{
    if data.len() < 5 {
        return None;
    }
    if data[4] == 0 && data.len() < 6 {
        return None;
    }
    let has_witness = data[4] == 0 && data[5] != 0;
    let p0: usize = if has_witness { 6 } else { 4 };
    let (input_count, c1) = match compact_at_exec(data, p0) {
        None => return None,
        Some(r) => r,
    };
    let (mut inputs, p1) = match inputs_exec(data, p0 + c1, input_count) {
        None => return None,
        Some(r) => r,
    };
    let (output_count, c2) = match compact_at_exec(data, p1) {
        None => return None,
        Some(r) => r,
    };
    let (outputs, p2) = match outputs_exec(data, p1 + c2, output_count) {
        None => return None,
        Some(r) => r,
    };
    let ghost ins = inputs@.map_values(|i: TxInput| i@);
    let p3 = if has_witness {
        match witnesses_exec(data, p2, inputs.len()) {
            None => return None,
            Some((ws, p3)) => {
                attach_witnesses(&mut inputs, ws);
                p3
            },
        }
    } else {
        proof {
            lemma_no_witnesses(inputs@);
        }
        p2
    };
    if data.len() - p3 < 4 {
        return None;
    }
    let locktime = read_u32_le(data, p3);
    let parts = LayoutParts {
        has_witness,
        input_count,
        inputs,
        output_count,
        outputs,
        locktime,
        end: p3 + 4,
    };
    Some(parts)
}

/// Parses a transaction, or `None` where `parse_transaction` would not return.
pub fn try_parse_transaction(data: &[u8]) -> (res: Option<(Transaction, usize)>)
    ensures
        match res {
            Some((tx, n)) => parse_tx_spec(data@) == Some((tx@, n as int)),
            None => parse_tx_spec(data@) is None,
        },
{
    let parts = match tx_layout_exec(data) {
        None => return None,
        Some(l) => l,
    };
    let ghost l = parts.model();
    let end = parts.end;
    let raw = copy_range(data, 0, end);
    let size = end as u32;
    let base: u128 = if parts.has_witness {
        witness_base_size(parts.input_count, &parts.inputs, parts.output_count, &parts.outputs)
    } else {
        size as u128
    };
    assert(base == base_size_spec(data@, l));
    if base > 0xffff_ffff || base * 3 + size as u128 > 0xffff_ffff {
        return None;
    }
    let weight = (base * 3 + size as u128) as u32;
    let version = read_i32_le(data, 0);
    let txid = if parts.has_witness {
        let nosw = nonwitness_serialization(
            vstd::slice::slice_subrange(data, 0, 4),
            parts.input_count,
            &parts.inputs,
            parts.output_count,
            &parts.outputs,
            parts.locktime,
        );
        hash256(nosw.as_slice())
    } else {
        hash256(raw.as_slice())
    };
    let wtxid = hash256(raw.as_slice());
    let tx = Transaction {
        version,
        inputs: parts.inputs,
        outputs: parts.outputs,
        locktime: parts.locktime,
        txid,
        wtxid,
        raw,
        size,
        weight,
    };
    assert(tx@ == tx_of_layout(data@, l));
    Some((tx, end))
}

/// Parse a transaction from raw bytes.
/// Returns (Transaction, bytes_consumed).
pub fn parse_transaction(data: &[u8]) -> (res: (Transaction, usize))
    requires
        parse_tx_spec(data@) is Some,
    ensures
        parse_tx_spec(data@) == Some((res.0@, res.1 as int)),
{
    try_parse_transaction(data).unwrap()
}


/// Parse a block header from raw bytes.
pub fn parse_header(data: &[u8]) -> (h: BlockHeader)
    requires
        data@.len() >= 80,
    ensures
        h@ == header_spec(data@),
{
    let version = read_i32_le(data, 0);
    let prev_block = copy_hash(data, 4);
    let merkle_root = copy_hash(data, 36);
    let time = read_u32_le(data, 68);
    let bits = read_u32_le(data, 72);
    let nonce = read_u32_le(data, 76);
    let hash = hash256(vstd::slice::slice_subrange(data, 0, 80));
    BlockHeader { version, prev_block, merkle_root, time, bits, nonce, hash }
}

/// Parses `n` transactions from `p`.
fn txs_exec(data: &[u8], p: usize, n: u64) -> (res: Option<(Vec<Transaction>, usize)>)
    requires
        p <= data.len(),
    ensures
        match res {
            Some((v, q)) => txs_from(data@, p as int, n as nat) == Some(
                (v@.map_values(|t: Transaction| t@), q as int),
            ),
            None => txs_from(data@, p as int, n as nat) is None,
        },
{
    let mut v: Vec<Transaction> = Vec::new();
    let mut off = p;
    let mut i: u64 = 0;
    while i < n
        invariant
            i <= n,
            off <= data.len(),
            txs_from(data@, p as int, i as nat) == Some(
                (v@.map_values(|t: Transaction| t@), off as int),
            ),
        decreases n - i,
    {
        let rest = vstd::slice::slice_subrange(data, off, data.len());
        match try_parse_transaction(rest) {
            None => {
                proof {
                    lemma_txs_none(data@, p as int, (i + 1) as nat, n as nat);
                }
                return None;
            },
            Some((tx, consumed)) => {
                proof {
                    let (_, c) = parse_tx_spec(rest@).unwrap();
                    lemma_parse_tx_within(rest@);
                }
                let ghost old_v = v@;
                v.push(tx);
                off = off + consumed;
                i = i + 1;
                assert(v@.map_values(|t: Transaction| t@) =~= old_v.map_values(
                    |t: Transaction| t@,
                ).push(tx@));
            },
        }
    }
    Some((v, off))
}

/// A parsed transaction never extends past its input.
pub proof fn lemma_parse_tx_within(s: Seq<u8>)
    requires
        parse_tx_spec(s) is Some,
    ensures
        0 < parse_tx_spec(s).unwrap().1 <= s.len(),
        parse_tx_spec(s).unwrap().0.raw == s.subrange(0, parse_tx_spec(s).unwrap().1),
{
}

/// Parses a block, or `None` where `parse_block` would not return.
pub fn try_parse_block(data: &[u8]) -> (res: Option<Block>)
    ensures
        match res {
            Some(b) => parse_block_spec(data@) == Some(b@),
            None => parse_block_spec(data@) is None,
        },
{
    if data.len() < 80 {
        return None;
    }
    let header = parse_header(data);
    let raw_header = copy_range(data, 0, 80);
    let (tx_count, consumed) = match compact_at_exec(data, 80) {
        None => return None,
        Some(r) => r,
    };
    let transactions = match txs_exec(data, 80 + consumed, tx_count) {
        None => return None,
        Some((txs, _)) => txs,
    };
    Some(Block { header, transactions, raw_header })
}

/// Parse a full block from raw bytes.
pub fn parse_block(data: &[u8]) -> (b: Block)
    requires
        parse_block_spec(data@) is Some,
    ensures
        parse_block_spec(data@) == Some(b@),
{
    try_parse_block(data).unwrap()
}



/// The concatenation of byte strings, in order.
pub open spec fn concat_all(ss: Seq<Seq<u8>>) -> Seq<u8>
    decreases ss.len(),
{
    if ss.len() == 0 {
        seq![]
    } else {
        concat_all(ss.drop_last()) + ss.last()
    }
}

/// `t` is one whole transaction serialization: it parses, consuming all of it.
pub open spec fn whole_tx(t: Seq<u8>) -> bool {
    parse_tx_spec(t) is Some && parse_tx_spec(t).unwrap().1 == t.len()
}

/// The transaction that a whole serialization parses to.
pub open spec fn tx_of_bytes(t: Seq<u8>) -> SpecTransaction {
    parse_tx_spec(t).unwrap().0
}

proof fn lemma_concat_all_split(ss: Seq<Seq<u8>>, j: int)
    requires
        0 <= j <= ss.len(),
    ensures
        concat_all(ss) == concat_all(ss.subrange(0, j)) + concat_all(
            ss.subrange(j, ss.len() as int),
        ),
    decreases ss.len(),
{
    if j == ss.len() {
        assert(ss.subrange(0, j) =~= ss);
        assert(ss.subrange(j, ss.len() as int) =~= Seq::<Seq<u8>>::empty());
        assert(concat_all(ss) + Seq::<u8>::empty() =~= concat_all(ss));
    } else {
        let d = ss.drop_last();
        lemma_concat_all_split(d, j);
        assert(d.subrange(0, j) =~= ss.subrange(0, j));
        let r = ss.subrange(j, ss.len() as int);
        assert(r.drop_last() =~= d.subrange(j, d.len() as int));
        assert(r.last() == ss.last());
        assert(concat_all(ss) =~= concat_all(ss.subrange(0, j)) + concat_all(r));
    }
}

proof fn lemma_slice_of_concat(data: Seq<u8>, p0: int, a: Seq<u8>, x: Seq<u8>, b: Seq<u8>)
    requires
        0 <= p0,
        p0 + (a + (x + b)).len() <= data.len(),
        data.subrange(p0, p0 + (a + (x + b)).len()) == a + (x + b),
    ensures
        data.subrange(p0 + a.len(), data.len() as int).subrange(0, x.len() as int) == x,
{
    let c = a + (x + b);
    let u = data.subrange(p0 + a.len(), data.len() as int);
    assert forall|k: int| 0 <= k < x.len() implies u[k] == x[k] by {
        assert(data.subrange(p0, p0 + c.len())[a.len() + k] == c[a.len() + k]);
    }
    assert(u.subrange(0, x.len() as int) =~= x);
}

proof fn lemma_concat_parts(ss: Seq<Seq<u8>>, i: int)
    requires
        0 <= i < ss.len(),
    ensures
        concat_all(ss) == concat_all(ss.subrange(0, i)) + (ss[i] + concat_all(
            ss.subrange(i + 1, ss.len() as int),
        )),
        concat_all(ss.subrange(0, i + 1)) == concat_all(ss.subrange(0, i)) + ss[i],
{
    lemma_concat_all_split(ss, i);
    let r = ss.subrange(i, ss.len() as int);
    lemma_concat_all_split(r, 1);
    let r1 = r.subrange(0, 1);
    assert(r1.drop_last() =~= Seq::<Seq<u8>>::empty());
    assert(concat_all(r1.drop_last()) == Seq::<u8>::empty());
    assert(r1.last() == ss[i]);
    assert(concat_all(r1) =~= ss[i]);
    assert(r.subrange(1, r.len() as int) =~= ss.subrange(i + 1, ss.len() as int));
    assert(ss.subrange(0, i + 1).drop_last() =~= ss.subrange(0, i));
}

proof fn lemma_txs_step(
    data: Seq<u8>,
    p0: int,
    j: nat,
    txs: Seq<SpecTransaction>,
    q: int,
    t: SpecTransaction,
    c: int,
)
    requires
        txs_from(data, p0, j) == Some((txs, q)),
        0 <= q <= data.len(),
        parse_tx_spec(data.subrange(q, data.len() as int)) == Some((t, c)),
    ensures
        txs_from(data, p0, j + 1) == Some((txs.push(t), q + c)),
{
}

#[verifier::rlimit(100)]
#[verifier::spinoff_prover]
proof fn lemma_txs_composed(data: Seq<u8>, p0: int, ss: Seq<Seq<u8>>, j: nat)
    requires
        0 <= p0,
        p0 + concat_all(ss).len() <= data.len(),
        data.subrange(p0, p0 + concat_all(ss).len()) == concat_all(ss),
        forall|i: int| 0 <= i < ss.len() ==> whole_tx(#[trigger] ss[i]),
        j <= ss.len(),
    ensures
        txs_from(data, p0, j) == Some(
            (
                ss.subrange(0, j as int).map_values(|t: Seq<u8>| tx_of_bytes(t)),
                p0 + concat_all(ss.subrange(0, j as int)).len(),
            ),
        ),
    decreases j,
{
    let f = |t: Seq<u8>| tx_of_bytes(t);
    if j == 0 {
        assert(ss.subrange(0, 0).map_values(f) =~= Seq::<SpecTransaction>::empty());
    } else {
        let i = j - 1;
        lemma_txs_composed(data, p0, ss, (j - 1) as nat);
        let a = concat_all(ss.subrange(0, i));
        let q = p0 + a.len();
        let x = ss[i];
        let b = concat_all(ss.subrange(i + 1, ss.len() as int));
        lemma_concat_parts(ss, i);
        lemma_slice_of_concat(data, p0, a, x, b);
        let u = data.subrange(q, data.len() as int);
        assert(whole_tx(x));
        lemma_parse_tx_extend(u, x.len() as int);
        lemma_txs_step(
            data,
            p0,
            (j - 1) as nat,
            ss.subrange(0, i).map_values(f),
            q,
            tx_of_bytes(x),
            x.len() as int,
        );
        assert(ss.subrange(0, j as int).map_values(f) =~= ss.subrange(0, i).map_values(f).push(
            tx_of_bytes(x),
        ));
    }
}

/// A block laid out as an 80-byte header, the transaction count in canonical
/// form, then whole transaction serializations one after another (and any
/// bytes after them) parses to that header and to those transactions, each
/// as it parses alone.
pub proof fn lemma_parse_block_composed(hdr: Seq<u8>, ss: Seq<Seq<u8>>, rest: Seq<u8>)
    requires
        hdr.len() == 80,
        ss.len() <= u64::MAX,
        forall|i: int| 0 <= i < ss.len() ==> whole_tx(#[trigger] ss[i]),
    ensures
        ({
            let data = hdr + compact_size_bytes(ss.len() as u64) + concat_all(ss) + rest;
            parse_block_spec(data) == Some(
                SpecBlock {
                    header: header_spec(hdr),
                    transactions: ss.map_values(|t: Seq<u8>| tx_of_bytes(t)),
                    raw_header: hdr,
                },
            )
        }),
{
    let k = ss.len() as u64;
    let cs = compact_size_bytes(k);
    let body = concat_all(ss);
    let data = hdr + cs + body + rest;
    let l: int = 80 + cs.len() as int;
    lemma_compact_size_roundtrip(k);
    assert(data.subrange(0, l).subrange(80, l) =~= cs);
    lemma_compact_extend(data, 80, l);
    assert(compact_at(data, 80) == Some((k, cs.len() as int)));
    assert(data.subrange(l, l + body.len() as int) =~= body);
    lemma_txs_composed(data, l, ss, ss.len());
    assert(ss.subrange(0, ss.len() as int) =~= ss);
    assert(data.subrange(0, 80) =~= hdr);
    assert(header_spec(data) == header_spec(hdr)) by {
        assert(data.subrange(4, 36) =~= hdr.subrange(4, 36));
        assert(data.subrange(36, 68) =~= hdr.subrange(36, 68));
        assert(hdr.subrange(0, 80) =~= hdr);
    }
}

// ---------------------------------------------------------------------------
// Hex encoding
// ---------------------------------------------------------------------------

/// The lowercase hex digit for `n < 16`.
pub open spec fn hex_digit(n: int) -> char {
    if n < 10 {
        (n + 48) as char
    } else {
        (n + 87) as char
    }
}

/// Lowercase hex of `b`, two digits per byte, in order.
pub open spec fn hex_spec(b: Seq<u8>) -> Seq<char>
    decreases b.len(),
{
    if b.len() == 0 {
        seq![]
    } else {
        hex_spec(b.drop_last()) + seq![hex_digit(b.last() as int / 16), hex_digit(b.last() as int % 16)]
    }
}

/// `String::push`: appends the character `c` to `s`.
#[verifier::external_body]
pub(crate) fn push_char(s: &mut String, c: char)
    ensures
        final(s)@ == old(s)@.push(c),
{
    s.push(c);
}

fn hex_digit_exec(n: u8) -> (c: char)
    requires
        n < 16,
    ensures
        c == hex_digit(n as int),
{
    if n < 10 {
        (n + 48) as char
    } else {
        (n + 87) as char
    }
}

/// Hex-encode bytes (lowercase).
pub fn to_hex(bytes: &[u8]) -> (s: String)
    ensures
        s@ == hex_spec(bytes@),
{
    let mut s = String::new();
    let mut i: usize = 0;
    while i < bytes.len()
        invariant
            i <= bytes@.len(),
            s@ == hex_spec(bytes@.subrange(0, i as int)),
        decreases bytes@.len() - i,
    {
        let b = bytes[i];
        push_char(&mut s, hex_digit_exec(b / 16));
        push_char(&mut s, hex_digit_exec(b % 16));
        assert(bytes@.subrange(0, i + 1).drop_last() =~= bytes@.subrange(0, i as int));
        i = i + 1;
        assert(s@ =~= hex_spec(bytes@.subrange(0, i as int)));
    }
    assert(bytes@.subrange(0, bytes@.len() as int) =~= bytes@);
    s
}

/// Hex-encode bytes in reverse order (for display hashes).
pub fn to_hex_rev(bytes: &[u8]) -> (s: String)
    ensures
        s@ == hex_spec(bytes@.reverse()),
{
    let ghost r = bytes@.reverse();
    let mut s = String::new();
    let mut i: usize = 0;
    while i < bytes.len()
        invariant
            i <= bytes@.len(),
            r == bytes@.reverse(),
            s@ == hex_spec(r.subrange(0, i as int)),
        decreases bytes@.len() - i,
    {
        let b = bytes[bytes.len() - 1 - i];
        assert(b == r[i as int]);
        push_char(&mut s, hex_digit_exec(b / 16));
        push_char(&mut s, hex_digit_exec(b % 16));
        assert(r.subrange(0, i + 1).drop_last() =~= r.subrange(0, i as int));
        i = i + 1;
        assert(s@ =~= hex_spec(r.subrange(0, i as int)));
    }
    assert(r.subrange(0, bytes@.len() as int) =~= r);
    s
}


/// Hex text holds, for each byte in order, the digit of its high half then
/// the digit of its low half.
pub proof fn lemma_hex_per_byte(b: Seq<u8>)
    ensures
        hex_spec(b).len() == 2 * b.len(),
        forall|i: int|
            0 <= i < b.len() ==> hex_spec(b)[2 * i] == hex_digit(b[i] as int / 16) && hex_spec(
                b,
            )[2 * i + 1] == hex_digit(b[i] as int % 16),
    decreases b.len(),
{
    if b.len() > 0 {
        lemma_hex_per_byte(b.drop_last());
        assert forall|i: int| 0 <= i < b.len() implies hex_spec(b)[2 * i] == hex_digit(
            b[i] as int / 16,
        ) && hex_spec(b)[2 * i + 1] == hex_digit(b[i] as int % 16) by {
            if i < b.len() - 1 {
                assert(b.drop_last()[i] == b[i]);
            }
        }
    }
}

/// The hex of a concatenation is the concatenation of the hex texts.
pub proof fn lemma_hex_concat(a: Seq<u8>, b: Seq<u8>)
    ensures
        hex_spec(a + b) == hex_spec(a) + hex_spec(b),
    decreases b.len(),
{
    if b.len() == 0 {
        assert(a + b =~= a);
        assert(hex_spec(a) + hex_spec(b) =~= hex_spec(a));
    } else {
        assert((a + b).drop_last() =~= a + b.drop_last());
        assert((a + b).last() == b.last());
        lemma_hex_concat(a, b.drop_last());
        assert(hex_spec(a + b) =~= hex_spec(a) + hex_spec(b));
    }
}

/// Hex text is made of lowercase hexadecimal digits, two per byte.
pub proof fn lemma_hex_alphabet(b: Seq<u8>)
    ensures
        hex_spec(b).len() == 2 * b.len(),
        forall|i: int|
            0 <= i < hex_spec(b).len() ==> ('0' <= #[trigger] hex_spec(b)[i] <= '9') || ('a'
                <= hex_spec(b)[i] <= 'f'),
    decreases b.len(),
{
    if b.len() > 0 {
        lemma_hex_alphabet(b.drop_last());
        let prev = hex_spec(b.drop_last());
        let hi = b.last() as int / 16;
        let lo = b.last() as int % 16;
        assert(('0' <= hex_digit(hi) <= '9') || ('a' <= hex_digit(hi) <= 'f'));
        assert(('0' <= hex_digit(lo) <= '9') || ('a' <= hex_digit(lo) <= 'f'));
        assert forall|i: int| 0 <= i < hex_spec(b).len() implies ('0' <= #[trigger] hex_spec(b)[i]
            <= '9') || ('a' <= hex_spec(b)[i] <= 'f') by {
            if i < prev.len() {
                assert(hex_spec(b)[i] == prev[i]);
            }
        }
    }
}


// ---------------------------------------------------------------------------
// Laws of the parser
// ---------------------------------------------------------------------------

proof fn lemma_compact_prefix(s: Seq<u8>, p: int, l: int)
    requires
        compact_at(s, p) is Some,
        p + compact_at(s, p).unwrap().1 <= l <= s.len(),
    ensures
        compact_at(s.subrange(0, l), p) == compact_at(s, p),
        compact_at(s, p).unwrap().1 >= 0,
{
    let t = s.subrange(0, l);
    let a = s.subrange(p, s.len() as int);
    let b = t.subrange(p, l);
    assert forall|i: int| 0 <= i < b.len() implies b[i] == a[i] by {}
    if a.len() == 0 {
        assert(b.len() == 0);
    } else {
        assert(a[0] == b[0]);
        if b.len() > 0 {
            assert(a[1] == b[1] || b.len() < 2);
        }
    }
    assert(compact_size_spec(b) == compact_size_spec(a)) by {
        if a.len() > 0 && b.len() > 0 && a[0] > 252 {
            if b.len() >= 3 {
                assert(a[1] == b[1] && a[2] == b[2]);
            }
            if b.len() >= 5 {
                assert(a[3] == b[3] && a[4] == b[4]);
            }
            if b.len() >= 9 {
                assert(a[5] == b[5] && a[6] == b[6] && a[7] == b[7] && a[8] == b[8]);
            }
        }
    }
}

proof fn lemma_var_bytes_prefix(s: Seq<u8>, p: int, l: int)
    requires
        var_bytes_at(s, p) is Some,
        var_bytes_at(s, p).unwrap().1 <= l <= s.len(),
    ensures
        var_bytes_at(s.subrange(0, l), p) == var_bytes_at(s, p),
        var_bytes_at(s, p).unwrap().1 >= p,
{
    let (len, c) = compact_at(s, p).unwrap();
    lemma_compact_prefix(s, p, l);
    let t = s.subrange(0, l);
    let q = p + c;
    assert(t.subrange(q, q + len) =~= s.subrange(q, q + len));
}

proof fn lemma_input_prefix(s: Seq<u8>, p: int, l: int)
    requires
        input_at(s, p) is Some,
        input_at(s, p).unwrap().1 <= l <= s.len(),
    ensures
        input_at(s.subrange(0, l), p) == input_at(s, p),
        input_at(s, p).unwrap().1 >= p,
{
    let t = s.subrange(0, l);
    let (script, r) = var_bytes_at(s, p + 36).unwrap();
    lemma_var_bytes_prefix(s, p + 36, l);
    assert(t.subrange(p, p + 32) =~= s.subrange(p, p + 32));
    assert(le_u32_at(t, p + 32) == le_u32_at(s, p + 32));
    assert(le_u32_at(t, r) == le_u32_at(s, r));
}

proof fn lemma_output_prefix(s: Seq<u8>, p: int, l: int)
    requires
        output_at(s, p) is Some,
        output_at(s, p).unwrap().1 <= l <= s.len(),
    ensures
        output_at(s.subrange(0, l), p) == output_at(s, p),
        output_at(s, p).unwrap().1 >= p,
{
    let t = s.subrange(0, l);
    lemma_var_bytes_prefix(s, p + 8, l);
    assert(le_u64_at(t, p) == le_u64_at(s, p));
}

proof fn lemma_inputs_prefix(s: Seq<u8>, p: int, n: nat, l: int)
    requires
        inputs_from(s, p, n) is Some,
        inputs_from(s, p, n).unwrap().1 <= l <= s.len(),
    ensures
        inputs_from(s.subrange(0, l), p, n) == inputs_from(s, p, n),
        inputs_from(s, p, n).unwrap().1 >= p,
    decreases n,
{
    if n > 0 {
        let (ins, q) = inputs_from(s, p, (n - 1) as nat).unwrap();
        lemma_input_prefix(s, q, l);
        lemma_inputs_prefix(s, p, (n - 1) as nat, l);
    }
}

proof fn lemma_outputs_prefix(s: Seq<u8>, p: int, n: nat, l: int)
    requires
        outputs_from(s, p, n) is Some,
        outputs_from(s, p, n).unwrap().1 <= l <= s.len(),
    ensures
        outputs_from(s.subrange(0, l), p, n) == outputs_from(s, p, n),
        outputs_from(s, p, n).unwrap().1 >= p,
    decreases n,
{
    if n > 0 {
        let (outs, q) = outputs_from(s, p, (n - 1) as nat).unwrap();
        lemma_output_prefix(s, q, l);
        lemma_outputs_prefix(s, p, (n - 1) as nat, l);
    }
}

proof fn lemma_items_prefix(s: Seq<u8>, p: int, n: nat, l: int)
    requires
        items_from(s, p, n) is Some,
        items_from(s, p, n).unwrap().1 <= l <= s.len(),
    ensures
        items_from(s.subrange(0, l), p, n) == items_from(s, p, n),
        items_from(s, p, n).unwrap().1 >= p,
    decreases n,
{
    if n > 0 {
        let (items, q) = items_from(s, p, (n - 1) as nat).unwrap();
        lemma_var_bytes_prefix(s, q, l);
        lemma_items_prefix(s, p, (n - 1) as nat, l);
    }
}

proof fn lemma_witnesses_prefix(s: Seq<u8>, p: int, n: nat, l: int)
    requires
        witnesses_from(s, p, n) is Some,
        witnesses_from(s, p, n).unwrap().1 <= l <= s.len(),
    ensures
        witnesses_from(s.subrange(0, l), p, n) == witnesses_from(s, p, n),
        witnesses_from(s, p, n).unwrap().1 >= p,
    decreases n,
{
    if n > 0 {
        let (ws, q) = witnesses_from(s, p, (n - 1) as nat).unwrap();
        let (m, c) = compact_at(s, q).unwrap();
        lemma_items_prefix(s, q + c, m as nat, l);
        lemma_compact_prefix(s, q, l);
        lemma_witnesses_prefix(s, p, (n - 1) as nat, l);
    }
}

proof fn lemma_layout_prefix(s: Seq<u8>, l: int)
    requires
        tx_layout(s) is Some,
        tx_layout(s).unwrap().end <= l <= s.len(),
    ensures
        tx_layout(s.subrange(0, l)) == tx_layout(s),
{
    let t = s.subrange(0, l);
    let hw = has_witness_spec(s);
    let p0: int = if hw { 6 } else { 4 };
    let (nin, c1) = compact_at(s, p0).unwrap();
    let (ins, p1) = inputs_from(s, p0 + c1, nin as nat).unwrap();
    let (nout, c2) = compact_at(s, p1).unwrap();
    let (outs, p2) = outputs_from(s, p1 + c2, nout as nat).unwrap();
    let end = tx_layout(s).unwrap().end;
    if hw {
        let (ws, p3) = witnesses_from(s, p2, ins.len()).unwrap();
        lemma_witnesses_prefix(s, p2, ins.len(), l);
    }
    lemma_outputs_prefix(s, p1 + c2, nout as nat, l);
    lemma_compact_prefix(s, p1, l);
    lemma_inputs_prefix(s, p0 + c1, nin as nat, l);
    lemma_compact_prefix(s, p0, l);
    assert(l >= 6 || s[4] != 0) by {
        if s[4] == 0 && !hw {
            assert(compact_at(s, 4) == Some((0u64, 1int)));
        }
    }
    assert(t[4] == s[4]);
    if l >= 6 {
        assert(t[5] == s[5]);
    }
    assert(has_witness_spec(t) == hw);
    assert(le_u32_at(t, end - 4) == le_u32_at(s, end - 4));
}

proof fn lemma_tx_of_layout_prefix(s: Seq<u8>, t: Seq<u8>, lay: TxLayout)
    requires
        4 <= lay.end <= s.len(),
        lay.end <= t.len(),
        t.subrange(0, lay.end) == s.subrange(0, lay.end),
    ensures
        tx_of_layout(t, lay) == tx_of_layout(s, lay),
        base_size_spec(t, lay) == base_size_spec(s, lay),
{
    let ts = t.subrange(0, lay.end);
    let ss = s.subrange(0, lay.end);
    assert(ts[0] == t[0] && ts[1] == t[1] && ts[2] == t[2] && ts[3] == t[3]);
    assert(ss[0] == s[0] && ss[1] == s[1] && ss[2] == s[2] && ss[3] == s[3]);
    assert(t.subrange(0, 4) =~= s.subrange(0, 4));
    assert(le_u32_at(t, 0) == le_u32_at(s, 0));
    assert(nonwitness_bytes(t, lay) == nonwitness_bytes(s, lay));
}

/// Parsing depends only on the bytes of the transaction: any prefix of the
/// input that still holds the whole transaction parses to the same result.
#[verifier::rlimit(50)]
pub proof fn lemma_parse_tx_prefix(s: Seq<u8>, l: int)
    requires
        parse_tx_spec(s) is Some,
        parse_tx_spec(s).unwrap().1 <= l <= s.len(),
    ensures
        parse_tx_spec(s.subrange(0, l)) == parse_tx_spec(s),
{
    let t = s.subrange(0, l);
    lemma_layout_prefix(s, l);
    let lay = tx_layout(s).unwrap();
    assert(tx_layout(t) == Some(lay));
    assert(t.subrange(0, lay.end) =~= s.subrange(0, lay.end));
    lemma_tx_of_layout_prefix(s, t, lay);
}

proof fn lemma_compact_extend(s: Seq<u8>, p: int, l: int)
    requires
        0 <= l <= s.len(),
        compact_at(s.subrange(0, l), p) is Some,
        p < l,
    ensures
        compact_at(s, p) == compact_at(s.subrange(0, l), p),
        compact_at(s, p).unwrap().1 > 0,
{
    let t = s.subrange(0, l);
    let a = s.subrange(p, s.len() as int);
    let b = t.subrange(p, l);
    assert forall|i: int| 0 <= i < b.len() implies b[i] == a[i] by {}
    assert(a[0] == b[0]);
    if b[0] > 252 {
        if b.len() >= 3 {
            assert(a[1] == b[1] && a[2] == b[2]);
        }
        if b.len() >= 5 {
            assert(a[3] == b[3] && a[4] == b[4]);
        }
        if b.len() >= 9 {
            assert(a[5] == b[5] && a[6] == b[6] && a[7] == b[7] && a[8] == b[8]);
        }
    }
}

proof fn lemma_var_bytes_extend(s: Seq<u8>, p: int, l: int)
    requires
        0 <= l <= s.len(),
        var_bytes_at(s.subrange(0, l), p) is Some,
        p < l,
    ensures
        var_bytes_at(s, p) == var_bytes_at(s.subrange(0, l), p),
        var_bytes_at(s, p).unwrap().1 > p,
        var_bytes_at(s, p).unwrap().1 <= l,
{
    let t = s.subrange(0, l);
    lemma_compact_extend(s, p, l);
    let (len, c) = compact_at(t, p).unwrap();
    let q = p + c;
    assert(t.subrange(q, q + len) =~= s.subrange(q, q + len));
}

proof fn lemma_input_extend(s: Seq<u8>, p: int, l: int)
    requires
        0 <= l <= s.len(),
        input_at(s.subrange(0, l), p) is Some,
    ensures
        input_at(s, p) == input_at(s.subrange(0, l), p),
        input_at(s, p).unwrap().1 > p,
        input_at(s, p).unwrap().1 <= l,
{
    let t = s.subrange(0, l);
    let (script, r) = var_bytes_at(t, p + 36).unwrap();
    lemma_var_bytes_extend(s, p + 36, l);
    assert(t.subrange(p, p + 32) =~= s.subrange(p, p + 32));
    assert(le_u32_at(t, p + 32) == le_u32_at(s, p + 32));
    assert(le_u32_at(t, r) == le_u32_at(s, r));
}

proof fn lemma_output_extend(s: Seq<u8>, p: int, l: int)
    requires
        0 <= l <= s.len(),
        output_at(s.subrange(0, l), p) is Some,
        output_at(s.subrange(0, l), p).unwrap().1 < l,
    ensures
        output_at(s, p) == output_at(s.subrange(0, l), p),
        output_at(s, p).unwrap().1 > p,
{
    let t = s.subrange(0, l);
    lemma_var_bytes_extend(s, p + 8, l);
    assert(le_u64_at(t, p) == le_u64_at(s, p));
}

proof fn lemma_inputs_extend(s: Seq<u8>, p: int, n: nat, l: int)
    requires
        0 <= l <= s.len(),
        inputs_from(s.subrange(0, l), p, n) is Some,
    ensures
        inputs_from(s, p, n) == inputs_from(s.subrange(0, l), p, n),
        inputs_from(s, p, n).unwrap().1 >= p,
    decreases n,
{
    if n > 0 {
        let (ins, q) = inputs_from(s.subrange(0, l), p, (n - 1) as nat).unwrap();
        lemma_inputs_extend(s, p, (n - 1) as nat, l);
        lemma_input_extend(s, q, l);
    }
}

proof fn lemma_outputs_extend(s: Seq<u8>, p: int, n: nat, l: int)
    requires
        0 <= l <= s.len(),
        outputs_from(s.subrange(0, l), p, n) is Some,
        outputs_from(s.subrange(0, l), p, n).unwrap().1 < l,
    ensures
        outputs_from(s, p, n) == outputs_from(s.subrange(0, l), p, n),
        outputs_from(s, p, n).unwrap().1 >= p,
    decreases n,
{
    if n > 0 {
        let t = s.subrange(0, l);
        let (outs, q) = outputs_from(t, p, (n - 1) as nat).unwrap();
        lemma_var_bytes_within(t, q + 8);
        lemma_outputs_extend(s, p, (n - 1) as nat, l);
        lemma_output_extend(s, q, l);
    }
}

proof fn lemma_var_bytes_within(s: Seq<u8>, p: int)
    requires
        var_bytes_at(s, p) is Some,
    ensures
        var_bytes_at(s, p).unwrap().1 >= p,
{
}

proof fn lemma_items_extend(s: Seq<u8>, p: int, n: nat, l: int)
    requires
        0 <= l <= s.len(),
        items_from(s.subrange(0, l), p, n) is Some,
        items_from(s.subrange(0, l), p, n).unwrap().1 < l,
    ensures
        items_from(s, p, n) == items_from(s.subrange(0, l), p, n),
        items_from(s, p, n).unwrap().1 >= p,
    decreases n,
{
    if n > 0 {
        let t = s.subrange(0, l);
        let (items, q) = items_from(t, p, (n - 1) as nat).unwrap();
        lemma_var_bytes_within(t, q);
        lemma_items_extend(s, p, (n - 1) as nat, l);
        lemma_var_bytes_extend(s, q, l);
    }
}

proof fn lemma_witnesses_extend(s: Seq<u8>, p: int, n: nat, l: int)
    requires
        0 <= l <= s.len(),
        witnesses_from(s.subrange(0, l), p, n) is Some,
        witnesses_from(s.subrange(0, l), p, n).unwrap().1 < l,
    ensures
        witnesses_from(s, p, n) == witnesses_from(s.subrange(0, l), p, n),
        witnesses_from(s, p, n).unwrap().1 >= p,
    decreases n,
{
    if n > 0 {
        let t = s.subrange(0, l);
        let (ws, q) = witnesses_from(t, p, (n - 1) as nat).unwrap();
        let (m, c) = compact_at(t, q).unwrap();
        lemma_items_within(t, q + c, m as nat);
        lemma_witnesses_extend(s, p, (n - 1) as nat, l);
        lemma_compact_extend(s, q, l);
        lemma_items_extend(s, q + c, m as nat, l);
    }
}

proof fn lemma_items_within(s: Seq<u8>, p: int, n: nat)
    requires
        items_from(s, p, n) is Some,
    ensures
        items_from(s, p, n).unwrap().1 >= p,
    decreases n,
{
    if n > 0 {
        let (items, q) = items_from(s, p, (n - 1) as nat).unwrap();
        lemma_items_within(s, p, (n - 1) as nat);
        lemma_var_bytes_within(s, q);
    }
}

proof fn lemma_outputs_within(s: Seq<u8>, p: int, n: nat)
    requires
        outputs_from(s, p, n) is Some,
    ensures
        outputs_from(s, p, n).unwrap().1 >= p,
    decreases n,
{
    if n > 0 {
        let (outs, q) = outputs_from(s, p, (n - 1) as nat).unwrap();
        lemma_outputs_within(s, p, (n - 1) as nat);
        lemma_var_bytes_within(s, q + 8);
    }
}

proof fn lemma_witnesses_within(s: Seq<u8>, p: int, n: nat)
    requires
        witnesses_from(s, p, n) is Some,
    ensures
        witnesses_from(s, p, n).unwrap().1 >= p,
    decreases n,
{
    if n > 0 {
        let (ws, q) = witnesses_from(s, p, (n - 1) as nat).unwrap();
        let (m, c) = compact_at(s, q).unwrap();
        lemma_witnesses_within(s, p, (n - 1) as nat);
        lemma_items_within(s, q + c, m as nat);
    }
}

proof fn lemma_inputs_within(s: Seq<u8>, p: int, n: nat)
    requires
        inputs_from(s, p, n) is Some,
    ensures
        inputs_from(s, p, n).unwrap().1 >= p,
    decreases n,
{
    if n > 0 {
        lemma_inputs_within(s, p, (n - 1) as nat);
    }
}

#[verifier::rlimit(50)]
proof fn lemma_layout_extend(s: Seq<u8>, l: int)
    requires
        0 <= l <= s.len(),
        tx_layout(s.subrange(0, l)) is Some,
    ensures
        tx_layout(s) == tx_layout(s.subrange(0, l)),
{
    let t = s.subrange(0, l);
    assert(t[4] == s[4]);
    if t[4] == 0 {
        assert(t[5] == s[5]);
    }
    assert(has_witness_spec(t) == has_witness_spec(s));
    let hw = has_witness_spec(t);
    let p0: int = if hw { 6 } else { 4 };
    let (nin, c1) = compact_at(t, p0).unwrap();
    let (ins, p1) = inputs_from(t, p0 + c1, nin as nat).unwrap();
    let (nout, c2) = compact_at(t, p1).unwrap();
    let (outs, p2) = outputs_from(t, p1 + c2, nout as nat).unwrap();
    let end = tx_layout(t).unwrap().end;
    lemma_inputs_within(t, p0 + c1, nin as nat);
    lemma_outputs_within(t, p1 + c2, nout as nat);
    if hw {
        lemma_witnesses_within(t, p2, ins.len());
        lemma_witnesses_extend(s, p2, ins.len(), l);
    }
    lemma_outputs_extend(s, p1 + c2, nout as nat, l);
    lemma_compact_extend(s, p1, l);
    lemma_inputs_extend(s, p0 + c1, nin as nat, l);
    lemma_compact_extend(s, p0, l);
    assert(le_u32_at(t, end - 4) == le_u32_at(s, end - 4));
}

/// Bytes after a transaction do not change how it parses: where the front
/// of `s` up to `l` parses, all of `s` parses the same way.
#[verifier::rlimit(50)]
pub proof fn lemma_parse_tx_extend(s: Seq<u8>, l: int)
    requires
        0 <= l <= s.len(),
        parse_tx_spec(s.subrange(0, l)) is Some,
    ensures
        parse_tx_spec(s) == parse_tx_spec(s.subrange(0, l)),
{
    let t = s.subrange(0, l);
    lemma_layout_extend(s, l);
    let lay = tx_layout(t).unwrap();
    assert(tx_layout(s) == Some(lay));
    assert(t.subrange(0, lay.end) =~= s.subrange(0, lay.end));
    lemma_tx_of_layout_prefix(t, s, lay);
}

// ---------------------------------------------------------------------------
// Serialize, then parse
// ---------------------------------------------------------------------------

/// A length-prefixed byte string.
pub open spec fn var_bytes_enc(b: Seq<u8>) -> Seq<u8> {
    compact_size_bytes(b.len() as u64) + b
}

/// The items of one witness stack, each length-prefixed.
pub open spec fn items_bytes(items: Seq<Seq<u8>>) -> Seq<u8>
    decreases items.len(),
{
    if items.len() == 0 {
        seq![]
    } else {
        items_bytes(items.drop_last()) + var_bytes_enc(items.last())
    }
}

/// One witness stack: the item count, then the items.
pub open spec fn witness_bytes(w: Seq<Seq<u8>>) -> Seq<u8> {
    compact_size_bytes(w.len() as u64) + items_bytes(w)
}

/// The witness stacks of the inputs, in order.
pub open spec fn witnesses_bytes(ins: Seq<SpecTxInput>) -> Seq<u8>
    decreases ins.len(),
{
    if ins.len() == 0 {
        seq![]
    } else {
        witnesses_bytes(ins.drop_last()) + witness_bytes(ins.last().witness)
    }
}

/// The bits of a version number, as its four bytes hold them.
pub open spec fn i32_bits(v: i32) -> int {
    if v >= 0 {
        v as int
    } else {
        v + 0x1_0000_0000
    }
}

/// The wire encoding of a transaction without witness data.
pub open spec fn legacy_serialization(tx: SpecTransaction) -> Seq<u8> {
    le_bytes(i32_bits(tx.version), 4) + compact_size_bytes(tx.inputs.len() as u64) + inputs_bytes(
        tx.inputs,
    ) + compact_size_bytes(tx.outputs.len() as u64) + outputs_bytes(tx.outputs) + le_bytes(
        tx.locktime as int,
        4,
    )
}

/// The extended (segwit) wire encoding of a transaction: marker `0` and a
/// non-zero `flag` after the version, and the witness stacks of the inputs
/// before the locktime.
pub open spec fn segwit_serialization(tx: SpecTransaction, flag: u8) -> Seq<u8> {
    le_bytes(i32_bits(tx.version), 4) + seq![0u8, flag] + compact_size_bytes(
        tx.inputs.len() as u64,
    ) + inputs_bytes(tx.inputs) + compact_size_bytes(tx.outputs.len() as u64) + outputs_bytes(
        tx.outputs,
    ) + witnesses_bytes(tx.inputs) + le_bytes(tx.locktime as int, 4)
}

/// `s` holds `e` at `p`.
pub open spec fn holds_at(s: Seq<u8>, p: int, e: Seq<u8>) -> bool {
    0 <= p && p + e.len() <= s.len() && s.subrange(p, p + e.len()) == e
}

proof fn lemma_holds_split(s: Seq<u8>, p: int, a: Seq<u8>, b: Seq<u8>)
    requires
        holds_at(s, p, a + b),
    ensures
        holds_at(s, p, a),
        holds_at(s, p + a.len(), b),
{
    assert forall|i: int| 0 <= i < a.len() implies s.subrange(p, p + a.len())[i] == a[i] by {
        assert(s.subrange(p, p + (a + b).len())[i] == (a + b)[i]);
    }
    assert(s.subrange(p, p + a.len()) =~= a);
    assert forall|i: int| 0 <= i < b.len() implies s.subrange(p + a.len(), p + a.len() + b.len())[i]
        == b[i] by {
        assert(s.subrange(p, p + (a + b).len())[a.len() + i] == (a + b)[a.len() + i]);
    }
    assert(s.subrange(p + a.len(), p + a.len() + b.len()) =~= b);
}

proof fn lemma_compact_read(s: Seq<u8>, p: int, v: u64)
    requires
        holds_at(s, p, compact_size_bytes(v)),
    ensures
        compact_at(s, p) == Some((v, compact_size_bytes(v).len() as int)),
{
    let c = compact_size_bytes(v);
    let l = p + c.len();
    lemma_compact_size_roundtrip(v);
    assert(s.subrange(0, l).subrange(p, l) =~= s.subrange(p, l));
    lemma_compact_extend(s, p, l);
}

proof fn lemma_le4_read(s: Seq<u8>, p: int, n: int)
    requires
        0 <= n < 0x1_0000_0000,
        holds_at(s, p, le_bytes(n, 4)),
    ensures
        le_u32_at(s, p) == n,
{
    lemma_read_le4(s, p, n);
}

proof fn lemma_var_bytes_read(s: Seq<u8>, p: int, b: Seq<u8>)
    requires
        b.len() <= u64::MAX,
        holds_at(s, p, var_bytes_enc(b)),
    ensures
        var_bytes_at(s, p) == Some((b, p + var_bytes_enc(b).len())),
{
    let c = compact_size_bytes(b.len() as u64);
    lemma_holds_split(s, p, c, b);
    lemma_compact_read(s, p, b.len() as u64);
}

proof fn lemma_input_read(s: Seq<u8>, p: int, i: SpecTxInput)
    requires
        i.prev_txid.len() == 32,
        i.script_sig.len() <= u64::MAX,
        holds_at(s, p, input_bytes(i)),
    ensures
        input_at(s, p) == Some((SpecTxInput { witness: seq![], ..i }, p + input_bytes(i).len())),
{
    let a = i.prev_txid;
    let b = le_bytes(i.prev_vout as int, 4);
    let c = var_bytes_enc(i.script_sig);
    let d = le_bytes(i.sequence as int, 4);
    assert(input_bytes(i) =~= a + (b + (c + d)));
    lemma_holds_split(s, p, a, b + (c + d));
    lemma_holds_split(s, p + 32, b, c + d);
    lemma_holds_split(s, p + 36, c, d);
    lemma_var_bytes_read(s, p + 36, i.script_sig);
    lemma_le4_read(s, p + 32, i.prev_vout as int);
    lemma_le4_read(s, p + 36 + c.len(), i.sequence as int);
}

proof fn lemma_output_read(s: Seq<u8>, p: int, o: SpecTxOutput)
    requires
        o.script_pubkey.len() <= u64::MAX,
        holds_at(s, p, output_bytes(o)),
    ensures
        output_at(s, p) == Some((o, p + output_bytes(o).len())),
{
    let a = le_bytes(o.value as int, 8);
    let c = var_bytes_enc(o.script_pubkey);
    assert(output_bytes(o) =~= a + c);
    lemma_holds_split(s, p, a, c);
    lemma_var_bytes_read(s, p + 8, o.script_pubkey);
    lemma_read_le8(s, p, o.value as int);
}

/// Inputs without witness data, as `inputs_from` reads them.
pub open spec fn without_witnesses(ins: Seq<SpecTxInput>) -> Seq<SpecTxInput> {
    Seq::new(ins.len(), |j: int| SpecTxInput { witness: seq![], ..ins[j] })
}

proof fn lemma_inputs_read(s: Seq<u8>, p: int, ins: Seq<SpecTxInput>)
    requires
        forall|j: int|
            0 <= j < ins.len() ==> (#[trigger] ins[j]).prev_txid.len() == 32
                && ins[j].script_sig.len() <= u64::MAX,
        holds_at(s, p, inputs_bytes(ins)),
    ensures
        inputs_from(s, p, ins.len()) == Some(
            (without_witnesses(ins), p + inputs_bytes(ins).len()),
        ),
    decreases ins.len(),
{
    if ins.len() > 0 {
        let d = ins.drop_last();
        assert(ins.last() == ins[ins.len() - 1]);
        lemma_holds_split(s, p, inputs_bytes(d), input_bytes(ins.last()));
        lemma_inputs_read(s, p, d);
        lemma_input_read(s, p + inputs_bytes(d).len(), ins.last());
        assert(without_witnesses(d).push(SpecTxInput { witness: seq![], ..ins.last() })
            =~= without_witnesses(ins));
    } else {
        assert(without_witnesses(ins) =~= Seq::<SpecTxInput>::empty());
    }
}

proof fn lemma_outputs_read(s: Seq<u8>, p: int, outs: Seq<SpecTxOutput>)
    requires
        forall|j: int| 0 <= j < outs.len() ==> (#[trigger] outs[j]).script_pubkey.len() <= u64::MAX,
        holds_at(s, p, outputs_bytes(outs)),
    ensures
        outputs_from(s, p, outs.len()) == Some((outs, p + outputs_bytes(outs).len())),
    decreases outs.len(),
{
    if outs.len() > 0 {
        let d = outs.drop_last();
        assert(outs.last() == outs[outs.len() - 1]);
        lemma_holds_split(s, p, outputs_bytes(d), output_bytes(outs.last()));
        lemma_outputs_read(s, p, d);
        lemma_output_read(s, p + outputs_bytes(d).len(), outs.last());
        assert(d.push(outs.last()) =~= outs);
    } else {
        assert(outs =~= Seq::<SpecTxOutput>::empty());
    }
}

proof fn lemma_items_read(s: Seq<u8>, p: int, items: Seq<Seq<u8>>)
    requires
        forall|j: int| 0 <= j < items.len() ==> (#[trigger] items[j]).len() <= u64::MAX,
        holds_at(s, p, items_bytes(items)),
    ensures
        items_from(s, p, items.len()) == Some((items, p + items_bytes(items).len())),
    decreases items.len(),
{
    if items.len() > 0 {
        let d = items.drop_last();
        assert(items.last() == items[items.len() - 1]);
        lemma_holds_split(s, p, items_bytes(d), var_bytes_enc(items.last()));
        lemma_items_read(s, p, d);
        lemma_var_bytes_read(s, p + items_bytes(d).len(), items.last());
        assert(d.push(items.last()) =~= items);
    } else {
        assert(items =~= Seq::<Seq<u8>>::empty());
    }
}

proof fn lemma_witnesses_read(s: Seq<u8>, p: int, ins: Seq<SpecTxInput>)
    requires
        forall|j: int|
            0 <= j < ins.len() ==> (#[trigger] ins[j]).witness.len() <= u64::MAX && forall|k: int|
                0 <= k < ins[j].witness.len() ==> (#[trigger] ins[j].witness[k]).len() <= u64::MAX,
        holds_at(s, p, witnesses_bytes(ins)),
    ensures
        witnesses_from(s, p, ins.len()) == Some(
            (Seq::new(ins.len(), |j: int| ins[j].witness), p + witnesses_bytes(ins).len()),
        ),
    decreases ins.len(),
{
    if ins.len() > 0 {
        let d = ins.drop_last();
        let w = ins.last().witness;
        assert(ins.last() == ins[ins.len() - 1]);
        lemma_holds_split(s, p, witnesses_bytes(d), witness_bytes(w));
        lemma_witnesses_read(s, p, d);
        let q = p + witnesses_bytes(d).len();
        lemma_holds_split(s, q, compact_size_bytes(w.len() as u64), items_bytes(w));
        lemma_compact_read(s, q, w.len() as u64);
        lemma_items_read(s, q + compact_size_bytes(w.len() as u64).len(), w);
        assert(Seq::new(d.len(), |j: int| d[j].witness).push(w) =~= Seq::new(
            ins.len(),
            |j: int| ins[j].witness,
        ));
    } else {
        assert(Seq::new(ins.len(), |j: int| ins[j].witness) =~= Seq::<Seq<Seq<u8>>>::empty());
    }
}

/// The model constraints under which a transaction has a wire encoding:
/// 32-byte previous txids, and counts and lengths that a compact size holds.
pub open spec fn encodable_tx(tx: SpecTransaction) -> bool {
    &&& tx.inputs.len() <= u64::MAX
    &&& tx.outputs.len() <= u64::MAX
    &&& forall|j: int|
        0 <= j < tx.inputs.len() ==> (#[trigger] tx.inputs[j]).prev_txid.len() == 32
            && tx.inputs[j].script_sig.len() <= u64::MAX && tx.inputs[j].witness.len() <= u64::MAX
            && forall|k: int|
            0 <= k < tx.inputs[j].witness.len() ==> (#[trigger] tx.inputs[j].witness[k]).len()
                <= u64::MAX
    &&& forall|j: int|
        0 <= j < tx.outputs.len() ==> (#[trigger] tx.outputs[j]).script_pubkey.len() <= u64::MAX
}

proof fn lemma_version_read(s: Seq<u8>, v: i32)
    requires
        holds_at(s, 0, le_bytes(i32_bits(v), 4)),
    ensures
        i32_of_bits(le_u32_at(s, 0)) == v,
{
    lemma_le4_read(s, 0, i32_bits(v));
}

/// A transaction without witness data, in the legacy wire encoding and
/// followed by any bytes, parses back to its version, inputs, outputs and
/// locktime, consuming exactly its encoding; its txid hashes that encoding
/// and it weighs four times its size. (A transaction with no inputs but
/// with outputs is left out: its count bytes read as a segwit marker.)
#[verifier::rlimit(100)]
#[verifier::spinoff_prover]
pub proof fn lemma_parse_legacy_serialization(tx: SpecTransaction, rest: Seq<u8>)
    requires
        encodable_tx(tx),
        forall|j: int| 0 <= j < tx.inputs.len() ==> (#[trigger] tx.inputs[j]).witness.len() == 0,
        tx.inputs.len() > 0 || tx.outputs.len() == 0,
        4 * legacy_serialization(tx).len() <= u32::MAX,
    ensures
        ({
            let e = legacy_serialization(tx);
            &&& parse_tx_spec(e + rest) is Some
            &&& parse_tx_spec(e + rest).unwrap().1 == e.len()
            &&& parse_tx_spec(e + rest).unwrap().0.raw == e
            &&& parse_tx_spec(e + rest).unwrap().0.size == e.len()
            &&& parse_tx_spec(e + rest).unwrap().0.version == tx.version
            &&& parse_tx_spec(e + rest).unwrap().0.inputs == tx.inputs
            &&& parse_tx_spec(e + rest).unwrap().0.outputs == tx.outputs
            &&& parse_tx_spec(e + rest).unwrap().0.locktime == tx.locktime
            &&& parse_tx_spec(e + rest).unwrap().0.txid == hash256_spec(e)
            &&& parse_tx_spec(e + rest).unwrap().0.weight == 4 * e.len()
        }),
{
    let e = legacy_serialization(tx);
    let s = e + rest;
    let ins = tx.inputs;
    let outs = tx.outputs;
    let a = le_bytes(i32_bits(tx.version), 4);
    let b = compact_size_bytes(ins.len() as u64);
    let c = inputs_bytes(ins);
    let d = compact_size_bytes(outs.len() as u64);
    let f = outputs_bytes(outs);
    let g = le_bytes(tx.locktime as int, 4);
    assert(e =~= a + (b + (c + (d + (f + g)))));
    assert(s.subrange(0, e.len() as int) =~= e);
    assert(holds_at(s, 0, e));
    lemma_holds_split(s, 0, a, b + (c + (d + (f + g))));
    let p1: int = 4 + b.len() as int;
    lemma_holds_split(s, 4, b, c + (d + (f + g)));
    lemma_holds_split(s, p1, c, d + (f + g));
    let p2: int = p1 + c.len();
    lemma_holds_split(s, p2, d, f + g);
    let p3: int = p2 + d.len();
    lemma_holds_split(s, p3, f, g);
    let p4: int = p3 + f.len();
    lemma_version_read(s, tx.version);
    lemma_compact_read(s, 4, ins.len() as u64);
    lemma_inputs_read(s, p1, ins);
    lemma_compact_read(s, p2, outs.len() as u64);
    lemma_outputs_read(s, p3, outs);
    lemma_le4_read(s, p4, tx.locktime as int);
    assert(s[4] == b[0]) by {
        assert(s.subrange(4, 4 + b.len() as int)[0] == b[0]);
    }
    if ins.len() == 0 {
        assert(c.len() == 0);
        assert(s[5] == d[0]) by {
            assert(s.subrange(p2, p2 + d.len() as int)[0] == d[0]);
        }
    }
    assert(!has_witness_spec(s));
    let ww = without_witnesses(ins);
    let ws = Seq::new(ww.len(), |i: int| Seq::<Seq<u8>>::empty());
    assert(with_witnesses(ww, ws) =~= ins) by {
        assert forall|j: int| 0 <= j < ins.len() implies #[trigger] with_witnesses(ww, ws)[j]
            == ins[j] by {
            assert(ins[j].witness.len() == 0);
            assert(ins[j].witness =~= Seq::<Seq<u8>>::empty());
        }
    }
    assert(p4 + 4 == e.len());
    let lay = tx_layout(s).unwrap();
    assert(lay.end == e.len());
    assert(s.subrange(0, lay.end) == e);
}

#[verifier::rlimit(100)]
#[verifier::spinoff_prover]
proof fn lemma_segwit_layout(tx: SpecTransaction, flag: u8, rest: Seq<u8>)
    requires
        encodable_tx(tx),
        flag != 0,
    ensures
        ({
            let e = segwit_serialization(tx, flag);
            let s = e + rest;
            &&& tx_layout(s) is Some
            &&& tx_layout(s).unwrap().has_witness
            &&& tx_layout(s).unwrap().end == e.len()
            &&& tx_layout(s).unwrap().input_count == tx.inputs.len()
            &&& tx_layout(s).unwrap().output_count == tx.outputs.len()
            &&& tx_layout(s).unwrap().inputs == tx.inputs
            &&& tx_layout(s).unwrap().outputs == tx.outputs
            &&& tx_layout(s).unwrap().locktime == tx.locktime
            &&& i32_of_bits(le_u32_at(s, 0)) == tx.version
            &&& s.subrange(0, 4) == le_bytes(i32_bits(tx.version), 4)
            &&& s.subrange(0, e.len() as int) == e
        }),
{
    let e = segwit_serialization(tx, flag);
    let s = e + rest;
    let ins = tx.inputs;
    let outs = tx.outputs;
    let a = le_bytes(i32_bits(tx.version), 4);
    let m = seq![0u8, flag];
    let b = compact_size_bytes(ins.len() as u64);
    let c = inputs_bytes(ins);
    let d = compact_size_bytes(outs.len() as u64);
    let f = outputs_bytes(outs);
    let w = witnesses_bytes(ins);
    let g = le_bytes(tx.locktime as int, 4);
    assert(e =~= a + (m + (b + (c + (d + (f + (w + g)))))));
    assert(s.subrange(0, e.len() as int) =~= e);
    assert(holds_at(s, 0, e));
    lemma_holds_split(s, 0, a, m + (b + (c + (d + (f + (w + g))))));
    lemma_holds_split(s, 4, m, b + (c + (d + (f + (w + g)))));
    lemma_holds_split(s, 6, b, c + (d + (f + (w + g))));
    let p1: int = 6 + b.len() as int;
    lemma_holds_split(s, p1, c, d + (f + (w + g)));
    let p2: int = p1 + c.len();
    lemma_holds_split(s, p2, d, f + (w + g));
    let p3: int = p2 + d.len();
    lemma_holds_split(s, p3, f, w + g);
    let p4: int = p3 + f.len();
    lemma_holds_split(s, p4, w, g);
    let p5: int = p4 + w.len();
    lemma_version_read(s, tx.version);
    assert(s[4] == 0 && s[5] == flag) by {
        assert(s.subrange(4, 6)[0] == m[0]);
        assert(s.subrange(4, 6)[1] == m[1]);
    }
    lemma_compact_read(s, 6, ins.len() as u64);
    lemma_inputs_read(s, p1, ins);
    lemma_compact_read(s, p2, outs.len() as u64);
    lemma_outputs_read(s, p3, outs);
    lemma_witnesses_read(s, p4, ins);
    lemma_le4_read(s, p5, tx.locktime as int);
    let ww = without_witnesses(ins);
    let ws = Seq::new(ins.len(), |j: int| ins[j].witness);
    assert(with_witnesses(ww, ws) =~= ins);
    assert(p5 + 4 == e.len());
}

/// A transaction in the extended (segwit) wire encoding, with a non-zero
/// flag and followed by any bytes, parses back to its version, inputs (with
/// their witness stacks), outputs and locktime, consuming exactly its
/// encoding; its txid hashes its legacy encoding, its wtxid the extended one,
/// and its weight is three times the legacy length plus its size.
#[verifier::rlimit(100)]
#[verifier::spinoff_prover]
pub proof fn lemma_parse_segwit_serialization(tx: SpecTransaction, flag: u8, rest: Seq<u8>)
    requires
        encodable_tx(tx),
        flag != 0,
        3 * legacy_serialization(tx).len() + segwit_serialization(tx, flag).len() <= u32::MAX,
    ensures
        ({
            let e = segwit_serialization(tx, flag);
            &&& parse_tx_spec(e + rest) is Some
            &&& parse_tx_spec(e + rest).unwrap().1 == e.len()
            &&& parse_tx_spec(e + rest).unwrap().0.raw == e
            &&& parse_tx_spec(e + rest).unwrap().0.size == e.len()
            &&& parse_tx_spec(e + rest).unwrap().0.version == tx.version
            &&& parse_tx_spec(e + rest).unwrap().0.inputs == tx.inputs
            &&& parse_tx_spec(e + rest).unwrap().0.outputs == tx.outputs
            &&& parse_tx_spec(e + rest).unwrap().0.locktime == tx.locktime
            &&& parse_tx_spec(e + rest).unwrap().0.txid == hash256_spec(legacy_serialization(tx))
            &&& parse_tx_spec(e + rest).unwrap().0.wtxid == hash256_spec(e)
            &&& parse_tx_spec(e + rest).unwrap().0.weight == 3 * legacy_serialization(tx).len()
                + e.len()
        }),
{
    let e = segwit_serialization(tx, flag);
    let s = e + rest;
    let ins = tx.inputs;
    let outs = tx.outputs;
    lemma_segwit_layout(tx, flag, rest);
    let lay = tx_layout(s).unwrap();
    let lg = legacy_serialization(tx);
    assert(nonwitness_bytes(s, lay) =~= lg);
    assert forall|j: int| 0 <= j < ins.len() implies (#[trigger] ins[j]).prev_txid.len() == 32
        && ins[j].script_sig.len() <= u32::MAX by {
        lemma_input_within_inputs_bytes(ins, j);
    }
    assert forall|j: int| 0 <= j < outs.len() implies (#[trigger] outs[j]).script_pubkey.len()
        <= u32::MAX by {
        lemma_output_within_outputs_bytes(outs, j);
    }
    lemma_inputs_base_size(ins);
    lemma_outputs_base_size(outs);
    assert(base_size_spec(s, lay) == lg.len());
}

proof fn lemma_input_within_inputs_bytes(ins: Seq<SpecTxInput>, j: int)
    requires
        0 <= j < ins.len(),
    ensures
        ins[j].script_sig.len() <= inputs_bytes(ins).len(),
    decreases ins.len(),
{
    if j < ins.len() - 1 {
        assert(ins.drop_last()[j] == ins[j]);
        lemma_input_within_inputs_bytes(ins.drop_last(), j);
    }
}

proof fn lemma_output_within_outputs_bytes(outs: Seq<SpecTxOutput>, j: int)
    requires
        0 <= j < outs.len(),
    ensures
        outs[j].script_pubkey.len() <= outputs_bytes(outs).len(),
    decreases outs.len(),
{
    if j < outs.len() - 1 {
        assert(outs.drop_last()[j] == outs[j]);
        lemma_output_within_outputs_bytes(outs.drop_last(), j);
    }
}

/// The header fields sit at their places in the 80 header bytes: for a
/// header laid out as version, previous block hash, merkle root, time, bits
/// and nonce (followed by anything), the parsed header holds exactly those
/// values, and its hash is the double SHA-256 of the 80 bytes.
pub proof fn lemma_header_layout(
    version: i32,
    prev: Seq<u8>,
    merkle: Seq<u8>,
    time: u32,
    bits: u32,
    nonce: u32,
    rest: Seq<u8>,
)
    requires
        prev.len() == 32,
        merkle.len() == 32,
    ensures
        ({
            let hdr = le_bytes(i32_bits(version), 4) + prev + merkle + le_bytes(time as int, 4)
                + le_bytes(bits as int, 4) + le_bytes(nonce as int, 4);
            let h = header_spec(hdr + rest);
            &&& hdr.len() == 80
            &&& h.version == version
            &&& h.prev_block == prev
            &&& h.merkle_root == merkle
            &&& h.prev_block != h.merkle_root || prev == merkle
            &&& h.time == time
            &&& h.bits == bits
            &&& h.nonce == nonce
            &&& h.hash == hash256_spec(hdr)
        }),
{
    let a = le_bytes(i32_bits(version), 4);
    let t = le_bytes(time as int, 4);
    let bb = le_bytes(bits as int, 4);
    let nn = le_bytes(nonce as int, 4);
    let hdr = a + prev + merkle + t + bb + nn;
    let s = hdr + rest;
    assert(hdr =~= a + (prev + (merkle + (t + (bb + nn)))));
    assert(s.subrange(0, 80) =~= hdr);
    assert(holds_at(s, 0, hdr));
    lemma_holds_split(s, 0, a, prev + (merkle + (t + (bb + nn))));
    lemma_holds_split(s, 4, prev, merkle + (t + (bb + nn)));
    lemma_holds_split(s, 36, merkle, t + (bb + nn));
    lemma_holds_split(s, 68, t, bb + nn);
    lemma_holds_split(s, 72, bb, nn);
    lemma_version_read(s, version);
    lemma_le4_read(s, 68, time as int);
    lemma_le4_read(s, 72, bits as int);
    lemma_le4_read(s, 76, nonce as int);
}

/// The raw bytes of a parsed transaction parse back to the same transaction.
pub proof fn lemma_reparse_raw(s: Seq<u8>)
    requires
        parse_tx_spec(s) is Some,
    ensures
        parse_tx_spec(parse_tx_spec(s).unwrap().0.raw) == parse_tx_spec(s),
{
    let n = parse_tx_spec(s).unwrap().1;
    lemma_parse_tx_within(s);
    lemma_parse_tx_prefix(s, n);
}

/// A transaction without witness data weighs four times its size, and its
/// txid is the double SHA-256 of its raw bytes, as is its wtxid.
pub proof fn lemma_nonwitness_tx(s: Seq<u8>)
    requires
        parse_tx_spec(s) is Some,
        !has_witness_spec(s),
    ensures
        parse_tx_spec(s).unwrap().0.weight == 4 * parse_tx_spec(s).unwrap().0.size,
        parse_tx_spec(s).unwrap().0.txid == hash256_spec(parse_tx_spec(s).unwrap().0.raw),
        parse_tx_spec(s).unwrap().0.wtxid == hash256_spec(parse_tx_spec(s).unwrap().0.raw),
{
}

/// Every transaction's wtxid is the double SHA-256 of its raw bytes.
pub proof fn lemma_wtxid(s: Seq<u8>)
    requires
        parse_tx_spec(s) is Some,
    ensures
        parse_tx_spec(s).unwrap().0.wtxid == hash256_spec(parse_tx_spec(s).unwrap().0.raw),
{
}

} // verus!
