//! View logic behind the Esplora endpoints: decoding the request and answering
//! it from the store.
use vstd::prelude::*;
use vstd::utf8::{encode_utf8, is_ascii_chars, is_ascii_chars_encode_utf8, is_continuation_byte, valid_utf8, decode_utf8};

use crate::block::{
    hex_digit, hex_spec, lemma_hex_per_byte, parse_transaction, parse_tx_spec, push_char, to_hex, to_hex_rev,
    SpecTxInput, SpecTxOutput, TxInput,
};
use crate::block::bytes_list_view;
use crate::encoding::{append_bytes, le_u32_at, read_u32_le};
use crate::store::{bytes_eq, Store};
use crate::keys::{
    block_height_key, block_key, block_tx_count_key, block_txid_key, key_bytes, spend_key,
    prefixed_hash, tip_hash_key, tip_hash_key_spec, tip_key, tip_key_spec, tx_key, tx_raw_key,
    IndexKey, SPEND_PREFIX, UTXO_PREFIX,
};
use crate::types::{
    BlockMeta, BlockStatus, IndexValue, SpecIndexValue, SpecTxMeta, SpendInfo, TxMeta, TxStatus,
    SpecUtxoEntry, UtxoEntry,
};

verus! {

// ---------------------------------------------------------------------------
// Request input
// ---------------------------------------------------------------------------

/// The payload of a view request: the bytes after the 4-byte height prefix,
/// or the whole input where it is not longer than the prefix.
pub open spec fn payload_spec(data: Seq<u8>) -> Seq<u8> {
    if data.len() > 4 {
        data.subrange(4, data.len() as int)
    } else {
        data
    }
}

/// The text that `String::from_utf8_lossy` makes of `bytes`.
pub uninterp spec fn utf8_lossy(bytes: Seq<u8>) -> Seq<char>;

/// `String::from_utf8_lossy`, made an owned `String`: valid UTF-8 decodes as
/// such; the replacement of invalid sequences is not stated.
#[verifier::external_body]
fn from_utf8_lossy(bytes: &[u8]) -> (s: String)
    ensures
        s@ == utf8_lossy(bytes@),
        valid_utf8(bytes@) ==> s@ == decode_utf8(bytes@),
{
    String::from_utf8_lossy(bytes).into_owned()
}

/// The request text of a view: the payload after the height prefix, decoded
/// as UTF-8 with invalid sequences replaced.
pub fn input_string(data: &[u8]) -> (s: String)
    ensures
        s@ == utf8_lossy(payload_spec(data@)),
        valid_utf8(payload_spec(data@)) ==> s@ == decode_utf8(payload_spec(data@)),
{
    let payload = if data.len() > 4 {
        vstd::slice::slice_subrange(data, 4, data.len())
    } else {
        data
    };
    from_utf8_lossy(payload)
}

// ---------------------------------------------------------------------------
// Trimming
// ---------------------------------------------------------------------------

/// The Unicode `White_Space` characters, which `str::trim` removes.
pub open spec fn is_unicode_whitespace(c: char) -> bool {
    let u = c as u32;
    (0x9 <= u <= 0xd) || u == 0x20 || u == 0x85 || u == 0xa0 || u == 0x1680 || (0x2000 <= u
        <= 0x200a) || u == 0x2028 || u == 0x2029 || u == 0x202f || u == 0x205f || u == 0x3000
}

/// `s` without its leading whitespace.
pub open spec fn trim_start_spec(s: Seq<char>) -> Seq<char>
    decreases s.len(),
{
    if s.len() > 0 && is_unicode_whitespace(s[0]) {
        trim_start_spec(s.drop_first())
    } else {
        s
    }
}

/// `s` without its trailing whitespace.
pub open spec fn trim_end_spec(s: Seq<char>) -> Seq<char>
    decreases s.len(),
{
    if s.len() > 0 && is_unicode_whitespace(s.last()) {
        trim_end_spec(s.drop_last())
    } else {
        s
    }
}

/// `s` without leading and trailing whitespace.
pub open spec fn trim_spec(s: Seq<char>) -> Seq<char> {
    trim_end_spec(trim_start_spec(s))
}

/// `str::trim`: the slice without leading and trailing Unicode whitespace.
#[verifier::external_body]
fn str_trim(s: &str) -> (r: &str)
    ensures
        r@ == trim_spec(s@),
{
    s.trim()
}

// ---------------------------------------------------------------------------
// Hash decoding
// ---------------------------------------------------------------------------

/// The value of a hex digit byte, as `char::to_digit(16)` reads it.
pub open spec fn hex_val(b: u8) -> Option<u8> {
    if 0x30 <= b <= 0x39 {
        Some((b - 0x30) as u8)
    } else if 0x61 <= b <= 0x66 {
        Some((b - 0x57) as u8)
    } else if 0x41 <= b <= 0x46 {
        Some((b - 0x37) as u8)
    } else {
        None
    }
}

/// What `u8::from_str_radix(.., 16)` makes of the two bytes `b0 b1`: an
/// optional `+` sign, then hex digits.
pub open spec fn pair_value(b0: u8, b1: u8) -> Option<u8> {
    if b0 == 0x2b {
        hex_val(b1)
    } else {
        match (hex_val(b0), hex_val(b1)) {
            (Some(h), Some(l)) => Some((16 * h + l) as u8),
            _ => None,
        }
    }
}

/// Whether slicing a `str` with UTF-8 bytes `b` at byte `i` is allowed.
pub open spec fn char_boundary(b: Seq<u8>, i: int) -> bool {
    i == 0 || i == b.len() || (0 < i < b.len() && !is_continuation_byte(b[i]))
}

/// The byte pairs of `b` from pair `k` on, read left to right, each one parsed
/// as it is sliced: `None` where slicing a pair would panic; `Some(None)`
/// at the first pair that is no byte (the rest is not read); `Some(Some(v))`
/// with the bytes.
pub open spec fn hex_pairs(b: Seq<u8>, k: nat) -> Option<Option<Seq<u8>>>
    decreases 32 - k,
{
    if k >= 32 {
        Some(Some(seq![]))
    } else if !char_boundary(b, 2 * k as int) || !char_boundary(b, 2 * k as int + 2) {
        None
    } else {
        match pair_value(b[2 * k as int], b[2 * k as int + 1]) {
            None => Some(None),
            Some(v) => match hex_pairs(b, k + 1) {
                None => None,
                Some(None) => Some(None),
                Some(Some(rest)) => Some(Some(seq![v] + rest)),
            },
        }
    }
}

/// What `decode_hash` does with `hex`: `None` where it panics; otherwise the
/// hash whose display hex (reversed byte order) `hex` is, if it is one.
pub open spec fn decode_hash_outcome(hex: Seq<char>) -> Option<Option<Seq<u8>>> {
    let b = encode_utf8(trim_spec(hex));
    if b.len() != 64 {
        Some(None)
    } else {
        match hex_pairs(b, 0) {
            None => None,
            Some(None) => Some(None),
            Some(Some(bytes)) => Some(Some(bytes.reverse())),
        }
    }
}

fn hex_val_exec(b: u8) -> (r: Option<u8>)
    ensures
        r == hex_val(b),
{
    if 0x30 <= b && b <= 0x39 {
        Some(b - 0x30)
    } else if 0x61 <= b && b <= 0x66 {
        Some(b - 0x57)
    } else if 0x41 <= b && b <= 0x46 {
        Some(b - 0x37)
    } else {
        None
    }
}

fn pair_value_exec(b0: u8, b1: u8) -> (r: Option<u8>)
    ensures
        r == pair_value(b0, b1),
{
    if b0 == 0x2b {
        hex_val_exec(b1)
    } else {
        match (hex_val_exec(b0), hex_val_exec(b1)) {
            (Some(h), Some(l)) => Some(16 * h + l),
            _ => None,
        }
    }
}

fn char_boundary_exec(b: &[u8], i: usize) -> (r: bool)
    requires
        i <= b@.len(),
    ensures
        r == char_boundary(b@, i as int),
{
    i == 0 || i == b.len() || !(0x80 <= b[i] && b[i] <= 0xbf)
}

/// The partial result `acc` followed by what the pairs from `k` on give.
pub open spec fn with_prefix(acc: Seq<u8>, rest: Option<Option<Seq<u8>>>) -> Option<Option<Seq<u8>>> {
    match rest {
        None => None,
        Some(None) => Some(None),
        Some(Some(r)) => Some(Some(acc + r)),
    }
}

/// Decodes a display-order hex hash, or `None` where `decode_hash` would panic.
pub fn decode_hash_checked(hex: &str) -> (r: Option<Option<[u8; 32]>>)
    ensures
        match r {
            None => decode_hash_outcome(hex@) is None,
            Some(None) => decode_hash_outcome(hex@) == Some(None::<Seq<u8>>),
            Some(Some(h)) => decode_hash_outcome(hex@) == Some(Some(h@)),
        },
{
    let t = str_trim(hex);
    let b = t.as_bytes();
    if b.len() != 64 {
        return Some(None);
    }
    let mut acc: Vec<u8> = Vec::new();
    let mut k: usize = 0;
    while k < 32
        invariant
            k <= 32,
            b@.len() == 64,
            b@ == encode_utf8(trim_spec(hex@)),
            acc@.len() == k,
            hex_pairs(b@, 0) == with_prefix(acc@, hex_pairs(b@, k as nat)),
        decreases 32 - k,
    {
        if !char_boundary_exec(b, 2 * k) || !char_boundary_exec(b, 2 * k + 2) {
            return None;
        }
        match pair_value_exec(b[2 * k], b[2 * k + 1]) {
            None => {
                return Some(None);
            },
            Some(v) => {
                let ghost old_acc = acc@;
                acc.push(v);
                proof {
                    match hex_pairs(b@, (k + 1) as nat) {
                        None => {},
                        Some(None) => {},
                        Some(Some(rest)) => {
                            assert(old_acc + (seq![v] + rest) =~= acc@ + rest);
                        },
                    }
                }
                k = k + 1;
            },
        }
    }
    assert(acc@ + Seq::<u8>::empty() =~= acc@);
    let mut result = [0u8; 32];
    let mut i: usize = 0;
    while i < 32
        invariant
            i <= 32,
            acc@.len() == 32,
            forall|j: int| 0 <= j < i ==> result@[j] == acc@.reverse()[j],
        decreases 32 - i,
    {
        result[i] = acc[31 - i];
        i = i + 1;
    }
    assert(result@ =~= acc@.reverse());
    Some(Some(result))
}

/// Decodes a display-order (byte-reversed) hex hash, after trimming whitespace.
pub fn decode_hash(hex: &str) -> (r: Option<[u8; 32]>)
    requires
        decode_hash_outcome(hex@) is Some,
    ensures
        match r {
            None => decode_hash_outcome(hex@) == Some(None::<Seq<u8>>),
            Some(h) => decode_hash_outcome(hex@) == Some(Some(h@)),
        },
{
    decode_hash_checked(hex).unwrap()
}


/// The upper-case form of a lowercase hex letter; other characters stay.
pub open spec fn upcase_hex(c: char) -> char {
    if 'a' <= c <= 'f' {
        ((c as u32) - 32) as char
    } else {
        c
    }
}

/// `u` is `s` with any of its lowercase hex letters upper-cased.
pub open spec fn hex_case_variant(u: Seq<char>, s: Seq<char>) -> bool {
    &&& u.len() == s.len()
    &&& forall|i: int| 0 <= i < s.len() ==> #[trigger] u[i] == s[i] || u[i] == upcase_hex(s[i])
}

proof fn lemma_hex_digit_byte(n: int)
    requires
        0 <= n < 16,
    ensures
        '\0' <= hex_digit(n) <= '\u{7f}',
        !is_unicode_whitespace(hex_digit(n)),
        hex_digit(n) as u8 != 0x2b,
        hex_val(hex_digit(n) as u8) == Some(n as u8),
        '\0' <= upcase_hex(hex_digit(n)) <= '\u{7f}',
        !is_unicode_whitespace(upcase_hex(hex_digit(n))),
        upcase_hex(hex_digit(n)) as u8 != 0x2b,
        hex_val(upcase_hex(hex_digit(n)) as u8) == Some(n as u8),
{
}

proof fn lemma_hex_pairs_of_display(u: Seq<char>, bytes: Seq<u8>, r: Seq<u8>, k: nat)
    requires
        r.len() == 32,
        k <= 32,
        hex_case_variant(u, hex_spec(r)),
        bytes.len() == 64,
        forall|i: int| 0 <= i < 64 ==> bytes[i] == u[i] as u8,
    ensures
        hex_pairs(bytes, k) == Some(Some(r.subrange(k as int, 32))),
    decreases 32 - k,
{
    let s = hex_spec(r);
    lemma_hex_per_byte(r);
    if k < 32 {
        lemma_hex_pairs_of_display(u, bytes, r, k + 1);
        let i = k as int;
        lemma_hex_digit_byte(r[i] as int / 16);
        lemma_hex_digit_byte(r[i] as int % 16);
        assert(bytes[2 * i] == u[2 * i] as u8);
        assert(bytes[2 * i + 1] == u[2 * i + 1] as u8);
        assert(u[2 * i] == s[2 * i] || u[2 * i] == upcase_hex(s[2 * i]));
        assert(u[2 * i + 1] == s[2 * i + 1] || u[2 * i + 1] == upcase_hex(s[2 * i + 1]));
        if 2 * i + 2 < 64 {
            lemma_hex_digit_byte(r[i + 1] as int / 16);
            assert(bytes[2 * i + 2] == u[2 * (i + 1)] as u8);
            assert(u[2 * (i + 1)] == s[2 * (i + 1)] || u[2 * (i + 1)] == upcase_hex(s[2 * (i + 1)]));
        }
        assert(pair_value(bytes[2 * i], bytes[2 * i + 1]) == Some(r[i]));
        assert(seq![r[i]] + r.subrange(i + 1, 32) =~= r.subrange(i, 32));
    } else {
        assert(r.subrange(32, 32) =~= Seq::<u8>::empty());
    }
}

/// Decoding the display hex of a 32-byte hash gives back the hash: the
/// request a view receives for `to_hex_rev(h)` names `h`.
pub proof fn lemma_decode_display_hash(h: Seq<u8>)
    requires
        h.len() == 32,
    ensures
        decode_hash_outcome(hex_spec(h.reverse())) == Some(Some(h)),
{
    let r = h.reverse();
    let s = hex_spec(r);
    lemma_hex_per_byte(r);
    assert forall|i: int| 0 <= i < s.len() implies '\0' <= #[trigger] s[i] <= '\u{7f}'
        && !is_unicode_whitespace(s[i]) by {
        let j = i / 2;
        if i % 2 == 0 {
            assert(i == 2 * j);
            lemma_hex_digit_byte(r[j] as int / 16);
        } else {
            assert(i == 2 * j + 1);
            lemma_hex_digit_byte(r[j] as int % 16);
        }
    }
    assert(trim_start_spec(s) == s);
    assert(trim_end_spec(s) == s);
    assert(is_ascii_chars(s));
    is_ascii_chars_encode_utf8(s);
    let bytes = encode_utf8(s);
    assert(hex_case_variant(s, s));
    lemma_hex_pairs_of_display(s, bytes, r, 0);
    assert(r.subrange(0, 32) =~= r);
    assert(r.reverse() =~= h);
}

proof fn lemma_trim_start_lead(lead: Seq<char>, v: Seq<char>)
    requires
        forall|i: int| 0 <= i < lead.len() ==> is_unicode_whitespace(#[trigger] lead[i]),
        v.len() > 0,
        !is_unicode_whitespace(v[0]),
    ensures
        trim_start_spec(lead + v) == v,
    decreases lead.len(),
{
    if lead.len() > 0 {
        assert((lead + v).drop_first() =~= lead.drop_first() + v);
        assert(lead[0] == (lead + v)[0]);
        lemma_trim_start_lead(lead.drop_first(), v);
    } else {
        assert(lead + v =~= v);
    }
}

proof fn lemma_trim_end_trail(v: Seq<char>, trail: Seq<char>)
    requires
        forall|i: int| 0 <= i < trail.len() ==> is_unicode_whitespace(#[trigger] trail[i]),
        v.len() > 0,
        !is_unicode_whitespace(v.last()),
    ensures
        trim_end_spec(v + trail) == v,
    decreases trail.len(),
{
    if trail.len() > 0 {
        assert((v + trail).drop_last() =~= v + trail.drop_last());
        assert(trail.last() == (v + trail).last());
        lemma_trim_end_trail(v, trail.drop_last());
    } else {
        assert(v + trail =~= v);
    }
}

/// Decoding ignores whitespace around the hex and the case of its letters:
/// the display hex of a 32-byte hash, with any of its letters upper-cased
/// and any whitespace before and after it, names the hash.
pub proof fn lemma_decode_display_hash_variant(
    h: Seq<u8>,
    u: Seq<char>,
    lead: Seq<char>,
    trail: Seq<char>,
)
    requires
        h.len() == 32,
        hex_case_variant(u, hex_spec(h.reverse())),
        forall|i: int| 0 <= i < lead.len() ==> is_unicode_whitespace(#[trigger] lead[i]),
        forall|i: int| 0 <= i < trail.len() ==> is_unicode_whitespace(#[trigger] trail[i]),
    ensures
        decode_hash_outcome(lead + u + trail) == Some(Some(h)),
{
    let r = h.reverse();
    let s = hex_spec(r);
    lemma_hex_per_byte(r);
    assert forall|i: int| 0 <= i < u.len() implies '\0' <= #[trigger] u[i] <= '\u{7f}'
        && !is_unicode_whitespace(u[i]) by {
        let j = i / 2;
        assert(u[i] == s[i] || u[i] == upcase_hex(s[i]));
        if i % 2 == 0 {
            assert(i == 2 * j);
            lemma_hex_digit_byte(r[j] as int / 16);
        } else {
            assert(i == 2 * j + 1);
            lemma_hex_digit_byte(r[j] as int % 16);
        }
    }
    assert(u[0] == u[0]);
    assert(u.last() == u[u.len() - 1]);
    assert(lead + u + trail =~= lead + (u + trail));
    assert((u + trail)[0] == u[0]);
    lemma_trim_start_lead(lead, u + trail);
    lemma_trim_end_trail(u, trail);
    assert(trim_spec(lead + u + trail) == u);
    assert(is_ascii_chars(u));
    is_ascii_chars_encode_utf8(u);
    let bytes = encode_utf8(u);
    lemma_hex_pairs_of_display(u, bytes, r, 0);
    assert(r.subrange(0, 32) =~= r);
    assert(r.reverse() =~= h);
}


// ---------------------------------------------------------------------------
// Reading the store
// ---------------------------------------------------------------------------

/// The raw bytes stored under `k`; a key that holds a metadata record reads
/// as holding no bytes.
pub open spec fn bytes_at(m: Map<Seq<u8>, SpecIndexValue>, k: Seq<u8>) -> Option<Seq<u8>> {
    if m.contains_key(k) {
        match m[k] {
            SpecIndexValue::Bytes(b) => Some(b),
            _ => None,
        }
    } else {
        None
    }
}

/// A stored hash: the bytes where they are 32 long, otherwise all zeros.
pub open spec fn hash_or_zero(b: Seq<u8>) -> Seq<u8> {
    if b.len() == 32 {
        b
    } else {
        Seq::new(32, |i: int| 0u8)
    }
}

/// A stored little-endian `u32`: the first four bytes, or 0 where the value
/// is missing or shorter.
pub open spec fn u32_or_zero(b: Option<Seq<u8>>) -> u32 {
    match b {
        Some(v) => if v.len() >= 4 {
            le_u32_at(v, 0) as u32
        } else {
            0
        },
        None => 0,
    }
}

/// Display form of a hash.
pub open spec fn display_hash(h: Seq<u8>) -> Seq<char> {
    hex_spec(h.reverse())
}

fn get_bytes<'a>(store: &'a Store, key: &[u8]) -> (r: Option<&'a Vec<u8>>)
    ensures
        match r {
            Some(b) => bytes_at(store@, key@) == Some(b@),
            None => bytes_at(store@, key@) is None,
        },
{
    match store.get(key) {
        Some(IndexValue::Bytes(b)) => Some(b),
        _ => None,
    }
}

fn hash_or_zero_exec(b: &Vec<u8>) -> (h: [u8; 32])
    ensures
        h@ == hash_or_zero(b@),
{
    let mut h = [0u8; 32];
    if b.len() == 32 {
        let mut i: usize = 0;
        while i < 32
            invariant
                i <= 32,
                b@.len() == 32,
                forall|j: int| 0 <= j < i ==> h@[j] == b@[j],
                forall|j: int| i <= j < 32 ==> h@[j] == 0u8,
            decreases 32 - i,
        {
            h[i] = b[i];
            i = i + 1;
        }
        assert(h@ =~= b@);
    } else {
        assert(h@ =~= hash_or_zero(b@));
    }
    h
}

fn u32_or_zero_exec(b: Option<&Vec<u8>>) -> (r: u32)
    ensures
        r == u32_or_zero(
            match b {
                Some(v) => Some(v@),
                None => None,
            },
        ),
{
    match b {
        Some(v) => if v.len() >= 4 {
            read_u32_le(v.as_slice(), 0)
        } else {
            0
        },
        None => 0,
    }
}

/// Decimal digits of `n`, most significant first.
pub open spec fn decimal_spec(n: nat) -> Seq<char>
    decreases n,
{
    if n < 10 {
        seq![(n + 48) as char]
    } else {
        decimal_spec(n / 10).push(((n % 10) + 48) as char)
    }
}

/// The decimal text of `n`, as `u32::to_string` writes it.
pub fn u32_to_decimal(n: u32) -> (s: String)
    ensures
        s@ == decimal_spec(n as nat),
    decreases n,
{
    if n < 10 {
        let mut s = String::new();
        push_char(&mut s, ((n as u8) + 48) as char);
        assert(s@ =~= decimal_spec(n as nat));
        s
    } else {
        let mut s = u32_to_decimal(n / 10);
        push_char(&mut s, (((n % 10) as u8) + 48) as char);
        s
    }
}

/// An owned copy of a text literal.
fn text(t: &str) -> (s: String)
    ensures
        s@ == t@,
{
    <String as vstd::string::StringExecFns>::from_str(t)
}


// ---------------------------------------------------------------------------
// Views
// ---------------------------------------------------------------------------

/// Why a view answers with an error object.
#[derive(Debug, Clone, Copy, PartialEq, Eq, Structural)]
pub enum ViewError {
    InvalidTxid,
    TxNotFound,
    CorruptTxMetadata,
    InvalidBlockHash,
    BlockNotFound,
    CorruptBlockMetadata,
    CorruptBlock,
    InvalidScriptHash,
}

impl ViewError {
    /// The text of the `error` field.
    pub fn message(&self) -> (m: &'static str)
        ensures
            m@ == self.message_spec(),
    {
        match self {
            ViewError::InvalidTxid => "invalid txid",
            ViewError::TxNotFound => "tx not found",
            ViewError::CorruptTxMetadata => "corrupt tx metadata",
            ViewError::InvalidBlockHash => "invalid block hash",
            ViewError::BlockNotFound => "block not found",
            ViewError::CorruptBlockMetadata => "corrupt block metadata",
            ViewError::CorruptBlock => "corrupt block",
            ViewError::InvalidScriptHash => "invalid script hash",
        }
    }

    pub open spec fn message_spec(&self) -> Seq<char> {
        match self {
            ViewError::InvalidTxid => "invalid txid"@,
            ViewError::TxNotFound => "tx not found"@,
            ViewError::CorruptTxMetadata => "corrupt tx metadata"@,
            ViewError::InvalidBlockHash => "invalid block hash"@,
            ViewError::BlockNotFound => "block not found"@,
            ViewError::CorruptBlockMetadata => "corrupt block metadata"@,
            ViewError::CorruptBlock => "corrupt block"@,
            ViewError::InvalidScriptHash => "invalid script hash"@,
        }
    }
}

/// The decoded hash of a request, where the request names one.
pub open spec fn requested_hash(input: Seq<char>) -> Option<Seq<u8>> {
    decode_hash_outcome(input).unwrap()
}

/// GET /blocks/tip/height: the decimal height of the chain tip, 0 before any block.
pub fn tipheight(store: &Store) -> (s: String)
    ensures
        s@ == decimal_spec(u32_or_zero(bytes_at(store@, tip_key_spec())) as nat),
{
    let key = tip_key();
    let height = u32_or_zero_exec(get_bytes(store, key.as_slice()));
    u32_to_decimal(height)
}

/// GET /blocks/tip/hash: the display hash of the chain tip, empty before any block.
pub fn tiphash(store: &Store) -> (s: String)
    ensures
        s@ == match bytes_at(store@, tip_hash_key_spec()) {
            Some(b) => display_hash(hash_or_zero(b)),
            None => Seq::<char>::empty(),
        },
{
    let key = tip_hash_key();
    match get_bytes(store, key.as_slice()) {
        Some(b) => {
            let h = hash_or_zero_exec(b);
            to_hex_rev(h.as_slice())
        },
        None => String::new(),
    }
}

/// GET /block/:hash/header: the request text, as it came.
pub fn blockheader(input: &str) -> (s: String)
    ensures
        s@ == input@,
{
    text(input)
}

/// The height that `str::parse::<u32>` reads from `s`: an optional `+`, then
/// one or more ASCII digits, with a value that fits a `u32`.
pub open spec fn parse_u32_spec(s: Seq<char>) -> Option<u32> {
    let digits = if s.len() > 0 && s[0] == '+' {
        s.drop_first()
    } else {
        s
    };
    if digits.len() == 0 || !(forall|i: int|
        0 <= i < digits.len() ==> '0' <= #[trigger] digits[i] <= '9') {
        None
    } else if digits_value(digits) > u32::MAX {
        None
    } else {
        Some(digits_value(digits) as u32)
    }
}

/// The value of a string of decimal digits.
pub open spec fn digits_value(d: Seq<char>) -> nat
    decreases d.len(),
{
    if d.len() == 0 {
        0
    } else {
        digits_value(d.drop_last()) * 10 + ((d.last() as nat) - 48) as nat
    }
}

/// The decimal text of `n` is a non-empty string of ASCII digits, with no
/// leading zero unless `n` is 0, and it reads back as `n`.
pub proof fn lemma_decimal_digits(n: nat)
    ensures
        decimal_spec(n).len() > 0,
        forall|i: int| 0 <= i < decimal_spec(n).len() ==> '0' <= #[trigger] decimal_spec(n)[i] <= '9',
        decimal_spec(n)[0] == '0' ==> n == 0,
        digits_value(decimal_spec(n)) == n,
        n <= u32::MAX ==> parse_u32_spec(decimal_spec(n)) == Some(n as u32),
    decreases n,
{
    let d = decimal_spec(n);
    let c = d.last();
    assert(c == ((n % 10) + 48) as char);
    assert(c as nat == (n % 10) + 48);
    if n < 10 {
        assert(d.drop_last() =~= Seq::<char>::empty());
        assert(digits_value(d.drop_last()) == 0);
        assert(digits_value(d) == n);
    } else {
        lemma_decimal_digits(n / 10);
        let p = decimal_spec(n / 10);
        assert(d.drop_last() =~= p);
        assert(d[0] == p[0]);
        assert forall|i: int| 0 <= i < d.len() implies '0' <= #[trigger] d[i] <= '9' by {
            if i < p.len() {
                assert(d[i] == p[i]);
            }
        }
        assert(digits_value(d) == (n / 10) * 10 + n % 10);
    }
    assert(d.len() == 0 || d[0] != '+');
}

/// `str::parse::<u32>`: the decimal value of the whole text, with an optional
/// leading `+`, where it fits a `u32`.
#[verifier::external_body]
fn parse_u32(s: &str) -> (r: Option<u32>)
    ensures
        r == parse_u32_spec(s@),
{
    s.parse::<u32>().ok()
}

/// GET /block-height/:height: the display hash of the block at the height.
pub fn blockheight(store: &Store, input: &str) -> (s: String)
    ensures
        s@ == match parse_u32_spec(trim_spec(input@)) {
            None => "invalid height"@,
            Some(h) => match bytes_at(store@, key_bytes(IndexKey::BlockHeight(h))) {
                Some(b) => display_hash(hash_or_zero(b)),
                None => "block not found"@,
            },
        },
{
    let height = match parse_u32(str_trim(input)) {
        Some(h) => h,
        None => return text("invalid height"),
    };
    let key = block_height_key(height);
    match get_bytes(store, key.as_slice()) {
        Some(b) => {
            let h = hash_or_zero_exec(b);
            to_hex_rev(h.as_slice())
        },
        None => text("block not found"),
    }
}

/// GET /block/:hash: the block metadata.
pub fn block<'a>(store: &'a Store, input: &str) -> (r: Result<&'a BlockMeta, ViewError>)
    requires
        decode_hash_outcome(input@) is Some,
    ensures
        match requested_hash(input@) {
            None => r == Err::<&BlockMeta, ViewError>(ViewError::InvalidBlockHash),
            Some(h) => {
                let k = key_bytes(IndexKey::Block(h));
                if !store@.contains_key(k) {
                    r == Err::<&BlockMeta, ViewError>(ViewError::BlockNotFound)
                } else {
                    match store@[k] {
                        SpecIndexValue::Block(m) => r matches Ok(meta) && meta@ == m,
                        _ => r == Err::<&BlockMeta, ViewError>(ViewError::CorruptBlockMetadata),
                    }
                }
            },
        },
{
    let hash = match decode_hash(input) {
        Some(h) => h,
        None => return Err(ViewError::InvalidBlockHash),
    };
    let key = block_key(&hash);
    match store.get(key.as_slice()) {
        Some(IndexValue::Block(meta)) => Ok(meta),
        Some(_) => Err(ViewError::CorruptBlockMetadata),
        None => Err(ViewError::BlockNotFound),
    }
}

/// Whether `blockstatus` fails on `input`: the block's recorded height has no successor.
pub open spec fn blockstatus_overflows(m: Map<Seq<u8>, SpecIndexValue>, input: Seq<char>) -> bool {
    match requested_hash(input) {
        Some(h) => {
            let k = key_bytes(IndexKey::Block(h));
            m.contains_key(k) && (m[k] matches SpecIndexValue::Block(meta) && meta.height
                == u32::MAX)
        },
        None => false,
    }
}

/// GET /block/:hash/status: the block is in the best chain; the next block,
/// where one is recorded at the next height.
pub fn blockstatus(store: &Store, input: &str) -> (r: Result<BlockStatus, ViewError>)
    requires
        decode_hash_outcome(input@) is Some,
        !blockstatus_overflows(store@, input@),
    ensures
        match requested_hash(input@) {
            None => r == Err::<BlockStatus, ViewError>(ViewError::InvalidBlockHash),
            Some(h) => {
                let k = key_bytes(IndexKey::Block(h));
                if !store@.contains_key(k) {
                    r == Err::<BlockStatus, ViewError>(ViewError::BlockNotFound)
                } else {
                    match store@[k] {
                        SpecIndexValue::Block(m) => r matches Ok(st) && st.in_best_chain
                            && st.height == m.height && match bytes_at(
                            store@,
                            key_bytes(IndexKey::BlockHeight((m.height + 1) as u32)),
                        ) {
                            Some(b) => st.next_best matches Some(n) && n@ == display_hash(
                                hash_or_zero(b),
                            ),
                            None => st.next_best is None,
                        },
                        _ => r == Err::<BlockStatus, ViewError>(ViewError::CorruptBlock),
                    }
                }
            },
        },
{
    let hash = match decode_hash(input) {
        Some(h) => h,
        None => return Err(ViewError::InvalidBlockHash),
    };
    let key = block_key(&hash);
    match store.get(key.as_slice()) {
        Some(IndexValue::Block(meta)) => {
            let next_key = block_height_key(meta.height + 1);
            let next_best = match get_bytes(store, next_key.as_slice()) {
                Some(b) => {
                    let h = hash_or_zero_exec(b);
                    Some(to_hex_rev(h.as_slice()))
                },
                None => None,
            };
            Ok(BlockStatus { in_best_chain: true, height: meta.height, next_best })
        },
        Some(_) => Err(ViewError::CorruptBlock),
        None => Err(ViewError::BlockNotFound),
    }
}

/// The display txids recorded for the first `n` positions of block `h`,
/// skipping positions with no record.
pub open spec fn block_txids_spec(m: Map<Seq<u8>, SpecIndexValue>, h: Seq<u8>, n: nat) -> Seq<
    Seq<char>,
>
    decreases n,
{
    if n == 0 {
        seq![]
    } else {
        let prev = block_txids_spec(m, h, (n - 1) as nat);
        match bytes_at(m, key_bytes(IndexKey::BlockTxid(h, (n - 1) as u32))) {
            Some(t) => prev.push(display_hash(hash_or_zero(t))),
            None => prev,
        }
    }
}

/// The model of a list of strings.
pub open spec fn strings_view(v: Seq<String>) -> Seq<Seq<char>> {
    v.map_values(|s: String| s@)
}

/// GET /block/:hash/txids: the display txids of the block, in block order.
pub fn blocktxids(store: &Store, input: &str) -> (r: Result<Vec<String>, ViewError>)
    requires
        decode_hash_outcome(input@) is Some,
    ensures
        match requested_hash(input@) {
            None => r == Err::<Vec<String>, ViewError>(ViewError::InvalidBlockHash),
            Some(h) => r matches Ok(v) && strings_view(v@) == block_txids_spec(
                store@,
                h,
                u32_or_zero(bytes_at(store@, key_bytes(IndexKey::BlockTxCount(h)))) as nat,
            ),
        },
{
    let hash = match decode_hash(input) {
        Some(h) => h,
        None => return Err(ViewError::InvalidBlockHash),
    };
    let count_key = block_tx_count_key(&hash);
    let tx_count = u32_or_zero_exec(get_bytes(store, count_key.as_slice()));
    let mut txids: Vec<String> = Vec::new();
    let mut i: u32 = 0;
    while i < tx_count
        invariant
            i <= tx_count,
            strings_view(txids@) == block_txids_spec(store@, hash@, i as nat),
        decreases tx_count - i,
    {
        let key = block_txid_key(&hash, i);
        let ghost before = txids@;
        match get_bytes(store, key.as_slice()) {
            Some(t) => {
                let h = hash_or_zero_exec(t);
                txids.push(to_hex_rev(h.as_slice()));
                assert(strings_view(txids@) =~= strings_view(before).push(display_hash(hash_or_zero(t@))));
            },
            None => {},
        }
        i = i + 1;
    }
    Ok(txids)
}


/// The confirmation status that a transaction metadata record gives.
pub open spec fn status_of(meta: SpecTxMeta, st: TxStatus) -> bool {
    &&& st.confirmed
    &&& st.block_height == Some(meta.block_height)
    &&& st.block_hash matches Some(bh) && bh@ == meta.block_hash
    &&& st.block_time == Some(meta.block_time)
}

fn confirmed_status(meta: &TxMeta) -> (st: TxStatus)
    ensures
        status_of(meta@, st),
{
    TxStatus {
        confirmed: true,
        block_height: Some(meta.block_height),
        block_hash: Some(meta.block_hash.clone()),
        block_time: Some(meta.block_time),
    }
}

/// The transaction metadata stored under `k`, where a record of that kind is there.
pub open spec fn tx_meta_at(m: Map<Seq<u8>, SpecIndexValue>, k: Seq<u8>) -> Option<SpecTxMeta> {
    if m.contains_key(k) {
        match m[k] {
            SpecIndexValue::Tx(meta) => Some(meta),
            _ => None,
        }
    } else {
        None
    }
}

fn get_tx_meta<'a>(store: &'a Store, key: &[u8]) -> (r: Option<&'a TxMeta>)
    ensures
        match r {
            Some(meta) => tx_meta_at(store@, key@) == Some(meta@),
            None => tx_meta_at(store@, key@) is None,
        },
{
    match store.get(key) {
        Some(IndexValue::Tx(meta)) => Some(meta),
        _ => None,
    }
}

/// The bytes of a text.
fn text_bytes(t: &str) -> (b: Vec<u8>)
    ensures
        b@ == encode_utf8(t@),
{
    vstd::slice::slice_to_vec(t.as_bytes())
}

/// GET /tx/:txid/hex: the raw transaction in hex.
pub fn txhex(store: &Store, input: &str) -> (s: String)
    requires
        decode_hash_outcome(input@) is Some,
    ensures
        s@ == match requested_hash(input@) {
            None => "invalid txid"@,
            Some(txid) => match bytes_at(store@, key_bytes(IndexKey::TxRaw(txid))) {
                Some(raw) => hex_spec(raw),
                None => "tx not found"@,
            },
        },
{
    let txid = match decode_hash(input) {
        Some(h) => h,
        None => return text("invalid txid"),
    };
    let key = tx_raw_key(&txid);
    match get_bytes(store, key.as_slice()) {
        Some(raw) => to_hex(raw.as_slice()),
        None => text("tx not found"),
    }
}

/// GET /tx/:txid/raw: the raw transaction bytes.
pub fn txraw(store: &Store, input: &str) -> (r: Vec<u8>)
    requires
        decode_hash_outcome(input@) is Some,
    ensures
        r@ == match requested_hash(input@) {
            None => encode_utf8("invalid txid"@),
            Some(txid) => match bytes_at(store@, key_bytes(IndexKey::TxRaw(txid))) {
                Some(raw) => raw,
                None => encode_utf8("tx not found"@),
            },
        },
{
    let txid = match decode_hash(input) {
        Some(h) => h,
        None => return text_bytes("invalid txid"),
    };
    let key = tx_raw_key(&txid);
    match get_bytes(store, key.as_slice()) {
        Some(raw) => vstd::slice::slice_to_vec(raw.as_slice()),
        None => text_bytes("tx not found"),
    }
}

/// GET /tx/:txid/status: confirmed with its block, where the transaction is
/// recorded; unconfirmed otherwise.
pub fn txstatus(store: &Store, input: &str) -> (r: Result<TxStatus, ViewError>)
    requires
        decode_hash_outcome(input@) is Some,
    ensures
        match requested_hash(input@) {
            None => r == Err::<TxStatus, ViewError>(ViewError::InvalidTxid),
            Some(txid) => r matches Ok(st) && match tx_meta_at(
                store@,
                key_bytes(IndexKey::Tx(txid)),
            ) {
                Some(meta) => status_of(meta, st),
                None => !st.confirmed && st.block_height is None && st.block_hash is None
                    && st.block_time is None,
            },
        },
{
    let txid = match decode_hash(input) {
        Some(h) => h,
        None => return Err(ViewError::InvalidTxid),
    };
    let key = tx_key(&txid);
    match get_tx_meta(store, key.as_slice()) {
        Some(meta) => Ok(confirmed_status(meta)),
        None => Ok(TxStatus { confirmed: false, block_height: None, block_hash: None, block_time: None }),
    }
}

/// Whether `serde_json` reads `text` as a JSON value.
pub uninterp spec fn json_text_parses(text: Seq<char>) -> bool;

/// The string member `key` of the JSON object that `serde_json` reads from
/// `text`, where there is one.
pub uninterp spec fn json_str_member(text: Seq<char>, key: Seq<char>) -> Option<Seq<char>>;

/// The unsigned integer member `key` of the JSON object that `serde_json`
/// reads from `text`, where there is one that fits a `u64`.
pub uninterp spec fn json_u64_member(text: Seq<char>, key: Seq<char>) -> Option<u64>;

/// `serde_json::from_str::<serde_json::Value>`: whether it reads `text`.
#[verifier::external_body]
fn json_parses(text: &str) -> (r: bool)
    ensures
        r == json_text_parses(text@),
{
    serde_json::from_str::<serde_json::Value>(text).is_ok()
}

/// `serde_json::from_str::<serde_json::Value>`, then the member `key` as a
/// string (`Value::as_str`); `None` where the text is no JSON, the member is
/// missing or it is no string.
#[verifier::external_body]
fn json_member_str(text: &str, key: &str) -> (r: Option<String>)
    ensures
        match r {
            Some(v) => json_str_member(text@, key@) == Some(v@),
            None => json_str_member(text@, key@) is None,
        },
{
    match serde_json::from_str::<serde_json::Value>(text) {
        Ok(v) => v[key].as_str().map(|x| x.to_string()),
        Err(_) => None,
    }
}

/// `serde_json::from_str::<serde_json::Value>`, then the member `key` as an
/// unsigned integer (`Value::as_u64`); `None` where the text is no JSON, the
/// member is missing or it is no `u64`.
#[verifier::external_body]
fn json_member_u64(text: &str, key: &str) -> (r: Option<u64>)
    ensures
        r == json_u64_member(text@, key@),
{
    match serde_json::from_str::<serde_json::Value>(text) {
        Ok(v) => v[key].as_u64(),
        Err(_) => None,
    }
}

/// The `txoutspend` request `{"txid": .., "vout": ..}`: the `txid` member
/// (empty where it is missing or no string) and the `vout` member truncated
/// to 32 bits (0 where it is missing or no unsigned integer); `None` where
/// the request is no JSON.
pub fn outspend_request(input: &str) -> (r: Option<(String, u32)>)
    ensures
        match r {
            None => !json_text_parses(input@),
            Some((t, v)) => {
                &&& json_text_parses(input@)
                &&& t@ == match json_str_member(input@, "txid"@) {
                    Some(x) => x,
                    None => ""@,
                }
                &&& v == match json_u64_member(input@, "vout"@) {
                    Some(n) => n as u32,
                    None => 0u32,
                }
            },
        },
{
    if !json_parses(input) {
        return None;
    }
    let txid = match json_member_str(input, "txid") {
        Some(t) => t,
        None => text(""),
    };
    let vout: u32 = match json_member_u64(input, "vout") {
        Some(n) => #[verifier::truncate] (n as u32),
        None => 0,
    };
    Some((txid, vout))
}

/// GET /tx/:txid/outspend/:vout: whether the output is spent, and by which
/// transaction, with that transaction's status where it is recorded.
pub fn txoutspend(store: &Store, txid_hex: &str, vout: u32) -> (r: Result<SpendInfo, ViewError>)
    requires
        decode_hash_outcome(txid_hex@) is Some,
    ensures
        match requested_hash(txid_hex@) {
            None => r == Err::<SpendInfo, ViewError>(ViewError::InvalidTxid),
            Some(txid) => r matches Ok(info) && info.vin is None && match bytes_at(
                store@,
                key_bytes(IndexKey::Spend(txid, vout)),
            ) {
                Some(b) => {
                    let spender = hash_or_zero(b);
                    &&& info.spent
                    &&& info.txid matches Some(t) && t@ == display_hash(spender)
                    &&& match tx_meta_at(store@, key_bytes(IndexKey::Tx(spender))) {
                        Some(meta) => info.status matches Some(st) && status_of(meta, st),
                        None => info.status is None,
                    }
                },
                None => !info.spent && info.txid is None && info.status is None,
            },
        },
{
    let txid = match decode_hash(txid_hex) {
        Some(h) => h,
        None => return Err(ViewError::InvalidTxid),
    };
    let key = spend_key(&txid, vout);
    match get_bytes(store, key.as_slice()) {
        Some(b) => {
            let spender = hash_or_zero_exec(b);
            let meta_key = tx_key(&spender);
            let status = match get_tx_meta(store, meta_key.as_slice()) {
                Some(meta) => Some(confirmed_status(meta)),
                None => None,
            };
            Ok(SpendInfo { spent: true, txid: Some(to_hex_rev(spender.as_slice())), vin: None, status })
        },
        None => Ok(SpendInfo { spent: false, txid: None, vin: None, status: None }),
    }
}


/// One input of the transaction view.
#[derive(Debug, Clone)]
pub struct VinView {
    pub txid: String,
    pub vout: u32,
    pub scriptsig: String,
    pub sequence: u32,
    pub witness: Vec<String>,
}

/// One output of the transaction view.
#[derive(Debug, Clone)]
pub struct VoutView {
    pub scriptpubkey: String,
    pub value: u64,
}

/// The transaction view.
#[derive(Debug, Clone)]
pub struct TxView {
    pub txid: String,
    pub version: i32,
    pub locktime: u32,
    pub size: u32,
    pub weight: u32,
    pub fee: u64,
    pub vin: Vec<VinView>,
    pub vout: Vec<VoutView>,
    pub status: TxStatus,
}

/// `v` shows input `i`.
pub open spec fn vin_shows(v: VinView, i: SpecTxInput) -> bool {
    &&& v.txid@ == display_hash(i.prev_txid)
    &&& v.vout == i.prev_vout
    &&& v.scriptsig@ == hex_spec(i.script_sig)
    &&& v.sequence == i.sequence
    &&& strings_view(v.witness@) == i.witness.map_values(|w: Seq<u8>| hex_spec(w))
}

/// `v` shows output `o`.
pub open spec fn vout_shows(v: VoutView, o: SpecTxOutput) -> bool {
    v.scriptpubkey@ == hex_spec(o.script_pubkey) && v.value == o.value
}

/// The raw transaction stored for `txid`, empty where there is none.
pub open spec fn raw_or_empty(m: Map<Seq<u8>, SpecIndexValue>, txid: Seq<u8>) -> Seq<u8> {
    match bytes_at(m, key_bytes(IndexKey::TxRaw(txid))) {
        Some(raw) => raw,
        None => seq![],
    }
}

/// Whether `tx` fails on `input`: the transaction is recorded but its stored
/// raw bytes do not parse.
pub open spec fn tx_view_fails(m: Map<Seq<u8>, SpecIndexValue>, input: Seq<char>) -> bool {
    match requested_hash(input) {
        Some(txid) => tx_meta_at(m, key_bytes(IndexKey::Tx(txid))) is Some && parse_tx_spec(
            raw_or_empty(m, txid),
        ) is None,
        None => false,
    }
}

fn vin_view(input: &TxInput) -> (v: VinView)
    ensures
        vin_shows(v, input@),
{
    let mut witness: Vec<String> = Vec::new();
    let ghost ws = input@.witness;
    let mut j: usize = 0;
    while j < input.witness.len()
        invariant
            j <= input.witness@.len(),
            ws == input@.witness,
            strings_view(witness@) == ws.subrange(0, j as int).map_values(|w: Seq<u8>| hex_spec(w)),
        decreases input.witness@.len() - j,
    {
        let ghost before = witness@;
        assert(ws[j as int] == input.witness@[j as int]@);
        witness.push(to_hex(input.witness[j].as_slice()));
        assert(strings_view(witness@) =~= strings_view(before).push(hex_spec(ws[j as int])));
        j = j + 1;
        assert(strings_view(witness@) =~= ws.subrange(0, j as int).map_values(
            |w: Seq<u8>| hex_spec(w),
        ));
    }
    assert(ws.subrange(0, j as int) =~= ws);
    VinView {
        txid: to_hex_rev(input.prev_txid.as_slice()),
        vout: input.prev_vout,
        scriptsig: to_hex(input.script_sig.as_slice()),
        sequence: input.sequence,
        witness,
    }
}

/// GET /tx/:txid: the transaction, its inputs and outputs as the stored raw
/// transaction has them, and its status from the stored metadata.
pub fn tx(store: &Store, input: &str) -> (r: Result<TxView, ViewError>)
    requires
        decode_hash_outcome(input@) is Some,
        !tx_view_fails(store@, input@),
    ensures
        match requested_hash(input@) {
            None => r == Err::<TxView, ViewError>(ViewError::InvalidTxid),
            Some(txid) => {
                let k = key_bytes(IndexKey::Tx(txid));
                if !store@.contains_key(k) {
                    r == Err::<TxView, ViewError>(ViewError::TxNotFound)
                } else {
                    match store@[k] {
                        SpecIndexValue::Tx(meta) => r matches Ok(v) && {
                            let parsed = parse_tx_spec(raw_or_empty(store@, txid)).unwrap().0;
                            &&& v.txid@ == trim_spec(input@)
                            &&& v.version == meta.version
                            &&& v.locktime == meta.locktime
                            &&& v.size == meta.size
                            &&& v.weight == meta.weight
                            &&& v.fee == meta.fee
                            &&& status_of(meta, v.status)
                            &&& v.vin@.len() == parsed.inputs.len()
                            &&& forall|j: int|
                                0 <= j < v.vin@.len() ==> vin_shows(
                                    #[trigger] v.vin@[j],
                                    parsed.inputs[j],
                                )
                            &&& v.vout@.len() == parsed.outputs.len()
                            &&& forall|j: int|
                                0 <= j < v.vout@.len() ==> vout_shows(
                                    #[trigger] v.vout@[j],
                                    parsed.outputs[j],
                                )
                        },
                        _ => r == Err::<TxView, ViewError>(ViewError::CorruptTxMetadata),
                    }
                }
            },
        },
{
    let txid = match decode_hash(input) {
        Some(h) => h,
        None => return Err(ViewError::InvalidTxid),
    };
    let key = tx_key(&txid);
    let meta = match store.get(key.as_slice()) {
        Some(IndexValue::Tx(meta)) => meta,
        Some(_) => return Err(ViewError::CorruptTxMetadata),
        None => return Err(ViewError::TxNotFound),
    };
    let raw_key = tx_raw_key(&txid);
    let empty: Vec<u8> = Vec::new();
    let raw = match get_bytes(store, raw_key.as_slice()) {
        Some(raw) => raw,
        None => &empty,
    };
    assert(raw@ == raw_or_empty(store@, txid@));
    let (parsed, _) = parse_transaction(raw.as_slice());
    let mut vin: Vec<VinView> = Vec::new();
    let mut j: usize = 0;
    while j < parsed.inputs.len()
        invariant
            j <= parsed.inputs@.len(),
            vin@.len() == j,
            forall|i: int| 0 <= i < j ==> vin_shows(#[trigger] vin@[i], parsed.inputs@[i]@),
        decreases parsed.inputs@.len() - j,
    {
        vin.push(vin_view(&parsed.inputs[j]));
        j = j + 1;
    }
    let mut vout: Vec<VoutView> = Vec::new();
    let mut j: usize = 0;
    while j < parsed.outputs.len()
        invariant
            j <= parsed.outputs@.len(),
            vout@.len() == j,
            forall|i: int| 0 <= i < j ==> vout_shows(#[trigger] vout@[i], parsed.outputs@[i]@),
        decreases parsed.outputs@.len() - j,
    {
        let output = &parsed.outputs[j];
        vout.push(VoutView { scriptpubkey: to_hex(output.script_pubkey.as_slice()), value: output.value });
        j = j + 1;
    }
    Ok(TxView {
        txid: text(str_trim(input)),
        version: meta.version,
        locktime: meta.locktime,
        size: meta.size,
        weight: meta.weight,
        fee: meta.fee,
        vin,
        vout,
        status: confirmed_status(meta),
    })
}


/// The spending record key for the output that UTXO key `k` names: the same
/// txid and output index under the spend prefix.
pub open spec fn spend_key_of_utxo(k: Seq<u8>) -> Seq<u8> {
    seq![SPEND_PREFIX] + k.subrange(33, 69)
}

/// The output that UTXO key `k` names has a (non-empty) spending record.
pub open spec fn output_spent(m: Map<Seq<u8>, SpecIndexValue>, k: Seq<u8>) -> bool {
    let sk = spend_key_of_utxo(k);
    m.contains_key(sk) && m[sk] != SpecIndexValue::Bytes(Seq::<u8>::empty())
}

/// `k` is a UTXO key of script hash `sh` whose output is unspent and whose
/// value is a UTXO record.
pub open spec fn utxo_listed(m: Map<Seq<u8>, SpecIndexValue>, sh: Seq<u8>, k: Seq<u8>) -> bool {
    &&& m.contains_key(k)
    &&& k.len() == 69
    &&& k.subrange(0, 33) == seq![UTXO_PREFIX] + sh
    &&& !output_spent(m, k)
    &&& m[k] is Utxo
}

fn copy_utxo(e: &UtxoEntry) -> (c: UtxoEntry)
    ensures
        c@ == e@,
{
    UtxoEntry {
        txid: e.txid.clone(),
        vout: e.vout,
        value: e.value,
        block_height: e.block_height,
        block_hash: e.block_hash.clone(),
        block_time: e.block_time,
    }
}

/// The model of a list of UTXO entries.
pub open spec fn utxos_view(v: Seq<UtxoEntry>) -> Seq<SpecUtxoEntry> {
    v.map_values(|e: UtxoEntry| e@)
}

/// `e` is the record of a listed UTXO key of `sh`.
pub open spec fn listed_record(m: Map<Seq<u8>, SpecIndexValue>, sh: Seq<u8>, e: SpecUtxoEntry) -> bool {
    exists|k: Seq<u8>| #[trigger] utxo_listed(m, sh, k) && m[k] == SpecIndexValue::Utxo(e)
}

/// `vals` lists the UTXO records of the listed keys of `sh`, one per key.
pub open spec fn utxo_listing(
    m: Map<Seq<u8>, SpecIndexValue>,
    sh: Seq<u8>,
    vals: Seq<SpecUtxoEntry>,
) -> bool {
    &&& vals.len() == m.dom().filter(|k: Seq<u8>| utxo_listed(m, sh, k)).len()
    &&& forall|i: int| 0 <= i < vals.len() ==> #[trigger] listed_record(m, sh, vals[i])
    &&& forall|k: Seq<u8>|
        #![trigger utxo_listed(m, sh, k)]
        utxo_listed(m, sh, k) ==> exists|i: int|
            #![trigger vals[i]]
            0 <= i < vals.len() && m[k] == SpecIndexValue::Utxo(vals[i])
}

proof fn lemma_utxo_listing_len(
    m: Map<Seq<u8>, SpecIndexValue>,
    sh: Seq<u8>,
    kv: Seq<Seq<u8>>,
    listed: Seq<Seq<u8>>,
    from: Seq<int>,
    vals: Seq<SpecUtxoEntry>,
)
    requires
        kv.no_duplicates(),
        forall|k: Seq<u8>| m.contains_key(k) <==> kv.contains(k),
        listed.len() == vals.len(),
        from.len() == listed.len(),
        forall|t: int|
            0 <= t < listed.len() ==> 0 <= #[trigger] from[t] < kv.len() && listed[t]
                == kv[from[t]] && utxo_listed(m, sh, listed[t]) && m[listed[t]]
                == SpecIndexValue::Utxo(vals[t]),
        forall|t1: int, t2: int|
            0 <= t1 < t2 < listed.len() ==> #[trigger] from[t1] < #[trigger] from[t2],
        forall|e: int|
            0 <= e < kv.len() && utxo_listed(m, sh, kv[e]) ==> exists|t: int|
                0 <= t < listed.len() && #[trigger] from[t] == e,
    ensures
        vals.len() == m.dom().filter(|k: Seq<u8>| utxo_listed(m, sh, k)).len(),
{
    let pred = |k: Seq<u8>| utxo_listed(m, sh, k);
    assert forall|t1: int, t2: int|
        0 <= t1 < listed.len() && 0 <= t2 < listed.len() && t1 != t2 implies listed[t1]
        != listed[t2] by {
        assert(0 <= from[t1] < kv.len() && 0 <= from[t2] < kv.len());
        if t1 < t2 {
            assert(from[t1] < from[t2]);
        } else {
            assert(from[t2] < from[t1]);
        }
    }
    assert(listed.no_duplicates());
    assert forall|k: Seq<u8>| #[trigger] m.dom().filter(pred).contains(k) <==> listed.to_set().contains(k) by {
        if m.dom().filter(pred).contains(k) {
            assert(kv.contains(k));
            let e = choose|e: int| 0 <= e < kv.len() && kv[e] == k;
            let t = choose|t: int| 0 <= t < listed.len() && #[trigger] from[t] == e;
            assert(listed[t] == k);
            assert(listed.contains(k));
        }
        if listed.to_set().contains(k) {
            assert(listed.contains(k));
            let t = choose|t: int| 0 <= t < listed.len() && listed[t] == k;
            assert(0 <= from[t] < kv.len());
            assert(utxo_listed(m, sh, k));
        }
    }
    assert(m.dom().filter(pred) =~= listed.to_set());
    listed.unique_seq_to_set();
}

proof fn lemma_utxo_witness(
    m: Map<Seq<u8>, SpecIndexValue>,
    sh: Seq<u8>,
    kv: Seq<Seq<u8>>,
    listed: Seq<Seq<u8>>,
    from: Seq<int>,
    vals: Seq<SpecUtxoEntry>,
    i: int,
)
    requires
        0 <= i < vals.len(),
        listed.len() == vals.len(),
        from.len() == listed.len(),
        forall|t: int|
            0 <= t < listed.len() ==> 0 <= #[trigger] from[t] < kv.len() && listed[t]
                == kv[from[t]] && utxo_listed(m, sh, listed[t]) && m[listed[t]]
                == SpecIndexValue::Utxo(vals[t]),
    ensures
        utxo_listed(m, sh, listed[i]),
        m[listed[i]] == SpecIndexValue::Utxo(vals[i]),
{
    assert(0 <= from[i] < kv.len());
}

proof fn lemma_utxo_listing_sound(
    m: Map<Seq<u8>, SpecIndexValue>,
    sh: Seq<u8>,
    kv: Seq<Seq<u8>>,
    listed: Seq<Seq<u8>>,
    from: Seq<int>,
    vals: Seq<SpecUtxoEntry>,
)
    requires
        kv.no_duplicates(),
        forall|k: Seq<u8>| m.contains_key(k) <==> kv.contains(k),
        listed.len() == vals.len(),
        from.len() == listed.len(),
        forall|t: int|
            0 <= t < listed.len() ==> 0 <= #[trigger] from[t] < kv.len() && listed[t]
                == kv[from[t]] && utxo_listed(m, sh, listed[t]) && m[listed[t]]
                == SpecIndexValue::Utxo(vals[t]),
        forall|t1: int, t2: int|
            0 <= t1 < t2 < listed.len() ==> #[trigger] from[t1] < #[trigger] from[t2],
        forall|e: int|
            0 <= e < kv.len() && utxo_listed(m, sh, kv[e]) ==> exists|t: int|
                0 <= t < listed.len() && #[trigger] from[t] == e,
    ensures
        forall|i: int| 0 <= i < vals.len() ==> #[trigger] listed_record(m, sh, vals[i]),
{
    assert forall|i: int| 0 <= i < vals.len() implies #[trigger] listed_record(m, sh, vals[i]) by {
        lemma_utxo_witness(m, sh, kv, listed, from, vals, i);
    }
}

proof fn lemma_utxo_listing_complete(
    m: Map<Seq<u8>, SpecIndexValue>,
    sh: Seq<u8>,
    kv: Seq<Seq<u8>>,
    listed: Seq<Seq<u8>>,
    from: Seq<int>,
    vals: Seq<SpecUtxoEntry>,
)
    requires
        kv.no_duplicates(),
        forall|k: Seq<u8>| m.contains_key(k) <==> kv.contains(k),
        listed.len() == vals.len(),
        from.len() == listed.len(),
        forall|t: int|
            0 <= t < listed.len() ==> 0 <= #[trigger] from[t] < kv.len() && listed[t]
                == kv[from[t]] && utxo_listed(m, sh, listed[t]) && m[listed[t]]
                == SpecIndexValue::Utxo(vals[t]),
        forall|t1: int, t2: int|
            0 <= t1 < t2 < listed.len() ==> #[trigger] from[t1] < #[trigger] from[t2],
        forall|e: int|
            0 <= e < kv.len() && utxo_listed(m, sh, kv[e]) ==> exists|t: int|
                0 <= t < listed.len() && #[trigger] from[t] == e,
    ensures
        forall|k: Seq<u8>|
            #![trigger utxo_listed(m, sh, k)]
            utxo_listed(m, sh, k) ==> exists|i: int|
                #![trigger vals[i]]
                0 <= i < vals.len() && m[k] == SpecIndexValue::Utxo(vals[i]),
{
    assert forall|k: Seq<u8>| #![trigger utxo_listed(m, sh, k)] utxo_listed(m, sh, k) implies exists|t: int|
        #![trigger vals[t]]
        0 <= t < vals.len() && m[k] == SpecIndexValue::Utxo(vals[t]) by {
        assert(kv.contains(k));
        let e = choose|e: int| 0 <= e < kv.len() && kv[e] == k;
        let t = choose|t: int| 0 <= t < listed.len() && #[trigger] from[t] == e;
        assert(listed[t] == k);
    }
}

/// The UTXO record under `k`, where `k` is listed for `sh`.
fn listed_utxo(store: &Store, k: &Vec<u8>, prefix: &Vec<u8>, Ghost(sh): Ghost<Seq<u8>>) -> (r: Option<UtxoEntry>)
    requires
        prefix@ == seq![UTXO_PREFIX] + sh,
    ensures
        match r {
            Some(e) => utxo_listed(store@, sh, k@) && store@[k@] == SpecIndexValue::Utxo(e@),
            None => !utxo_listed(store@, sh, k@),
        },
{
    if k.len() != 69 || !bytes_eq(vstd::slice::slice_subrange(k.as_slice(), 0, 33), prefix.as_slice()) {
        return None;
    }
    let mut spend: Vec<u8> = Vec::new();
    spend.push(SPEND_PREFIX);
    append_bytes(&mut spend, vstd::slice::slice_subrange(k.as_slice(), 33, 69));
    assert(spend@ =~= spend_key_of_utxo(k@));
    let unspent = match store.get(spend.as_slice()) {
        None => true,
        Some(IndexValue::Bytes(b)) => b.len() == 0,
        Some(_) => false,
    };
    proof {
        if unspent && store@.contains_key(spend@) {
            if let SpecIndexValue::Bytes(b) = store@[spend@] {
                assert(b =~= Seq::<u8>::empty());
            }
        }
    }
    if !unspent {
        return None;
    }
    match store.get(k.as_slice()) {
        Some(IndexValue::Utxo(e)) => Some(copy_utxo(e)),
        _ => None,
    }
}

/// GET /scripthash/:hash/utxo: the unspent outputs recorded for the script
/// hash, one per UTXO key of the hash whose output has no spending record.
pub fn utxosbyscripthash(store: &Store, input: &str) -> (r: Result<Vec<UtxoEntry>, ViewError>)
    requires
        decode_hash_outcome(trim_spec(input@)) is Some,
    ensures
        match requested_hash(trim_spec(input@)) {
            None => r == Err::<Vec<UtxoEntry>, ViewError>(ViewError::InvalidScriptHash),
            Some(sh) => r matches Ok(v) && utxo_listing(store@, sh, utxos_view(v@)),
        },
{
    let sh = match decode_hash(str_trim(input)) {
        Some(h) => h,
        None => return Err(ViewError::InvalidScriptHash),
    };
    let ghost m = store@;
    let prefix = prefixed_hash(UTXO_PREFIX, &sh);
    let keys = store.keys();
    let ghost kv = bytes_list_view(keys@);
    let mut utxos: Vec<UtxoEntry> = Vec::new();
    let ghost mut listed: Seq<Seq<u8>> = seq![];
    let ghost mut from: Seq<int> = seq![];
    let mut i: usize = 0;
    while i < keys.len()
        invariant
            i <= keys@.len(),
            m == store@,
            kv == bytes_list_view(keys@),
            kv.no_duplicates(),
            forall|k: Seq<u8>| m.contains_key(k) <==> kv.contains(k),
            prefix@ == seq![UTXO_PREFIX] + sh@,
            listed.len() == utxos@.len(),
            from.len() == listed.len(),
            forall|t: int|
                0 <= t < listed.len() ==> 0 <= #[trigger] from[t] < i && listed[t] == kv[from[t]]
                    && utxo_listed(m, sh@, listed[t]) && m[listed[t]] == SpecIndexValue::Utxo(
                    utxos@[t]@,
                ),
            forall|t1: int, t2: int|
                0 <= t1 < t2 < listed.len() ==> #[trigger] from[t1] < #[trigger] from[t2],
            forall|e: int|
                0 <= e < i && utxo_listed(m, sh@, kv[e]) ==> exists|t: int|
                    0 <= t < listed.len() && #[trigger] from[t] == e,
        decreases keys@.len() - i,
    {
        let k = &keys[i];
        assert(kv[i as int] == k@);
        match listed_utxo(store, k, &prefix, Ghost(sh@)) {
            Some(e) => {
                let ghost old_utxos = utxos@;
                utxos.push(e);
                proof {
                    assert forall|t: int| 0 <= t < old_utxos.len() implies utxos@[t]
                        == old_utxos[t] by {}
                    let old_from = from;
                    listed = listed.push(k@);
                    from = from.push(i as int);
                    assert forall|e2: int|
                        0 <= e2 < i + 1 && utxo_listed(m, sh@, kv[e2]) implies exists|t: int|
                            0 <= t < listed.len() && #[trigger] from[t] == e2 by {
                        if e2 < i {
                            let t = choose|t: int|
                                0 <= t < old_from.len() && #[trigger] old_from[t] == e2;
                            assert(from[t] == e2);
                        } else {
                            assert(from[old_from.len() as int] == e2);
                        }
                    }
                }
            },
            None => {},
        }
        i = i + 1;
    }
    proof {
        let vals = utxos_view(utxos@);
        assert forall|t: int| 0 <= t < listed.len() implies m[listed[t]] == SpecIndexValue::Utxo(
            vals[t],
        ) by {
            assert(0 <= from[t] < i);
        }
        lemma_utxo_listing_len(m, sh@, kv, listed, from, vals);
        lemma_utxo_listing_sound(m, sh@, kv, listed, from, vals);
        lemma_utxo_listing_complete(m, sh@, kv, listed, from, vals);
        assert(utxo_listing(m, sh@, vals));
        assert(requested_hash(trim_spec(input@)) == Some(sh@));
    }
    Ok(utxos)
}

} // verus!
