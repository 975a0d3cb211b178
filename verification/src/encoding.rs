//! Fixed-width integer encodings used by the wire format and the key schema.
use vstd::prelude::*;

verus! {

/// The `k`-th byte (counting from the least significant one) of `n`, for `k < 8`.
pub open spec fn byte_of(n: int, k: int) -> u8 {
    ((n / pow256(k)) % 256) as u8
}

/// `256^k` for `0 <= k <= 8`.
pub open spec fn pow256(k: int) -> int {
    if k <= 0 {
        1
    } else if k == 1 {
        0x100
    } else if k == 2 {
        0x1_0000
    } else if k == 3 {
        0x100_0000
    } else if k == 4 {
        0x1_0000_0000
    } else if k == 5 {
        0x100_0000_0000
    } else if k == 6 {
        0x1_0000_0000_0000
    } else if k == 7 {
        0x100_0000_0000_0000
    } else {
        0x1_0000_0000_0000_0000
    }
}

/// Little-endian encoding of `n` on `k` bytes.
pub open spec fn le_bytes(n: int, k: nat) -> Seq<u8> {
    Seq::new(k, |i: int| byte_of(n, i))
}

/// Big-endian encoding of `n` on `k` bytes.
pub open spec fn be_bytes(n: int, k: nat) -> Seq<u8> {
    Seq::new(k, |i: int| byte_of(n, k - 1 - i))
}

/// The unsigned little-endian integer held by `s[i..i + 2]`.
pub open spec fn le_u16_at(s: Seq<u8>, i: int) -> int {
    s[i] + 0x100 * s[i + 1]
}

/// The unsigned little-endian integer held by `s[i..i + 4]`.
pub open spec fn le_u32_at(s: Seq<u8>, i: int) -> int {
    s[i] + 0x100 * s[i + 1] + 0x1_0000 * s[i + 2] + 0x100_0000 * s[i + 3]
}

/// The unsigned little-endian integer held by `s[i..i + 8]`.
pub open spec fn le_u64_at(s: Seq<u8>, i: int) -> int {
    s[i] + 0x100 * s[i + 1] + 0x1_0000 * s[i + 2] + 0x100_0000 * s[i + 3] + 0x1_0000_0000 * s[i
        + 4] + 0x100_0000_0000 * s[i + 5] + 0x1_0000_0000_0000 * s[i + 6] + 0x100_0000_0000_0000
        * s[i + 7]
}

/// Two's complement reading of a 32-bit pattern.
pub open spec fn i32_of_bits(u: int) -> i32 {
    if u < 0x8000_0000 {
        u as i32
    } else {
        (u - 0x1_0000_0000) as i32
    }
}

/// Reads `s[i..i + 2]` as a little-endian `u16`.
pub fn read_u16_le(s: &[u8], i: usize) -> (r: u16)
    requires
        i + 2 <= s.len(),
    ensures
        r as int == le_u16_at(s@, i as int),
{
    let b0 = s[i] as u16;
    let b1 = s[i + 1] as u16;
    b0 + 0x100 * b1
}

/// Reads `s[i..i + 4]` as a little-endian `u32`.
pub fn read_u32_le(s: &[u8], i: usize) -> (r: u32)
    requires
        i + 4 <= s.len(),
    ensures
        r as int == le_u32_at(s@, i as int),
{
    let b0 = s[i] as u32;
    let b1 = s[i + 1] as u32;
    let b2 = s[i + 2] as u32;
    let b3 = s[i + 3] as u32;
    b0 + 0x100 * b1 + 0x1_0000 * b2 + 0x100_0000 * b3
}

/// Reads `s[i..i + 8]` as a little-endian `u64`.
pub fn read_u64_le(s: &[u8], i: usize) -> (r: u64)
    requires
        i + 8 <= s.len(),
    ensures
        r as int == le_u64_at(s@, i as int),
{
    let b0 = s[i] as u64;
    let b1 = s[i + 1] as u64;
    let b2 = s[i + 2] as u64;
    let b3 = s[i + 3] as u64;
    let b4 = s[i + 4] as u64;
    let b5 = s[i + 5] as u64;
    let b6 = s[i + 6] as u64;
    let b7 = s[i + 7] as u64;
    b0 + 0x100 * b1 + 0x1_0000 * b2 + 0x100_0000 * b3 + 0x1_0000_0000 * b4 + 0x100_0000_0000 * b5
        + 0x1_0000_0000_0000 * b6 + 0x100_0000_0000_0000 * b7
}

/// Reads `s[i..i + 4]` as a little-endian `i32`.
pub fn read_i32_le(s: &[u8], i: usize) -> (r: i32)
    requires
        i + 4 <= s.len(),
    ensures
        r == i32_of_bits(le_u32_at(s@, i as int)),
{
    let u = read_u32_le(s, i);
    if u < 0x8000_0000 {
        u as i32
    } else {
        let low = (u - 0x8000_0000) as i32;
        low + i32::MIN
    }
}

/// Appends the bytes of `b`.
pub fn append_bytes(v: &mut Vec<u8>, b: &[u8])
    ensures
        final(v)@ == old(v)@ + b@,
{
    let ghost start = old(v)@;
    let mut i: usize = 0;
    while i < b.len()
        invariant
            i <= b@.len(),
            v@ == start + b@.subrange(0, i as int),
        decreases b@.len() - i,
    {
        v.push(b[i]);
        i = i + 1;
        assert(v@ =~= start + b@.subrange(0, i as int));
    }
    assert(b@.subrange(0, b@.len() as int) =~= b@);
}

/// Appends the `k` low bytes of `n`, least significant first.
pub fn push_le(v: &mut Vec<u8>, n: u64, k: usize)
    requires
        k <= 8,
    ensures
        final(v)@ == old(v)@ + le_bytes(n as int, k as nat),
{
    let ghost start = old(v)@;
    let mut i: usize = 0;
    let mut x: u64 = n;
    while i < k
        invariant
            i <= k <= 8,
            v@ == start + le_bytes(n as int, i as nat),
            x as int == n as int / pow256(i as int),
        decreases k - i,
    {
        proof {
            assert(n as int / pow256(i + 1) == (n as int / pow256(i as int)) / 256) by {
                lemma_pow256_step(n as int, i as int);
            }
        }
        v.push((x % 256) as u8);
        x = x / 256;
        i = i + 1;
        assert(v@ =~= start + le_bytes(n as int, i as nat));
    }
}

/// Appends the `k` low bytes of `n`, most significant first.
pub fn push_be(v: &mut Vec<u8>, n: u64, k: usize)
    requires
        k <= 8,
    ensures
        final(v)@ == old(v)@ + be_bytes(n as int, k as nat),
{
    let mut le: Vec<u8> = Vec::new();
    push_le(&mut le, n, k);
    let ghost start = old(v)@;
    let mut j: usize = k;
    while j > 0
        invariant
            j <= k <= 8,
            le@ == le_bytes(n as int, k as nat),
            v@ == start + be_bytes(n as int, k as nat).subrange(0, (k - j) as int),
        decreases j,
    {
        v.push(le[j - 1]);
        j = j - 1;
        assert(v@ =~= start + be_bytes(n as int, k as nat).subrange(0, (k - j) as int));
    }
    assert(be_bytes(n as int, k as nat).subrange(0, k as int) =~= be_bytes(n as int, k as nat));
}

/// The value held by the `k` low bytes of `n`.
pub open spec fn low_bytes_value(n: int, k: nat) -> int
    decreases k,
{
    if k == 0 {
        0
    } else {
        low_bytes_value(n, (k - 1) as nat) + pow256(k - 1) * byte_of(n, k - 1)
    }
}

proof fn lemma_pow256_mul(i: int)
    requires
        0 <= i < 8,
    ensures
        pow256(i) * 256 == pow256(i + 1),
        pow256(i) > 0,
{
    if i == 0 {
    } else if i == 1 {
    } else if i == 2 {
    } else if i == 3 {
    } else if i == 4 {
    } else if i == 5 {
    } else if i == 6 {
    } else {
    }
}

/// The `k` low bytes of `n` hold `n % 256^k`.
pub proof fn lemma_low_bytes_value(n: int, k: nat)
    requires
        n >= 0,
        k <= 8,
    ensures
        low_bytes_value(n, k) == n % pow256(k as int),
    decreases k,
{
    if k > 0 {
        let j = k - 1;
        lemma_low_bytes_value(n, j as nat);
        lemma_pow256_mul(j);
        vstd::arithmetic::div_mod::lemma_mod_breakdown(n, pow256(j), 256);
        assert(byte_of(n, j) as int == (n / pow256(j)) % 256);
    }
}

/// A value below `256^k` is the value of its `k` low bytes.
pub proof fn lemma_le_bytes_value(n: int, k: nat)
    requires
        0 <= n < pow256(k as int),
        k <= 8,
    ensures
        low_bytes_value(n, k) == n,
{
    lemma_low_bytes_value(n, k);
    if k < 8 {
        lemma_pow256_mul(k as int);
    }
    vstd::arithmetic::div_mod::lemma_small_mod(n as nat, pow256(k as int) as nat);
}

/// Reading back a little-endian `u16` encoding.
pub proof fn lemma_read_le2(s: Seq<u8>, i: int, n: int)
    requires
        0 <= n < 0x1_0000,
        0 <= i,
        i + 2 <= s.len(),
        s.subrange(i, i + 2) == le_bytes(n, 2),
    ensures
        le_u16_at(s, i) == n,
{
    lemma_le_bytes_value(n, 2);
    reveal_with_fuel(low_bytes_value, 3);
    let t = s.subrange(i, i + 2);
    assert(s[i] == t[0] && s[i + 1] == t[1]);
    assert(t[0] == byte_of(n, 0) && t[1] == byte_of(n, 1));
    assert(low_bytes_value(n, 2) == pow256(0) * byte_of(n, 0) + pow256(1) * byte_of(n, 1));
}

/// Reading back a little-endian `u32` encoding.
pub proof fn lemma_read_le4(s: Seq<u8>, i: int, n: int)
    requires
        0 <= n < 0x1_0000_0000,
        0 <= i,
        i + 4 <= s.len(),
        s.subrange(i, i + 4) == le_bytes(n, 4),
    ensures
        le_u32_at(s, i) == n,
{
    lemma_le_bytes_value(n, 4);
    reveal_with_fuel(low_bytes_value, 5);
    let t = s.subrange(i, i + 4);
    assert(s[i] == t[0] && s[i + 1] == t[1] && s[i + 2] == t[2] && s[i + 3] == t[3]);
    assert(t[0] == byte_of(n, 0) && t[1] == byte_of(n, 1) && t[2] == byte_of(n, 2) && t[3]
        == byte_of(n, 3));
    assert(low_bytes_value(n, 4) == pow256(0) * byte_of(n, 0) + pow256(1) * byte_of(n, 1) + pow256(
        2,
    ) * byte_of(n, 2) + pow256(3) * byte_of(n, 3));
    assert(pow256(0) == 1 && pow256(1) == 0x100 && pow256(2) == 0x1_0000 && pow256(3)
        == 0x100_0000);
}

/// Reading back a little-endian `u64` encoding.
pub proof fn lemma_read_le8(s: Seq<u8>, i: int, n: int)
    requires
        0 <= n < 0x1_0000_0000_0000_0000,
        0 <= i,
        i + 8 <= s.len(),
        s.subrange(i, i + 8) == le_bytes(n, 8),
    ensures
        le_u64_at(s, i) == n,
{
    lemma_le_bytes_value(n, 8);
    reveal_with_fuel(low_bytes_value, 9);
    let t = s.subrange(i, i + 8);
    assert(s[i] == t[0] && s[i + 1] == t[1] && s[i + 2] == t[2] && s[i + 3] == t[3]);
    assert(s[i + 4] == t[4] && s[i + 5] == t[5] && s[i + 6] == t[6] && s[i + 7] == t[7]);
    assert(t[0] == byte_of(n, 0) && t[1] == byte_of(n, 1) && t[2] == byte_of(n, 2) && t[3]
        == byte_of(n, 3));
    assert(t[4] == byte_of(n, 4) && t[5] == byte_of(n, 5) && t[6] == byte_of(n, 6) && t[7]
        == byte_of(n, 7));
    assert(low_bytes_value(n, 8) == pow256(0) * byte_of(n, 0) + pow256(1) * byte_of(n, 1) + pow256(
        2,
    ) * byte_of(n, 2) + pow256(3) * byte_of(n, 3) + pow256(4) * byte_of(n, 4) + pow256(5)
        * byte_of(n, 5) + pow256(6) * byte_of(n, 6) + pow256(7) * byte_of(n, 7));
}

proof fn lemma_pow256_step(n: int, i: int)
    requires
        0 <= i < 8,
        n >= 0,
    ensures
        n / pow256(i + 1) == (n / pow256(i)) / 256,
{
    lemma_pow256_mul(i);
    vstd::arithmetic::div_mod::lemma_div_denominator(n, pow256(i), 256);
    assert(pow256(i) * 256 == pow256(i + 1));
}

} // verus!
