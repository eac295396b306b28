//! The model the contracts speak in: the bits of a byte string, numbered
//! from the most significant bit of its first byte, and the numbers that
//! runs of them write.
use vstd::prelude::*;
use vstd::arithmetic::power2::{pow2, lemma_pow2_unfold, lemma_pow2_pos};

verus! {

/// Bit `j` of byte `b`, counting from the most significant bit (`j == 0`).
pub open spec fn byte_bit(b: u8, j: int) -> bool {
    0 <= j < 8 && (b >> ((7 - j) as u8)) & 1u8 == 1u8
}

/// Bit `i` of a byte string. Bits are numbered from the most significant bit of
/// the first byte: bit 0 is the top bit of `data[0]`, bit 8 the top bit of `data[1]`.
pub open spec fn bit_at(data: Seq<u8>, i: int) -> bool {
    byte_bit(data[i / 8], i % 8)
}

/// 1 for a set bit, 0 for a clear one.
pub open spec fn bit_nat(b: bool) -> nat {
    if b { 1 } else { 0 }
}

/// The unsigned number written by the `len` bits of `data` that start at bit
/// `start`, the first of them being the most significant.
pub open spec fn bits_value(data: Seq<u8>, start: int, len: nat) -> nat
    decreases len,
{
    if len == 0 {
        0
    } else {
        2 * bits_value(data, start, (len - 1) as nat) + bit_nat(bit_at(data, start + len - 1))
    }
}

/// Value of the `w` bits of `b` that lie above its `s` lowest bits.
proof fn lemma_byte_chunk_step(b: u8, s: u8, w: u8)
    requires
        2 <= w,
        s + w <= 8,
    ensures
        (b >> s) & (0xFFu8 >> ((8 - w) as u8)) == ((b >> ((s + 1) as u8)) & (0xFFu8 >> ((8 - (w - 1)) as u8))) * 2 + ((b >> s) & 1u8),
{
    assert((b >> s) & (0xFFu8 >> ((8 - w) as u8)) == ((b >> ((s + 1) as u8)) & (0xFFu8 >> ((8 - (w - 1)) as u8))) * 2 + ((b >> s) & 1u8)) by (bit_vector)
        requires 2 <= w, s + w <= 8;
}


/// Splitting a run of bits: the first `a` bits form the high part of the number
/// and the next `b` bits its low part.
pub proof fn lemma_bits_value_concat(data: Seq<u8>, start: int, a: nat, b: nat)
    ensures
        bits_value(data, start, a + b) == bits_value(data, start, a) * pow2(b) + bits_value(data, start + a, b),
    decreases b,
{
    if b == 0 {
        assert(pow2(0) == 1) by { vstd::arithmetic::power2::lemma2_to64(); }
    } else {
        lemma_bits_value_concat(data, start, a, (b - 1) as nat);
        lemma_pow2_unfold(b);
        assert(bits_value(data, start, a + b) == 2 * bits_value(data, start, (a + b - 1) as nat)
            + bit_nat(bit_at(data, start + a + b - 1)));
        assert(bits_value(data, start + a, b) == 2 * bits_value(data, start + a, (b - 1) as nat)
            + bit_nat(bit_at(data, start + a + b - 1)));
        assert(bits_value(data, start, a) * pow2(b) == 2 * (bits_value(data, start, a) * pow2((b - 1) as nat))) by (nonlinear_arith)
            requires pow2(b) == 2 * pow2((b - 1) as nat);
    }
}

/// The `w` bits of `data` starting at bit `p`, all inside one byte, are what
/// a shift and a mask of that byte give.
pub proof fn lemma_chunk_value(data: Seq<u8>, p: int, w: nat)
    requires
        0 <= p,
        p / 8 < data.len(),
        1 <= w,
        p % 8 + w <= 8,
    ensures
        ((data[p / 8] >> ((8 - w - p % 8) as u8)) & (0xFFu8 >> ((8 - w) as u8))) as nat == bits_value(data, p, w),
    decreases w,
{
    let b = data[p / 8];
    let o = p % 8;
    assert((p + w - 1) / 8 == p / 8 && (p + w - 1) % 8 == o + w - 1);
    let s = (8 - w - o) as u8;
    let t = (b >> s) & 1u8;
    assert(t == 0u8 || t == 1u8) by (bit_vector)
        requires t == (b >> s) & 1u8;
    if w == 1 {
        assert((b >> s) & (0xFFu8 >> 7u8) == (b >> s) & 1u8) by (bit_vector);
        assert(bits_value(data, p, 0) == 0);
    } else {
        lemma_chunk_value(data, p, (w - 1) as nat);
        lemma_byte_chunk_step(b, (8 - w - o) as u8, w as u8);
    }
}


/// Bit `k` of `v`, counting from the least significant bit (`k == 0`).
pub open spec fn value_bit(v: u128, k: int) -> bool {
    0 <= k < 128 && (v >> (k as u128)) & 1u128 == 1u128
}

/// `after` is `before` with bits `start .. start + done` overwritten by the
/// leading `done` bits of a `len`-bit field that holds `v`: bit `start + f`
/// receives bit `len - 1 - f` of `v`. Every other bit is kept.
pub open spec fn field_prefix_written(before: Seq<u8>, after: Seq<u8>, start: int, len: nat, done: nat, v: u128) -> bool {
    &&& after.len() == before.len()
    &&& forall|i: int|
        0 <= i < 8 * before.len() ==> #[trigger] bit_at(after, i) == if start <= i < start + done {
            value_bit(v, start + len - 1 - i)
        } else {
            bit_at(before, i)
        }
}

/// `after` is `before` with the `len` bits at `start` holding the low `len`
/// bits of `v`, most significant first, and every other bit kept.
pub open spec fn holds_field(before: Seq<u8>, after: Seq<u8>, start: int, len: nat, v: u128) -> bool {
    field_prefix_written(before, after, start, len, len, v)
}

/// Writing `x` through a mask that covers bits `lo .. lo + w` (counted from
/// the least significant) changes just those bits of `b`.
pub proof fn lemma_masked_write_bit(b: u8, x: u8, lo: u8, w: u8, t: u8)
    requires
        1 <= w,
        lo + w <= 8,
        t < 8,
    ensures
        ({
            let mask = (0xFFu8 >> ((8 - w) as u8)) << lo;
            let nb = (b & !mask) | (x & mask);
            ((nb >> t) & 1u8) == if lo <= t < lo + w { (x >> t) & 1u8 } else { (b >> t) & 1u8 }
        }),
{
    assert(({
        let mask = (0xFFu8 >> ((8 - w) as u8)) << lo;
        let nb = (b & !mask) | (x & mask);
        ((nb >> t) & 1u8) == if lo <= t < lo + w { (x >> t) & 1u8 } else { (b >> t) & 1u8 }
    })) by (bit_vector)
        requires 1 <= w, lo + w <= 8, t < 8;
}

/// Bit `t` of the low byte of `v >> s` is bit `s + t` of `v`.
pub proof fn lemma_shr_byte_bit(v: u128, s: u128, t: u8)
    requires
        t < 8,
        s + t < 128,
    ensures
        ((((v >> s) as u8) >> t) & 1u8 == 1u8) == ((v >> (s + t as u128)) & 1u128 == 1u128),
{
    assert(((((v >> s) as u8) >> t) & 1u8 == 1u8) == ((v >> (s + t as u128)) & 1u128 == 1u128)) by (bit_vector)
        requires t < 8, s + t < 128;
}

/// Bit `t` of the low byte of `v << k` is bit `t - k` of `v`, when `t >= k`.
pub proof fn lemma_shl_byte_bit(v: u128, k: u128, t: u8)
    requires
        k <= t,
        t < 8,
    ensures
        ((((v << k) as u8) >> t) & 1u8 == 1u8) == ((v >> (t as u128 - k) as u128) & 1u128 == 1u128),
{
    assert(((((v << k) as u8) >> t) & 1u8 == 1u8) == ((v >> (t as u128 - k) as u128) & 1u128 == 1u128)) by (bit_vector)
        requires k <= t, t < 8;
}


/// Bit `k` of `v` is the parity of `v / 2^k`.
pub proof fn lemma_value_bit_div(v: u128, k: nat)
    requires
        k < 128,
    ensures
        value_bit(v, k as int) == ((v as nat / pow2(k)) % 2 == 1),
{
    vstd::bits::lemma_u128_shr_is_div(v, k as u128);
    let y = v >> (k as u128);
    assert((y & 1u128 == 1u128) == (y % 2 == 1)) by (bit_vector);
}

/// After a field write, the first `n` bits of the field read as the top `n`
/// of the field's `len` low bits of `v`.
pub proof fn lemma_written_prefix_value(before: Seq<u8>, after: Seq<u8>, start: int, len: nat, v: u128, n: nat)
    requires
        holds_field(before, after, start, len, v),
        0 <= start,
        8 * before.len() >= start + len,
        len <= 128,
        n <= len,
    ensures
        bits_value(after, start, n) == (v as nat / pow2((len - n) as nat)) % pow2(n),
    decreases n,
{
    vstd::arithmetic::power2::lemma2_to64();
    if n == 0 {
        assert(pow2(0) == 1);
    } else {
        lemma_written_prefix_value(before, after, start, len, v, (n - 1) as nat);
        let k = (len - n) as nat;
        let i = start + n - 1;
        assert(bit_at(after, i) == value_bit(v, start + len - 1 - i));
        lemma_value_bit_div(v, k);
        lemma_pow2_pos(k);
        lemma_pow2_pos((n - 1) as nat);
        lemma_pow2_unfold(k + 1);
        lemma_pow2_unfold(n);
        let y = v as nat / pow2(k);
        vstd::arithmetic::div_mod::lemma_div_denominator(v as int, pow2(k) as int, 2);
        assert(((len - (n - 1)) as nat) == k + 1);
        assert(v as nat / pow2(k + 1) == y / 2);
        vstd::arithmetic::div_mod::lemma_mod_breakdown(y as int, 2, pow2((n - 1) as nat) as int);
    }
}

/// After a field write, the field reads as the low `len` bits of the value written.
pub proof fn lemma_written_value(before: Seq<u8>, after: Seq<u8>, start: int, len: nat, v: u128)
    requires
        holds_field(before, after, start, len, v),
        0 <= start,
        8 * before.len() >= start + len,
        len <= 128,
    ensures
        bits_value(after, start, len) == v as nat % pow2(len),
{
    lemma_written_prefix_value(before, after, start, len, v, len);
    vstd::arithmetic::power2::lemma2_to64();
    assert(((len - len) as nat) == 0);
    assert(pow2(0) == 1);
    assert(v as nat / 1 == v as nat);
}


/// Two bytes with the same eight bits are the same byte.
pub proof fn lemma_byte_from_bits(a: u8, b: u8)
    requires
        forall|j: int| 0 <= j < 8 ==> byte_bit(a, j) == byte_bit(b, j),
    ensures
        a == b,
{
    assert(byte_bit(a, 0) == byte_bit(b, 0));
    assert(byte_bit(a, 1) == byte_bit(b, 1));
    assert(byte_bit(a, 2) == byte_bit(b, 2));
    assert(byte_bit(a, 3) == byte_bit(b, 3));
    assert(byte_bit(a, 4) == byte_bit(b, 4));
    assert(byte_bit(a, 5) == byte_bit(b, 5));
    assert(byte_bit(a, 6) == byte_bit(b, 6));
    assert(byte_bit(a, 7) == byte_bit(b, 7));
    assert(a == b) by (bit_vector)
        requires
            ((a >> 7u8) & 1u8 == 1u8) == ((b >> 7u8) & 1u8 == 1u8),
            ((a >> 6u8) & 1u8 == 1u8) == ((b >> 6u8) & 1u8 == 1u8),
            ((a >> 5u8) & 1u8 == 1u8) == ((b >> 5u8) & 1u8 == 1u8),
            ((a >> 4u8) & 1u8 == 1u8) == ((b >> 4u8) & 1u8 == 1u8),
            ((a >> 3u8) & 1u8 == 1u8) == ((b >> 3u8) & 1u8 == 1u8),
            ((a >> 2u8) & 1u8 == 1u8) == ((b >> 2u8) & 1u8 == 1u8),
            ((a >> 1u8) & 1u8 == 1u8) == ((b >> 1u8) & 1u8 == 1u8),
            ((a >> 0u8) & 1u8 == 1u8) == ((b >> 0u8) & 1u8 == 1u8),
    ;
}

/// Two byte strings of one length with the same bits are the same string.
pub proof fn lemma_bytes_from_bits(a: Seq<u8>, b: Seq<u8>)
    requires
        a.len() == b.len(),
        forall|i: int| 0 <= i < 8 * a.len() ==> #[trigger] bit_at(a, i) == bit_at(b, i),
    ensures
        a == b,
{
    assert forall|k: int| 0 <= k < a.len() implies a[k] == b[k] by {
        assert forall|j: int| 0 <= j < 8 implies byte_bit(a[k], j) == byte_bit(b[k], j) by {
            let i = 8 * k + j;
            assert(i / 8 == k && i % 8 == j);
            assert(bit_at(a, i) == bit_at(b, i));
        }
        lemma_byte_from_bits(a[k], b[k]);
    }
    assert(a =~= b);
}


/// A run of bits reads the same in two strings that agree on it.
pub proof fn lemma_bits_value_same(a: Seq<u8>, b: Seq<u8>, start: int, len: nat)
    requires
        forall|i: int| start <= i < start + len ==> #[trigger] bit_at(a, i) == bit_at(b, i),
    ensures
        bits_value(a, start, len) == bits_value(b, start, len),
    decreases len,
{
    if len > 0 {
        lemma_bits_value_same(a, b, start, (len - 1) as nat);
        assert(bit_at(a, start + len - 1) == bit_at(b, start + len - 1));
    }
}

/// Two strings whose runs of bits read the same number agree on every bit of the run.
pub proof fn lemma_bits_value_injective(a: Seq<u8>, b: Seq<u8>, start: int, len: nat)
    requires
        bits_value(a, start, len) == bits_value(b, start, len),
    ensures
        forall|i: int| start <= i < start + len ==> #[trigger] bit_at(a, i) == bit_at(b, i),
    decreases len,
{
    if len > 0 {
        let l1 = (len - 1) as nat;
        let ba = bit_nat(bit_at(a, start + l1));
        let bb = bit_nat(bit_at(b, start + l1));
        assert(2 * bits_value(a, start, l1) + ba == 2 * bits_value(b, start, l1) + bb);
        assert(ba == bb);
        lemma_bits_value_injective(a, b, start, l1);
    }
}

/// A run of `len` bits reads as a number below `2^len`.
pub proof fn lemma_bits_value_bound(data: Seq<u8>, start: int, len: nat)
    ensures
        bits_value(data, start, len) < pow2(len),
    decreases len,
{
    if len == 0 {
        vstd::arithmetic::power2::lemma2_to64();
    } else {
        lemma_bits_value_bound(data, start, (len - 1) as nat);
        lemma_pow2_unfold(len);
    }
}

} // verus!
