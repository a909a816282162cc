//! Bit sequences, in the order in which a deflate stream delivers them.
//!
//! A stream is a `Seq<bool>`: the first element is the next bit to be read. Bytes deliver their
//! least significant bit first. Two readings of a bit sequence as a number occur in the format:
//! plain fields ([`value`]) come least significant bit first, Huffman codes ([`code_value`]) most
//! significant bit first.
use vstd::arithmetic::div_mod::lemma_div_denominator;
use vstd::arithmetic::power2::{
    lemma2_to64, lemma_pow2_adds, lemma_pow2_pos, lemma_pow2_unfold, pow2,
};
use vstd::prelude::*;

verus! {

/// Bit `i` of `x`, counted from the least significant one.
pub open spec fn bit(x: u64, i: int) -> bool {
    (x >> (i as u64)) & 1 == 1
}

/// The `n` least significant bits of `x`, the lowest one first.
pub open spec fn low_bits(x: u64, n: nat) -> Seq<bool> {
    Seq::new(n, |i: int| bit(x, i))
}

/// The bits of a byte string in stream order.
pub open spec fn byte_bits(bytes: Seq<u8>) -> Seq<bool> {
    Seq::new(8 * bytes.len(), |i: int| bit(bytes[i / 8] as u64, i % 8))
}

/// The number that a plain field holds: its first bit is the least significant one.
pub open spec fn value(bits: Seq<bool>) -> nat
    decreases bits.len(),
{
    if bits.len() == 0 {
        0
    } else {
        2 * value(bits.drop_first()) + if bits[0] {
            1nat
        } else {
            0
        }
    }
}

/// The number that a Huffman code word spells: its first bit is the most significant one.
pub open spec fn code_value(bits: Seq<bool>) -> nat
    decreases bits.len(),
{
    if bits.len() == 0 {
        0
    } else {
        2 * code_value(bits.drop_last()) + if bits.last() {
            1nat
        } else {
            0
        }
    }
}

/// Shifting twice is shifting by the sum.
pub proof fn lemma_shr_twice(x: u64, a: u64, b: u64)
    requires
        a + b < 64,
    ensures
        (x >> a) >> b == x >> ((a + b) as u64),
{
    vstd::bits::lemma_u64_shr_is_div(x, a);
    vstd::bits::lemma_u64_shr_is_div(x >> a, b);
    vstd::bits::lemma_u64_shr_is_div(x, (a + b) as u64);
    lemma_pow2_pos(a as nat);
    lemma_pow2_pos(b as nat);
    lemma_pow2_adds(a as nat, b as nat);
    lemma_div_denominator(x as int, pow2(a as nat) as int, pow2(b as nat) as int);
}

/// Bit `i` of `x >> n` is bit `n + i` of `x`.
pub proof fn lemma_shr_bits(x: u64, n: nat, m: nat)
    requires
        n < 64,
        n + m <= 64,
    ensures
        low_bits(x >> (n as u64), m) == low_bits(x, n + m).skip(n as int),
{
    let k = n as u64;
    assert forall|i: int| 0 <= i < m implies bit(x >> k, i) == bit(x, n + i) by {
        let j = i as u64;
        lemma_shr_twice(x, k, j);
    }
    assert(low_bits(x >> k, m) =~= low_bits(x, n + m).skip(n as int));
}

/// Keeping `n` low bits keeps exactly those.
pub proof fn lemma_mask_bits(x: u64, n: nat)
    requires
        n < 64,
    ensures
        low_bits(x & (((1u64 << (n as u64)) - 1) as u64), n) == low_bits(x, n),
        (x & (((1u64 << (n as u64)) - 1) as u64)) >> (n as u64) == 0,
        (1u64 << (n as u64)) >= 1,
{
    let k = n as u64;
    let m = x & (((1u64 << k) - 1) as u64);
    assert(m >> k == 0 && (1u64 << k) >= 1) by (bit_vector)
        requires
            m == x & (((1u64 << k) - 1) as u64),
            k < 64,
    ;
    assert forall|i: int| 0 <= i < n implies bit(m, i) == bit(x, i) by {
        let j = i as u64;
        assert((m >> j) & 1 == (x >> j) & 1) by (bit_vector)
            requires
                m == x & (((1u64 << k) - 1) as u64),
                j < k,
                k < 64,
        ;
    }
    assert(low_bits(m, n) =~= low_bits(x, n));
}

/// A number with no bit at or above position `n` is the value of its `n` low bits.
pub proof fn lemma_low_bits_value(x: u64, n: nat)
    requires
        n <= 64,
        n < 64 ==> x >> (n as u64) == 0,
    ensures
        value(low_bits(x, n)) == x,
    decreases n,
{
    if n == 0 {
        assert(x >> 0 == x) by (bit_vector);
    } else {
        let k = n as u64;
        let y = x >> 1;
        assert(x == 2 * y + (x & 1) && (x >> 0) & 1 == x & 1 && (x & 1 == 1 || x & 1 == 0) && (k
            < 64 && x >> k == 0 ==> y >> ((k - 1) as u64) == 0) && (k == 64 ==> y >> 63 == 0)) by (bit_vector)
            requires
                y == x >> 1,
                1 <= k <= 64,
        ;
        lemma_low_bits_value(y, (n - 1) as nat);
        lemma_shr_bits(x, 1, (n - 1) as nat);
        assert(low_bits(x, n).drop_first() =~= low_bits(y, (n - 1) as nat));
        assert(low_bits(x, n)[0] == bit(x, 0));
    }
}

/// A part of a field is a shifted part of the number.
pub proof fn lemma_field(x: u64, bits: Seq<bool>, a: nat, n: nat)
    requires
        a <= n < 64,
        n <= bits.len(),
        low_bits(x, n) == bits.take(n as int),
        x >> (n as u64) == 0,
    ensures
        x >> (a as u64) == value(bits.subrange(a as int, n as int)),
        (x >> (a as u64)) >> ((n - a) as u64) == 0,
        low_bits(x >> (a as u64), (n - a) as nat) == bits.subrange(a as int, n as int),
{
    lemma_shr_bits(x, a, (n - a) as nat);
    assert(bits.take(n as int).skip(a as int) =~= bits.subrange(a as int, n as int));
    let k = a as u64;
    let m = n as u64;
    let d = (n - a) as u64;
    assert((x >> k) >> d == 0) by (bit_vector)
        requires
            m == k + d,
            m < 64,
            x >> m == 0,
    ;
    lemma_low_bits_value(x >> k, (n - a) as nat);
}

/// A byte has eight bits.
pub proof fn lemma_byte_high(x: u64)
    requires
        x < 256,
    ensures
        x >> 8 == 0,
{
    assert(x >> 8 == 0) by (bit_vector)
        requires
            x < 256,
    ;
}

/// The first eight bits of a byte string are its first byte.
pub proof fn lemma_first_byte(bytes: Seq<u8>)
    requires
        bytes.len() > 0,
    ensures
        value(byte_bits(bytes).take(8)) == bytes[0],
        byte_bits(bytes).skip(8) == byte_bits(bytes.skip(1)),
{
    let x = bytes[0] as u64;
    lemma_byte_high(x);
    assert(byte_bits(bytes).take(8) =~= low_bits(x, 8));
    lemma_low_bits_value(x, 8);
    assert(byte_bits(bytes).skip(8) =~= byte_bits(bytes.skip(1)));
}

/// The field of `w` bits from bit `a` on.
pub proof fn lemma_inner_field(x: u64, bits: Seq<bool>, a: nat, w: nat, n: nat)
    requires
        a + w <= n < 64,
        n <= bits.len(),
        low_bits(x, n) == bits.take(n as int),
    ensures
        (x >> (a as u64)) & (((1u64 << (w as u64)) - 1) as u64) == value(
            bits.subrange(a as int, (a + w) as int),
        ),
        (1u64 << (w as u64)) >= 1,
{
    let y = x >> (a as u64);
    lemma_shr_bits(x, a, w);
    assert(low_bits(x, a + w) =~= low_bits(x, n).take((a + w) as int));
    assert(low_bits(y, w) =~= bits.subrange(a as int, (a + w) as int));
    lemma_mask_bits(y, w);
    lemma_low_bits_value(y & (((1u64 << (w as u64)) - 1) as u64), w);
}

/// Two numbers below `2^n` with the same `n` low bits are equal.
pub proof fn lemma_low_bits_injective(x: u64, y: u64, n: nat)
    requires
        n < 64,
        x >> (n as u64) == 0,
        y >> (n as u64) == 0,
        low_bits(x, n) == low_bits(y, n),
    ensures
        x == y,
{
    lemma_low_bits_value(x, n);
    lemma_low_bits_value(y, n);
}

/// Appending `w` above the `n` bits of `x` appends its bits.
pub proof fn lemma_append_bits(x: u64, w: u64, n: nat, m: nat)
    requires
        n < 64,
        n + m <= 64,
        x >> (n as u64) == 0,
    ensures
        low_bits(x | (w << (n as u64)), n + m) == low_bits(x, n) + low_bits(w, m),
{
    let k = n as u64;
    let y = x | (w << k);
    assert forall|i: int| 0 <= i < n + m implies bit(y, i) == (low_bits(x, n) + low_bits(
        w,
        m,
    ))[i] by {
        let j = i as u64;
        if i < n {
            assert((y >> j) & 1 == (x >> j) & 1) by (bit_vector)
                requires
                    y == x | (w << k),
                    j < k,
                    k < 64,
            ;
        } else {
            let d = (i - n) as u64;
            assert((y >> j) & 1 == (w >> d) & 1) by (bit_vector)
                requires
                    y == x | (w << k),
                    x >> k == 0,
                    j == k + d,
                    j < 64,
            ;
            assert(low_bits(w, m)[i - n] == bit(w, i - n));
        }
    }
    assert(low_bits(y, n + m) =~= low_bits(x, n) + low_bits(w, m));
}

/// The bits of a concatenation.
pub proof fn lemma_byte_bits_concat(a: Seq<u8>, b: Seq<u8>)
    ensures
        byte_bits(a + b) == byte_bits(a) + byte_bits(b),
{
    assert forall|i: int| 0 <= i < 8 * (a + b).len() implies byte_bits(a + b)[i] == (byte_bits(a)
        + byte_bits(b))[i] by {
        if i >= 8 * a.len() {
            let j = i - 8 * a.len();
            assert(i / 8 == a.len() + j / 8);
            assert(i % 8 == j % 8);
        }
    }
    assert(byte_bits(a + b) =~= byte_bits(a) + byte_bits(b));
}

/// The value of `n` bits is less than `2^n`.
pub proof fn lemma_value_bound(bits: Seq<bool>)
    ensures
        value(bits) < pow2(bits.len()),
    decreases bits.len(),
{
    if bits.len() == 0 {
        lemma2_to64();
    } else {
        lemma_value_bound(bits.drop_first());
        lemma_pow2_unfold(bits.len());
    }
}

/// The number that a code word of `n` bits spells is less than `2^n`.
pub proof fn lemma_code_value_bound(bits: Seq<bool>)
    ensures
        code_value(bits) < pow2(bits.len()),
    decreases bits.len(),
{
    if bits.len() == 0 {
        lemma2_to64();
    } else {
        lemma_code_value_bound(bits.drop_last());
        lemma_pow2_unfold(bits.len());
    }
}

/// Code words of equal length that spell the same number are equal.
pub proof fn lemma_code_value_injective(a: Seq<bool>, b: Seq<bool>)
    requires
        a.len() == b.len(),
        code_value(a) == code_value(b),
    ensures
        a == b,
    decreases a.len(),
{
    if a.len() > 0 {
        lemma_code_value_injective(a.drop_last(), b.drop_last());
        assert(a =~= a.drop_last().push(a.last()));
        assert(b =~= b.drop_last().push(b.last()));
    } else {
        assert(a =~= b);
    }
}

} // verus!
