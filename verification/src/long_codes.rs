//! How many beginnings the long code words of a code can have.
//!
//! The lookup table for the literal/length code has one entry for each 12 bits. Those that no code
//! word of up to 12 bits is the beginning of begin longer code words. In a complete code there are
//! few of them, because each of them is shared by two code words at least.
use crate::bits::low_bits;
use crate::huffman::{
    code_matches, codes_match, complete, decode_symbol, lemma_decode_symbol, preceding, symbol_at,
    valid_lengths,
};
use crate::litlen_table::{ends_with, lemma_stride_next, lemma_stride_start, lemma_window_symbol};
use vstd::arithmetic::power2::{lemma2_to64, lemma_pow2_adds, lemma_pow2_pos, pow2};
use vstd::prelude::*;

verus! {

/// How many of the numbers below `n` have 12 bits that begin a longer code word, or none.
pub open spec fn count_long(lens: Seq<u8>, n: int) -> nat
    decreases n,
{
    if n <= 0 {
        0
    } else {
        count_long(lens, n - 1) + if decode_symbol(lens, low_bits((n - 1) as u64, 12)) is None {
            1nat
        } else {
            0
        }
    }
}

/// How many of the numbers below `n` have 12 bits that begin with symbol `i`.
spec fn hits(lens: Seq<u8>, i: int, n: int) -> nat
    decreases n,
{
    if n <= 0 {
        0
    } else {
        hits(lens, i, n - 1) + if symbol_at(lens, low_bits((n - 1) as u64, 12), i) {
            1nat
        } else {
            0
        }
    }
}

/// The same for all symbols below `m` together.
spec fn all_hits(lens: Seq<u8>, m: int, n: int) -> nat
    decreases m,
{
    if m <= 0 {
        0
    } else {
        all_hits(lens, m - 1, n) + hits(lens, m - 1, n)
    }
}

/// How many numbers of 12 bits the code words of up to 12 bits of the symbols below `m` take up.
spec fn short_sum(lens: Seq<u8>, m: int) -> nat
    decreases m,
{
    if m <= 0 {
        0
    } else {
        short_sum(lens, m - 1) + if 0 < lens[m - 1] <= 12 {
            pow2((12 - lens[m - 1]) as nat)
        } else {
            0
        }
    }
}

proof fn lemma_hits_monotone(lens: Seq<u8>, i: int, a: int, b: int)
    requires
        a <= b,
    ensures
        hits(lens, i, a) <= hits(lens, i, b),
    decreases b - a,
{
    if a < b && b > 0 {
        lemma_hits_monotone(lens, i, a, b - 1);
    }
}

/// A code word begins one in `step` numbers.
proof fn lemma_hits_stride(lens: Seq<u8>, code: u16, i: int, step: u64, t: nat)
    requires
        0 <= i < lens.len(),
        1 <= lens[i] <= 12,
        code_matches(lens, i, code),
        step == 1u64 << (lens[i] as u64),
        code + t * step < 4096,
    ensures
        ends_with((code + t * step) as int, lens[i], code as u64),
        hits(lens, i, (code + t * step + 1) as int) >= t + 1,
    decreases t,
{
    lemma_stride_start(lens[i], code as u64);
    if t == 0 {
        assert(t * step == 0) by (nonlinear_arith)
            requires
                t == 0,
        ;
    } else {
        let d = (t - 1) as nat;
        assert(t * step == d * step + step) by (nonlinear_arith)
            requires
                t == d + 1,
        ;
        lemma_hits_stride(lens, code, i, step, d);
        assert(d * step >= 0) by (nonlinear_arith);
        lemma_stride_next((code + d * step) as u64, lens[i], code as u64);
        lemma_hits_monotone(
            lens,
            i,
            (code + d * step + 1) as int,
            (code + t * step) as int,
        );
    }
    let x = (code + t * step) as u64;
    lemma_window_symbol(lens, code, x, 12, i);
}

/// A code word of up to 12 bits begins as many numbers as it takes up.
proof fn lemma_hits(lens: Seq<u8>, code: u16, i: int)
    requires
        0 <= i < lens.len(),
        1 <= lens[i] <= 12,
        code_matches(lens, i, code),
    ensures
        hits(lens, i, 4096) >= pow2((12 - lens[i]) as nat),
{
    let l = lens[i] as nat;
    let p = pow2((12 - l) as nat);
    let step = 1u64 << (lens[i] as u64);
    lemma_stride_start(lens[i], code as u64);
    lemma2_to64();
    lemma_pow2_adds((12 - l) as nat, l);
    lemma_pow2_pos((12 - l) as nat);
    assert(pow2(l) <= 4096) by {
        let q = pow2(l);
        assert(q <= 4096) by (nonlinear_arith)
            requires
                p * q == 4096,
                p >= 1,
        ;
    }
    vstd::bits::lemma_u64_shl_is_mul(1, l as u64);
    let t = (p - 1) as nat;
    assert(t * step + step == 4096) by (nonlinear_arith)
        requires
            p == t + 1,
            p * step == 4096,
    ;
    lemma_hits_stride(lens, code, i, step, t);
    lemma_hits_monotone(lens, i, (code + t * step + 1) as int, 4096);
}

/// No two symbols begin the same number.
proof fn lemma_one_hit(lens: Seq<u8>, m: int, n: int)
    requires
        0 < n,
        m <= lens.len(),
    ensures
        all_hits(lens, m, n) <= all_hits(lens, m, n - 1) + 1,
        !(decode_symbol(lens, low_bits((n - 1) as u64, 12)) matches Some(i) && i < m)
            ==> all_hits(lens, m, n) == all_hits(lens, m, n - 1),
    decreases m,
{
    if m > 0 {
        let w = low_bits((n - 1) as u64, 12);
        lemma_one_hit(lens, m - 1, n);
        if symbol_at(lens, w, m - 1) {
            lemma_decode_symbol(lens, w, m - 1);
        }
    }
}

proof fn lemma_hits_zero(lens: Seq<u8>, m: int)
    ensures
        all_hits(lens, m, 0) == 0,
    decreases m,
{
    if m > 0 {
        lemma_hits_zero(lens, m - 1);
    }
}

/// Each number either begins with a symbol or counts as long.
proof fn lemma_all_hits(lens: Seq<u8>, n: int)
    requires
        0 <= n,
    ensures
        all_hits(lens, lens.len() as int, n) + count_long(lens, n) <= n,
    decreases n,
{
    if n == 0 {
        lemma_hits_zero(lens, lens.len() as int);
    } else {
        lemma_all_hits(lens, n - 1);
        lemma_one_hit(lens, lens.len() as int, n);
    }
}

proof fn lemma_short_sum(lens: Seq<u8>, codes: Seq<u16>, m: int)
    requires
        codes_match(lens, codes),
        m <= lens.len(),
    ensures
        short_sum(lens, m) <= all_hits(lens, m, 4096),
    decreases m,
{
    if m > 0 {
        lemma_short_sum(lens, codes, m - 1);
        if 0 < lens[m - 1] <= 12 {
            lemma_hits(lens, codes[m - 1], m - 1);
        }
    }
}

/// Longer code words take up little.
proof fn lemma_long_share(lens: Seq<u8>, m: int)
    requires
        valid_lengths(lens),
        0 <= m <= lens.len(),
    ensures
        preceding(lens, 16, 0, m) <= 16 * short_sum(lens, m) + 8 * m,
    decreases m,
{
    if m > 0 {
        lemma_long_share(lens, m - 1);
        let l = lens[m - 1] as nat;
        assert(lens[m - 1] <= 15);
        lemma2_to64();
        if 0 < l <= 12 {
            lemma_pow2_adds(4, (12 - l) as nat);
        } else if l > 12 {
            assert(l == 13 || l == 14 || l == 15);
        }
    }
}

/// In a complete code of 288 symbols at most 144 of the 12-bit patterns begin longer code words.
pub proof fn lemma_few_long(lens: Seq<u8>, codes: Seq<u16>)
    requires
        lens.len() == 288,
        valid_lengths(lens),
        complete(lens),
        codes_match(lens, codes),
    ensures
        count_long(lens, 4096) <= 144,
{
    lemma_all_hits(lens, 4096);
    lemma_short_sum(lens, codes, 288);
    lemma_long_share(lens, 288);
}

} // verus!
