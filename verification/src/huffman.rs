//! Canonical Huffman codes.
//!
//! A code is given by the length of each symbol's code word, zero for a symbol without one. Code
//! words are handed out in the order of their lengths, and among equal lengths in the order of
//! the symbols; each is the next number of its length.
use crate::bits::{
    bit, code_value, lemma_append_bits, lemma_code_value_bound, lemma_code_value_injective,
    lemma_shr_twice, low_bits,
};
use crate::rules::{code_number, kraft_sum, lemma_code_number, lemma_complete_kraft};
use vstd::arithmetic::power2::{
    lemma2_to64, lemma_pow2_adds, lemma_pow2_pos, lemma_pow2_unfold, pow2,
};
use vstd::prelude::*;

verus! {

/// The longest code word that the format allows.
pub const MAX_CODE_LENGTH: u8 = 15;

/// How many numbers of `len` bits the code words before `(len, idx)` take up, counting the first
/// `n` symbols: a shorter code word takes up all numbers that begin with it.
pub open spec fn preceding(lens: Seq<u8>, len: nat, idx: int, n: int) -> nat
    decreases n,
{
    if n <= 0 {
        0
    } else {
        let l = lens[n - 1] as nat;
        preceding(lens, len, idx, n - 1) + if 0 < l && (l < len || (l == len && n - 1 < idx)) {
            pow2((len - l) as nat)
        } else {
            0
        }
    }
}

/// The number that the code word of symbol `i` spells.
pub open spec fn canonical_code(lens: Seq<u8>, i: int) -> nat {
    preceding(lens, lens[i] as nat, i, lens.len() as int)
}

/// All lengths are ones that the format allows.
pub open spec fn valid_lengths(lens: Seq<u8>) -> bool {
    forall|i: int| 0 <= i < lens.len() ==> #[trigger] lens[i] <= MAX_CODE_LENGTH
}

/// The code words take up all numbers, each exactly once: every bit sequence that is long enough
/// begins with a code word.
pub open spec fn complete(lens: Seq<u8>) -> bool {
    preceding(lens, 16, 0, lens.len() as int) == 0x1_0000
}

/// `bits` begins with the code word of symbol `i`.
pub open spec fn symbol_at(lens: Seq<u8>, bits: Seq<bool>, i: int) -> bool {
    &&& 0 <= i < lens.len()
    &&& 0 < lens[i] <= bits.len()
    &&& code_value(bits.take(lens[i] as int)) == canonical_code(lens, i)
}

/// The symbol whose code word `bits` begins with.
pub open spec fn decode_symbol(lens: Seq<u8>, bits: Seq<bool>) -> Option<int> {
    if exists|i: int| symbol_at(lens, bits, i) {
        Some(choose|i: int| symbol_at(lens, bits, i))
    } else {
        None
    }
}

/// `code` holds the code word of symbol `i`, with its first bit in the lowest place.
pub open spec fn code_matches(lens: Seq<u8>, i: int, code: u16) -> bool {
    &&& (code as u64) >> (lens[i] as u64) == 0
    &&& code_value(low_bits(code as u64, lens[i] as nat)) == canonical_code(lens, i)
}

/// `codes` holds the code words of all symbols that have one.
pub open spec fn codes_match(lens: Seq<u8>, codes: Seq<u16>) -> bool {
    &&& codes.len() == lens.len()
    &&& forall|i: int|
        0 <= i < lens.len() && lens[i] > 0 ==> code_matches(lens, i, #[trigger] codes[i])
}

pub proof fn lemma_preceding_next(lens: Seq<u8>, len: nat, idx: int, n: int)
    requires
        0 < len,
        0 <= idx < lens.len(),
        n <= lens.len(),
    ensures
        preceding(lens, len, idx + 1, n) == preceding(lens, len, idx, n) + if idx < n && lens[idx]
            == len {
            1nat
        } else {
            0
        },
    decreases n,
{
    if n > 0 {
        lemma_preceding_next(lens, len, idx, n - 1);
        lemma2_to64();
    }
}

pub proof fn lemma_preceding_double(lens: Seq<u8>, len: nat, idx: int, n: int)
    requires
        n <= idx,
        n <= lens.len(),
    ensures
        preceding(lens, len + 1, 0, n) == 2 * preceding(lens, len, idx, n),
    decreases n,
{
    if n > 0 {
        lemma_preceding_double(lens, len, idx, n - 1);
        let l = lens[n - 1] as nat;
        if 0 < l <= len {
            lemma_pow2_unfold((len + 1 - l) as nat);
        }
    }
}

proof fn lemma_preceding_monotone(lens: Seq<u8>, len: nat, i: int, j: int, n: int)
    requires
        i <= j,
        n <= lens.len(),
    ensures
        preceding(lens, len, i, n) <= preceding(lens, len, j, n),
    decreases n,
{
    if n > 0 {
        lemma_preceding_monotone(lens, len, i, j, n - 1);
    }
}

/// No more numbers are taken up than `n` code words of one bit each would.
proof fn lemma_preceding_bound(lens: Seq<u8>, len: nat, idx: int, n: int)
    requires
        0 <= n <= lens.len(),
    ensures
        preceding(lens, len, idx, n) <= n * pow2(len),
    decreases n,
{
    if n > 0 {
        lemma_preceding_bound(lens, len, idx, n - 1);
        let l = lens[n - 1] as nat;
        if 0 < l <= len {
            lemma_pow2_adds((len - l) as nat, l);
            lemma_pow2_pos(l);
            let a = pow2((len - l) as nat);
            let b = pow2(l);
            assert(a <= a * b) by (nonlinear_arith)
                requires
                    b >= 1,
            ;
        }
        let p = pow2(len);
        assert(n * p == (n - 1) * p + p) by (nonlinear_arith);
    }
}

/// What is taken up before a place is still taken up before a later one.
pub proof fn lemma_preceding_later(lens: Seq<u8>, l: nat, a: int, m: nat, b: int)
    requires
        l < m || (l == m && a <= b),
        a <= lens.len(),
    ensures
        preceding(lens, l, a, lens.len() as int) * pow2((m - l) as nat) <= preceding(
            lens,
            m,
            b,
            lens.len() as int,
        ),
    decreases m,
{
    let n = lens.len() as int;
    if l == m {
        lemma_preceding_monotone(lens, l, a, b, n);
        lemma2_to64();
        let p = preceding(lens, l, a, n);
        let r = pow2((m - l) as nat);
        assert(p * r == p) by (nonlinear_arith)
            requires
                r == 1,
        ;
    } else {
        lemma_preceding_later(lens, l, a, (m - 1) as nat, n);
        lemma_preceding_double(lens, (m - 1) as nat, n, n);
        if b >= 0 {
            lemma_preceding_monotone(lens, m, 0, b, n);
        } else {
            lemma_preceding_negative(lens, m, b, n);
        }
        lemma_pow2_unfold((m - l) as nat);
        let p = preceding(lens, l, a, n);
        let q = pow2((m - 1 - l) as nat);
        let r = pow2((m - l) as nat);
        assert(p * r == 2 * (p * q)) by (nonlinear_arith)
            requires
                r == 2 * q,
        ;
    }
}

proof fn lemma_preceding_negative(lens: Seq<u8>, len: nat, b: int, n: int)
    requires
        b <= 0,
        n <= lens.len(),
    ensures
        preceding(lens, len, b, n) == preceding(lens, len, 0, n),
    decreases n,
{
    if n > 0 {
        lemma_preceding_negative(lens, len, b, n - 1);
    }
}

/// A longer prefix spells a number that begins with what a shorter one spells.
proof fn lemma_code_value_prefix(bits: Seq<bool>, l: nat, m: nat)
    requires
        l <= m <= bits.len(),
    ensures
        code_value(bits.take(l as int)) * pow2((m - l) as nat) <= code_value(bits.take(m as int)),
        code_value(bits.take(m as int)) < (code_value(bits.take(l as int)) + 1) * pow2(
            (m - l) as nat,
        ),
    decreases m,
{
    let x = code_value(bits.take(l as int));
    let r = pow2((m - l) as nat);
    if l == m {
        lemma2_to64();
        assert(x * r == x && (x + 1) * r == x + 1) by (nonlinear_arith)
            requires
                r == 1,
        ;
    } else {
        lemma_code_value_prefix(bits, l, (m - 1) as nat);
        assert(bits.take(m as int).drop_last() =~= bits.take(m - 1));
        lemma_pow2_unfold((m - l) as nat);
        let q = pow2((m - 1 - l) as nat);
        assert(x * r == 2 * (x * q) && (x + 1) * r == 2 * ((x + 1) * q)) by (nonlinear_arith)
            requires
                r == 2 * q,
        ;
    }
}

/// Code words are not prefixes of each other: a bit sequence begins with at most one.
pub proof fn lemma_symbol_unique(lens: Seq<u8>, bits: Seq<bool>, i: int, j: int)
    requires
        symbol_at(lens, bits, i),
        symbol_at(lens, bits, j),
    ensures
        i == j,
{
    if i != j {
        if lens[i] < lens[j] || (lens[i] == lens[j] && i < j) {
            lemma_symbol_order(lens, bits, i, j);
        } else {
            lemma_symbol_order(lens, bits, j, i);
        }
    }
}

proof fn lemma_symbol_order(lens: Seq<u8>, bits: Seq<bool>, i: int, j: int)
    requires
        symbol_at(lens, bits, i),
        0 <= j < lens.len(),
        lens[i] < lens[j] || (lens[i] == lens[j] && i < j),
    ensures
        !symbol_at(lens, bits, j),
{
    let l = lens[i] as nat;
    let m = lens[j] as nat;
    lemma_preceding_next(lens, l, i, lens.len() as int);
    lemma_preceding_later(lens, l, i + 1, m, j);
    if symbol_at(lens, bits, j) {
        lemma_code_value_prefix(bits, l, m);
    }
}

/// What `decode_symbol` returns is the symbol whose code word comes next, if there is one.
pub proof fn lemma_decode_symbol(lens: Seq<u8>, bits: Seq<bool>, i: int)
    requires
        symbol_at(lens, bits, i),
    ensures
        decode_symbol(lens, bits) == Some(i),
{
    let j = choose|j: int| symbol_at(lens, bits, j);
    lemma_symbol_unique(lens, bits, i, j);
}

/// More bits at the end do not change which code word a bit sequence begins with.
pub proof fn lemma_symbol_extend(lens: Seq<u8>, bits: Seq<bool>, more: Seq<bool>, i: int)
    requires
        symbol_at(lens, bits, i),
    ensures
        symbol_at(lens, bits + more, i),
{
    assert((bits + more).take(lens[i] as int) =~= bits.take(lens[i] as int));
}

/// Searches for the symbol at `bits` from the place `(len, idx)` on.
proof fn lemma_find_symbol(lens: Seq<u8>, bits: Seq<bool>, len: nat, idx: int) -> (i: int)
    requires
        complete(lens),
        valid_lengths(lens),
        bits.len() >= 15,
        1 <= len <= 16,
        0 <= idx <= lens.len(),
        len == 16 ==> idx == 0,
        len <= 15 ==> preceding(lens, len, idx, lens.len() as int) <= code_value(
            bits.take(len as int),
        ),
        len == 16 ==> preceding(lens, 16, 0, lens.len() as int) <= 2 * code_value(bits.take(15)),
    ensures
        symbol_at(lens, bits, i),
    decreases 16 - len, lens.len() - idx,
{
    let n = lens.len() as int;
    lemma2_to64();
    lemma_code_value_bound(bits.take(15));
    if len == 16 {
        assert(false);
        0
    } else if idx == n {
        lemma_preceding_double(lens, len, n, n);
        if len < 15 {
            assert(bits.take(len as int + 1).drop_last() =~= bits.take(len as int));
        }
        lemma_find_symbol(lens, bits, len + 1, 0)
    } else {
        lemma_preceding_next(lens, len, idx, n);
        if lens[idx] == len && preceding(lens, len, idx, n) == code_value(bits.take(len as int)) {
            idx
        } else {
            lemma_find_symbol(lens, bits, len, idx + 1)
        }
    }
}

pub proof fn lemma_preceding_start(lens: Seq<u8>, n: int)
    requires
        0 <= n <= lens.len(),
    ensures
        preceding(lens, 1, 0, n) == 0,
    decreases n,
{
    if n > 0 {
        lemma_preceding_start(lens, n - 1);
    }
}

/// With a complete code every sequence of at least 15 bits begins with a code word.
pub proof fn lemma_symbol_exists(lens: Seq<u8>, bits: Seq<bool>)
    requires
        complete(lens),
        valid_lengths(lens),
        bits.len() >= 15,
    ensures
        decode_symbol(lens, bits) matches Some(i) && symbol_at(lens, bits, i),
{
    lemma_preceding_start(lens, lens.len() as int);
    let i = lemma_find_symbol(lens, bits, 1, 0);
    lemma_decode_symbol(lens, bits, i);
}

/// A code word read as a number: `bits` begins with symbol `i` exactly if its first bits, lowest
/// first, are those of its code word.
pub proof fn lemma_symbol_bits(lens: Seq<u8>, code: u16, bits: Seq<bool>, i: int)
    requires
        code_matches(lens, i, code),
        0 <= i < lens.len(),
        0 < lens[i] <= bits.len(),
    ensures
        symbol_at(lens, bits, i) <==> bits.take(lens[i] as int) == low_bits(
            code as u64,
            lens[i] as nat,
        ),
{
    if symbol_at(lens, bits, i) {
        lemma_code_value_injective(
            bits.take(lens[i] as int),
            low_bits(code as u64, lens[i] as nat),
        );
    }
}

/// The `n` low bits of `x`, the highest one first.
pub open spec fn high_first(x: u64, n: nat) -> Seq<bool> {
    Seq::new(n, |k: int| bit(x, n - 1 - k))
}

proof fn lemma_high_first_value(x: u64, n: nat)
    requires
        n < 64,
        x >> (n as u64) == 0,
    ensures
        code_value(high_first(x, n)) == x,
    decreases n,
{
    if n == 0 {
        assert(x >> 0 == x) by (bit_vector);
    } else {
        let m = (n - 1) as nat;
        lemma_shr_twice(x, 1, m as u64);
        lemma_high_first_value(x >> 1, m);
        assert(high_first(x, n).drop_last() =~= high_first(x >> 1, m)) by {
            assert forall|k: int| 0 <= k < m implies #[trigger] high_first(x, n)[k] == high_first(
                x >> 1,
                m,
            )[k] by {
                lemma_shr_twice(x, 1, (m - 1 - k) as u64);
            }
        }
        assert(high_first(x, n).last() == bit(x, 0));
        assert(x == 2 * (x >> 1) + (x & 1) && (x >> 0) & 1 == x & 1 && x & 1 <= 1) by (bit_vector);
    }
}

/// The `len` low bits of `code` in reverse order.
fn reverse_code(code: u64, len: u8) -> (r: u16)
    requires
        len <= 16,
    ensures
        (r as u64) >> (len as u64) == 0,
        low_bits(r as u64, len as nat) == high_first(code, len as nat),
{
    let mut r: u64 = 0;
    let mut k: u8 = 0;
    assert(0u64 >> 0 == 0) by (bit_vector);
    while k < len
        invariant
            k <= len <= 16,
            r >> (k as u64) == 0,
            low_bits(r, k as nat) =~= high_first(code, len as nat).take(k as int),
        decreases len - k,
    {
        let s: u8 = len - 1 - k;
        let b: u64 = (code >> s) & 1;
        let ghost prev = r;
        r = r | (b << k);
        proof {
            lemma_append_bits(prev, b, k as nat, 1);
            let j = k as u64;
            let t = s as u64;
            assert(r >> ((j + 1) as u64) == 0 && (b >> 0) & 1 == (code >> t) & 1) by (bit_vector)
                requires
                    r == prev | (b << j),
                    prev >> j == 0,
                    b == (code >> t) & 1,
                    j < 16,
            ;
            assert(low_bits(b, 1)[0] == bit(code, s as int));
        }
        k = k + 1;
    }
    proof {
        assert(high_first(code, len as nat).take(len as int) =~= high_first(code, len as nat));
        let n = len as u64;
        assert(r < 0x1_0000) by (bit_vector)
            requires
                r >> n == 0,
                n <= 16,
        ;
    }
    r as u16
}

/// Computes the code words for the given lengths, or returns `None` if they do not form a
/// complete code: one whose Kraft sum is one.
pub fn compute_codes(lengths: &[u8]) -> (res: Option<Vec<u16>>)
    requires
        valid_lengths(lengths@),
        lengths@.len() <= 0xffff_ffff,
    ensures
        res is Some <==> complete(lengths@),
        res is Some <==> kraft_sum(lengths@) == 0x8000,
        res matches Some(codes) ==> codes_match(lengths@, codes@),
        res matches Some(codes) ==> forall|i: int|
            0 <= i < lengths@.len() && lengths@[i] > 0 ==> code_value(
                low_bits(#[trigger] codes@[i] as u64, lengths@[i] as nat),
            ) == code_number(lengths@, i),
{
    let ghost lens = lengths@;
    let n: usize = lengths.len();
    let mut codes: Vec<u16> = vec![0; n];
    let mut code: u64 = 0;
    let mut len: u8 = 1;
    proof {
        lemma_preceding_start(lens, n as int);
    }
    while len <= 16
        invariant
            1 <= len <= 17,
            n == lens.len(),
            n <= 0xffff_ffff,
            lens == lengths@,
            codes@.len() == n,
            code == preceding(lens, len as nat, 0, n as int),
            forall|i: int|
                0 <= i < n && 0 < lens[i] < len ==> {
                    &&& #[trigger] codes@[i] as u64 >> (lens[i] as u64) == 0
                    &&& low_bits(codes@[i] as u64, lens[i] as nat) == high_first(
                        canonical_code(lens, i) as u64,
                        lens[i] as nat,
                    )
                },
        decreases 17 - len,
    {
        let mut i: usize = 0;
        while i < n
            invariant
                i <= n,
                1 <= len <= 16,
                n == lens.len(),
                n <= 0xffff_ffff,
                lens == lengths@,
                codes@.len() == n,
                code == preceding(lens, len as nat, i as int, n as int),
                forall|j: int|
                    0 <= j < n && (0 < lens[j] < len || (lens[j] == len && j < i)) ==> {
                        &&& #[trigger] codes@[j] as u64 >> (lens[j] as u64) == 0
                        &&& low_bits(codes@[j] as u64, lens[j] as nat) == high_first(
                            canonical_code(lens, j) as u64,
                            lens[j] as nat,
                        )
                    },
            decreases n - i,
        {
            proof {
                lemma_preceding_next(lens, len as nat, i as int, n as int);
                lemma_code_counter_bound(lens, len as nat, i as int);
            }
            if lengths[i] == len {
                codes[i] = reverse_code(code, len);
                code = code + 1;
            }
            i = i + 1;
        }
        proof {
            lemma_preceding_double(lens, len as nat, n as int, n as int);
            lemma_code_counter_bound(lens, len as nat, n as int);
        }
        code = 2 * code;
        len = len + 1;
    }
    proof {
        lemma_preceding_double(lens, 16, n as int, n as int);
        lemma_no_longer(lens, n as int, n as int);
        lemma_complete_kraft(lens);
    }
    if code == 0x2_0000 {
        assert forall|i: int| 0 <= i < lens.len() && lens[i] > 0 implies code_matches(
            lens,
            i,
            #[trigger] codes@[i],
        ) by {
            lemma_code_fits(lens, i);
            lemma_high_first_value(canonical_code(lens, i) as u64, lens[i] as nat);
        }
        assert forall|i: int| 0 <= i < lens.len() && lens[i] > 0 implies code_value(
            low_bits(#[trigger] codes@[i] as u64, lens[i] as nat),
        ) == code_number(lens, i) by {
            lemma_code_number(lens, i);
        }
        Some(codes)
    } else {
        None
    }
}

proof fn lemma_code_counter_bound(lens: Seq<u8>, len: nat, idx: int)
    requires
        1 <= len <= 16,
        lens.len() <= 0xffff_ffff,
    ensures
        preceding(lens, len, idx, lens.len() as int) <= 0xffff_ffff * 0x1_0000,
{
    let n = lens.len();
    lemma_preceding_bound(lens, len, idx, n as int);
    lemma2_to64();
    if len < 16 {
        vstd::arithmetic::power2::lemma_pow2_strictly_increases(len, 16);
    }
    let p = pow2(len);
    assert(n * p <= 0xffff_ffff * 0x1_0000) by (nonlinear_arith)
        requires
            n <= 0xffff_ffff,
            p <= 0x1_0000,
    ;
}

proof fn lemma_no_longer(lens: Seq<u8>, idx: int, n: int)
    requires
        valid_lengths(lens),
        n <= lens.len(),
    ensures
        preceding(lens, 16, idx, n) == preceding(lens, 16, 0, n),
    decreases n,
{
    if n > 0 {
        lemma_no_longer(lens, idx, n - 1);
    }
}

/// A run of symbols with code words of one length takes up as many numbers as it is long.
pub proof fn lemma_preceding_run(lens: Seq<u8>, len: u8, a: int, b: int)
    requires
        0 <= a <= b <= lens.len(),
        0 < len < 16,
        forall|i: int| a <= i < b ==> lens[i] == len,
    ensures
        preceding(lens, 16, 0, b) == preceding(lens, 16, 0, a) + (b - a) * pow2((16 - len) as nat),
    decreases b - a,
{
    let p = pow2((16 - len) as nat);
    if a < b {
        lemma_preceding_run(lens, len, a, b - 1);
        assert((b - a) * p == (b - 1 - a) * p + p) by (nonlinear_arith);
    } else {
        assert((b - a) * p == 0) by (nonlinear_arith)
            requires
                a == b,
        ;
    }
}

/// In a complete code the number of a code word fits in its length.
pub proof fn lemma_code_fits(lens: Seq<u8>, i: int)
    requires
        valid_lengths(lens),
        complete(lens),
        0 <= i < lens.len(),
        lens[i] > 0,
    ensures
        canonical_code(lens, i) < pow2(lens[i] as nat),
        canonical_code(lens, i) <= 0xffff,
        (canonical_code(lens, i) as u64) >> (lens[i] as u64) == 0,
{
    let l = lens[i] as nat;
    lemma_preceding_next(lens, l, i, lens.len() as int);
    lemma_preceding_later(lens, l, i + 1, 16, 0);
    lemma_pow2_adds((16 - l) as nat, l);
    lemma2_to64();
    lemma_pow2_pos((16 - l) as nat);
    let a = pow2((16 - l) as nat);
    let b = pow2(l);
    let c = canonical_code(lens, i);
    assert(c < b) by (nonlinear_arith)
        requires
            (c + 1) * a <= a * b,
            a > 0,
    ;
    vstd::arithmetic::power2::lemma_pow2_strictly_increases(l, 16);
    vstd::bits::lemma_u64_shr_is_div(c as u64, l as u64);
    vstd::arithmetic::div_mod::lemma_basic_div(c as int, b as int);
}

} // verus!
