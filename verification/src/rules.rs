//! The rules of the formats, in numbers.
//!
//! These say what codes, copies, tables and checksums are in terms of the numbers that they are
//! about. The decoder does not use them: it is held to them by the laws here and in
//! [`encoding`](crate::encoding), [`parsing`](crate::parsing) and [`refusal`](crate::refusal).
use crate::adler::{adler32, adler_update, ADLER_INIT};
use crate::bits::{bit, byte_bits, code_value};
use crate::format::{copied, count_used, valid_distance_code};
use crate::huffman::{
    canonical_code, complete, decode_symbol, lemma_preceding_double, lemma_preceding_later,
    lemma_preceding_next, lemma_preceding_start, lemma_symbol_exists, lemma_symbol_unique,
    preceding, valid_lengths,
};
use crate::tables::{
    fixed_dist_lengths, fixed_litlen_lengths, CLCL_ORDER, DIST_SYM_TO_DIST_BASE,
    DIST_SYM_TO_DIST_EXTRA, LEN_SYM_TO_LEN_BASE, LEN_SYM_TO_LEN_EXTRA,
};
use vstd::arithmetic::div_mod::{
    lemma_add_mod_noop_right, lemma_mod_multiples_vanish, lemma_small_mod,
};
use vstd::arithmetic::power2::{lemma2_to64, lemma_pow2_unfold, pow2};
use vstd::prelude::*;

verus! {

/// The Kraft sum of a list of code lengths, in units of the longest code words: a code word of `l`
/// bits takes up `2^(15 - l)` of the `2^15` sequences of 15 bits.
pub open spec fn kraft_sum(lens: Seq<u8>) -> nat
    decreases lens.len(),
{
    if lens.len() == 0 {
        0
    } else {
        kraft_sum(lens.drop_last()) + if lens.last() > 0 {
            pow2((15 - lens.last()) as nat)
        } else {
            0
        }
    }
}

/// How many of the first `n` symbols have code words of `l` bits.
pub open spec fn count_length(lens: Seq<u8>, l: nat, n: int) -> nat
    decreases n,
{
    if n <= 0 {
        0
    } else {
        count_length(lens, l, n - 1) + if lens[n - 1] == l {
            1nat
        } else {
            0
        }
    }
}

/// The number of the first code word of `l` bits: twice the number after the last code word that is
/// one bit shorter.
pub open spec fn first_code(lens: Seq<u8>, l: nat) -> nat
    decreases l,
{
    if l <= 1 {
        0
    } else {
        2 * (first_code(lens, (l - 1) as nat) + count_length(
            lens,
            (l - 1) as nat,
            lens.len() as int,
        ))
    }
}

/// The number of the code word of symbol `i`: code words of one length are numbered in the order of
/// their symbols.
pub open spec fn code_number(lens: Seq<u8>, i: int) -> nat {
    first_code(lens, lens[i] as nat) + count_length(lens, lens[i] as nat, i)
}

/// No symbol but `k` has a code word.
pub open spec fn only_symbol(lens: Seq<u8>, k: int) -> bool {
    forall|i: int| 0 <= i < lens.len() && i != k ==> #[trigger] lens[i] == 0
}

/// The lengths are those of a distance code: the code words take up all bit sequences, or at most
/// one symbol has a code word.
pub open spec fn distance_lengths(dist: Seq<u8>) -> bool {
    kraft_sum(dist) == 0x8000 || exists|k: int| only_symbol(dist, k)
}

/// The output `out` after `length` more bytes, each of which is the one `distance` bytes before it.
pub open spec fn copied_on(out: Seq<u8>, distance: int, length: nat) -> Seq<u8>
    decreases length,
{
    if length == 0 {
        out
    } else {
        let so_far = copied_on(out, distance, (length - 1) as nat);
        so_far.push(so_far[so_far.len() - distance])
    }
}

/// The sum of the bytes of `data`.
pub open spec fn byte_sum(data: Seq<u8>) -> nat
    decreases data.len(),
{
    if data.len() == 0 {
        0
    } else {
        byte_sum(data.drop_last()) + data.last() as nat
    }
}

/// The sum of the bytes of `data`, each as often as there are bytes from it to the end.
pub open spec fn weighted_sum(data: Seq<u8>) -> nat
    decreases data.len(),
{
    if data.len() == 0 {
        0
    } else {
        weighted_sum(data.drop_last()) + byte_sum(data)
    }
}

proof fn lemma_kraft(lens: Seq<u8>, n: int)
    requires
        valid_lengths(lens),
        0 <= n <= lens.len(),
    ensures
        preceding(lens, 16, 0, n) == 2 * kraft_sum(lens.take(n)),
    decreases n,
{
    if n > 0 {
        lemma_kraft(lens, n - 1);
        assert(lens.take(n).drop_last() =~= lens.take(n - 1));
        let l = lens[n - 1];
        if l > 0 {
            lemma_pow2_unfold((16 - l) as nat);
        }
    }
}

/// A list of code lengths is complete exactly if its Kraft sum is one.
pub proof fn lemma_complete_kraft(lens: Seq<u8>)
    requires
        valid_lengths(lens),
    ensures
        complete(lens) <==> kraft_sum(lens) == 0x8000,
{
    lemma_kraft(lens, lens.len() as int);
    assert(lens.take(lens.len() as int) =~= lens);
}

proof fn lemma_preceding_count(lens: Seq<u8>, len: nat, idx: int)
    requires
        0 < len,
        0 <= idx <= lens.len(),
    ensures
        preceding(lens, len, idx, lens.len() as int) == preceding(lens, len, 0, lens.len() as int)
            + count_length(lens, len, idx),
    decreases idx,
{
    if idx > 0 {
        lemma_preceding_count(lens, len, idx - 1);
        lemma_preceding_next(lens, len, idx - 1, lens.len() as int);
    }
}

proof fn lemma_first_code(lens: Seq<u8>, l: nat)
    requires
        0 < l,
    ensures
        preceding(lens, l, 0, lens.len() as int) == first_code(lens, l),
    decreases l,
{
    let n = lens.len() as int;
    if l == 1 {
        lemma_preceding_start(lens, n);
    } else {
        let m = (l - 1) as nat;
        lemma_first_code(lens, m);
        lemma_preceding_count(lens, m, n);
        lemma_preceding_double(lens, m, n, n);
    }
}

/// The code words that are decoded are those with these numbers.
pub proof fn lemma_code_number(lens: Seq<u8>, i: int)
    requires
        0 <= i < lens.len(),
        lens[i] > 0,
    ensures
        canonical_code(lens, i) == code_number(lens, i),
{
    lemma_first_code(lens, lens[i] as nat);
    lemma_preceding_count(lens, lens[i] as nat, i);
}

proof fn lemma_none_used(dist: Seq<u8>, n: int)
    requires
        0 <= n <= dist.len(),
    ensures
        count_used(dist, n) == 0 <==> forall|i: int| 0 <= i < n ==> #[trigger] dist[i] == 0,
    decreases n,
{
    if n > 0 {
        lemma_none_used(dist, n - 1);
        if count_used(dist, n) == 0 {
            assert forall|i: int| 0 <= i < n implies #[trigger] dist[i] == 0 by {}
        } else if dist[n - 1] == 0 {
            let i = choose|i: int| 0 <= i < n - 1 && #[trigger] dist[i] != 0;
            assert(dist[i] != 0);
        }
    }
}

proof fn lemma_one_used(dist: Seq<u8>, k: int, n: int)
    requires
        0 <= n <= dist.len(),
        only_symbol(dist, k),
    ensures
        count_used(dist, n) <= if 0 <= k < n {
            1int
        } else {
            0
        },
    decreases n,
{
    if n > 0 {
        lemma_one_used(dist, k, n - 1);
    }
}

proof fn lemma_used_symbol(dist: Seq<u8>, n: int) -> (k: int)
    requires
        0 <= n <= dist.len(),
        count_used(dist, n) <= 1,
    ensures
        forall|i: int| 0 <= i < n && i != k ==> #[trigger] dist[i] == 0,
    decreases n,
{
    if n == 0 {
        0
    } else if dist[n - 1] > 0 {
        lemma_none_used(dist, n - 1);
        n - 1
    } else {
        lemma_used_symbol(dist, n - 1)
    }
}

/// A distance code is one with such lengths.
pub proof fn lemma_distance_lengths(dist: Seq<u8>)
    requires
        valid_lengths(dist),
    ensures
        valid_distance_code(dist) <==> distance_lengths(dist),
{
    let n = dist.len() as int;
    lemma_complete_kraft(dist);
    if count_used(dist, n) <= 1 {
        let k = lemma_used_symbol(dist, n);
        assert(only_symbol(dist, k));
    }
    if exists|k: int| only_symbol(dist, k) {
        let k = choose|k: int| only_symbol(dist, k);
        lemma_one_used(dist, k, n);
    }
}

/// What a copy does: the output stays as it is and goes on, and each new byte is the one `distance`
/// bytes before it.
pub proof fn law_copy(out: Seq<u8>, distance: int, length: nat)
    requires
        1 <= distance <= out.len(),
    ensures
        copied_on(out, distance, length).len() == out.len() + length,
        copied_on(out, distance, length).take(out.len() as int) == out,
        forall|k: int|
            out.len() <= k < out.len() + length ==> #[trigger] copied_on(out, distance, length)[k]
                == copied_on(out, distance, length)[k - distance],
        copied_on(out, distance, length) == out + copied(out, distance, length),
    decreases length,
{
    let all = copied_on(out, distance, length);
    if length > 0 {
        let n = (length - 1) as nat;
        law_copy(out, distance, n);
        let so_far = copied_on(out, distance, n);
        assert(all.take(out.len() as int) =~= so_far.take(out.len() as int));
        assert(copied(out, distance, length).take(n as int) =~= copied(out, distance, n));
        if n >= distance {
            lemma_mod_multiples_vanish(1, n - distance, distance);
            assert(distance * 1 + (n - distance) == n as int);
        } else {
            lemma_small_mod(n, distance as nat);
        }
        assert(so_far[so_far.len() - distance] == copied(out, distance, length)[n as int]);
    } else {
        assert(all.take(out.len() as int) =~= out);
    }
    assert(all =~= out + copied(out, distance, length));
}

proof fn lemma_adler_sums(data: Seq<u8>)
    ensures
        ({
            let sum = adler_update(ADLER_INIT, data);
            &&& sum % 0x1_0000 == (1 + byte_sum(data)) % 65521
            &&& sum / 0x1_0000 == (data.len() + weighted_sum(data)) % 65521
        }),
    decreases data.len(),
{
    if data.len() > 0 {
        let before = data.drop_last();
        lemma_adler_sums(before);
        let sum = adler_update(ADLER_INIT, before);
        let a = (1 + byte_sum(before)) as int;
        let b = (before.len() + weighted_sum(before)) as int;
        let x = data.last() as int;
        lemma_add_mod_noop_right(x, a, 65521);
        lemma_add_mod_noop_right(b % 65521, a + x, 65521);
        lemma_add_mod_noop_right(a + x, b, 65521);
        let low = (a + x) % 65521;
        let high = (b + (a + x)) % 65521;
        assert((sum % 0x1_0000 + x) % 65521 == low);
        assert((sum / 0x1_0000 + low) % 65521 == high);
        lemma_halves(low, high);
    }
}

proof fn lemma_halves(low: int, high: int)
    requires
        0 <= low < 0x1_0000,
        0 <= high < 0x1_0000,
    ensures
        (high * 0x1_0000 + low) as u32 == high * 0x1_0000 + low,
        (high * 0x1_0000 + low) % 0x1_0000 == low,
        (high * 0x1_0000 + low) / 0x1_0000 == high,
{
}

/// What an Adler-32 checksum is: the low half is one more than the sum of all bytes, and the high
/// half is the sum of what the low half is after each byte, both modulo 65521.
pub proof fn law_adler(data: Seq<u8>)
    ensures
        adler32(data) == 0x1_0000 * ((data.len() + weighted_sum(data)) % 65521) + (1 + byte_sum(
            data,
        )) % 65521,
{
    lemma_adler_sums(data);
}

/// The lengths that a symbol stands for. From symbol 265 on there are four symbols for each number
/// of extra bits, and each length follows on the one before it; 258 has a symbol of its own.
pub proof fn law_length_symbols(i: int)
    requires
        0 <= i < 29,
    ensures
        LEN_SYM_TO_LEN_EXTRA[i] == if i < 8 || i == 28 {
            0
        } else {
            i / 4 - 1
        },
        LEN_SYM_TO_LEN_BASE[0] == 3,
        LEN_SYM_TO_LEN_BASE[28] == 258,
        i < 27 ==> LEN_SYM_TO_LEN_BASE[i + 1] == LEN_SYM_TO_LEN_BASE[i] + pow2(
            LEN_SYM_TO_LEN_EXTRA[i] as nat,
        ),
{
    lemma2_to64();
}

/// The distances that a symbol stands for. From symbol 4 on there are two symbols for each number
/// of extra bits, and each distance follows on the one before it, up to 32768.
pub proof fn law_distance_symbols(i: int)
    requires
        0 <= i < 30,
    ensures
        DIST_SYM_TO_DIST_EXTRA[i] == if i < 4 {
            0
        } else {
            i / 2 - 1
        },
        DIST_SYM_TO_DIST_BASE[0] == 1,
        i < 29 ==> DIST_SYM_TO_DIST_BASE[i + 1] == DIST_SYM_TO_DIST_BASE[i] + pow2(
            DIST_SYM_TO_DIST_EXTRA[i] as nat,
        ),
        i == 29 ==> DIST_SYM_TO_DIST_BASE[i] + pow2(DIST_SYM_TO_DIST_EXTRA[i] as nat) == 32769,
{
    lemma2_to64();
}

/// The order of the code length code: the repetitions and zero first, then the lengths from the
/// middle outwards.
pub proof fn law_code_length_order(i: int)
    requires
        0 <= i < 8,
    ensures
        CLCL_ORDER@.take(4) == seq![16usize, 17, 18, 0],
        CLCL_ORDER[4 + 2 * i] == 8 + i,
        i < 7 ==> CLCL_ORDER[5 + 2 * i] == 7 - i,
{
}

/// Bytes deliver their bits from the least significant one on.
pub proof fn law_byte_bits(bytes: Seq<u8>, i: int, k: nat)
    requires
        0 <= i < bytes.len(),
        k < 8,
    ensures
        byte_bits(bytes).len() == 8 * bytes.len(),
        byte_bits(bytes)[8 * i + k] == (bytes[i] as nat / pow2(k) % 2 == 1),
{
    let x = bytes[i] as u64;
    vstd::bits::lemma_u64_shr_is_div(x, k as u64);
    let y = x >> (k as u64);
    assert(y & 1 == y % 2) by (bit_vector);
    assert((8 * i + k) / 8 == i && (8 * i + k) % 8 == k);
    assert(byte_bits(bytes)[8 * i + k] == bit(x, k as int));
}

proof fn lemma_count_run(lens: Seq<u8>, l: nat, len: u8, a: int, b: int)
    requires
        0 <= a <= b <= lens.len(),
        forall|i: int| a <= i < b ==> #[trigger] lens[i] == len,
    ensures
        count_length(lens, l, b) == count_length(lens, l, a) + if len == l {
            b - a
        } else {
            0
        },
    decreases b - a,
{
    if a < b {
        lemma_count_run(lens, l, len, a, b - 1);
    }
}

/// How many of the first symbols of the fixed literal/length code have code words of `l` bits.
proof fn lemma_fixed_counts(l: nat, i: int)
    requires
        0 <= i <= 288,
    ensures
        count_length(fixed_litlen_lengths(), l, i) == if l == 7 {
            if i <= 256 {
                0
            } else if i <= 280 {
                i - 256
            } else {
                24
            }
        } else if l == 8 {
            if i <= 144 {
                i
            } else if i <= 280 {
                144
            } else {
                i - 136
            }
        } else if l == 9 {
            if i <= 144 {
                0
            } else if i <= 256 {
                i - 144
            } else {
                112
            }
        } else {
            0
        },
{
    let lens = fixed_litlen_lengths();
    if i <= 144 {
        lemma_count_run(lens, l, 8, 0, i);
    } else {
        lemma_count_run(lens, l, 8, 0, 144);
        if i <= 256 {
            lemma_count_run(lens, l, 9, 144, i);
        } else {
            lemma_count_run(lens, l, 9, 144, 256);
            if i <= 280 {
                lemma_count_run(lens, l, 7, 256, i);
            } else {
                lemma_count_run(lens, l, 7, 256, 280);
                lemma_count_run(lens, l, 8, 280, i);
            }
        }
    }
}

/// The fixed codes: the literals from 0 on are numbered from 00110000 on and those from 144 on from
/// 110010000 on, the symbols from 256 on from 0000000 on and those from 280 on from 11000000 on.
/// Distance symbols are their numbers in five bits.
pub proof fn law_fixed_codes(i: int)
    ensures
        fixed_litlen_lengths().len() == 288,
        fixed_dist_lengths().len() == 32,
        0 <= i < 144 ==> fixed_litlen_lengths()[i] == 8 && code_number(fixed_litlen_lengths(), i)
            == 0b00110000 + i,
        144 <= i < 256 ==> fixed_litlen_lengths()[i] == 9 && code_number(fixed_litlen_lengths(), i)
            == 0b110010000 + (i - 144),
        256 <= i < 280 ==> fixed_litlen_lengths()[i] == 7 && code_number(fixed_litlen_lengths(), i)
            == i - 256,
        280 <= i < 288 ==> fixed_litlen_lengths()[i] == 8 && code_number(fixed_litlen_lengths(), i)
            == 0b11000000 + (i - 280),
        0 <= i < 32 ==> fixed_dist_lengths()[i] == 5 && code_number(fixed_dist_lengths(), i) == i,
{
    let lens = fixed_litlen_lengths();
    let dist = fixed_dist_lengths();
    if 0 <= i < 288 {
        reveal_with_fuel(first_code, 10);
        lemma_fixed_counts(1, 288);
        lemma_fixed_counts(2, 288);
        lemma_fixed_counts(3, 288);
        lemma_fixed_counts(4, 288);
        lemma_fixed_counts(5, 288);
        lemma_fixed_counts(6, 288);
        lemma_fixed_counts(7, 288);
        lemma_fixed_counts(8, 288);
        lemma_fixed_counts(lens[i] as nat, i);
    }
    if 0 <= i < 32 {
        reveal_with_fuel(first_code, 6);
        lemma_count_run(dist, 1, 5, 0, 32);
        lemma_count_run(dist, 2, 5, 0, 32);
        lemma_count_run(dist, 3, 5, 0, 32);
        lemma_count_run(dist, 4, 5, 0, 32);
        lemma_count_run(dist, 5, 5, 0, i);
    }
}

/// Each code word adds to the Kraft sum what it takes up, whatever symbol it is for.
pub proof fn law_kraft_sum(lens: Seq<u8>, i: int, l: u8)
    requires
        0 <= i < lens.len(),
        lens[i] == 0,
        1 <= l <= 15,
    ensures
        kraft_sum(lens.update(i, l)) == kraft_sum(lens) + pow2((15 - l) as nat),
        (forall|k: int| 0 <= k < lens.len() ==> lens[k] == 0) ==> kraft_sum(lens) == 0,
    decreases lens.len(),
{
    let n = lens.len() - 1;
    let with = lens.update(i, l);
    if i < n {
        assert(with.drop_last() =~= lens.drop_last().update(i, l));
        law_kraft_sum(lens.drop_last(), i, l);
    } else {
        assert(with.drop_last() =~= lens.drop_last());
        lemma_kraft_zeros(lens.drop_last());
    }
}

proof fn lemma_kraft_zeros(lens: Seq<u8>)
    ensures
        (forall|k: int| 0 <= k < lens.len() ==> lens[k] == 0) ==> kraft_sum(lens) == 0,
    decreases lens.len(),
{
    if lens.len() > 0 {
        lemma_kraft_zeros(lens.drop_last());
    }
}

/// Code words stand in the order of their lengths, and those of one length in the order of their
/// symbols: where a code word ends, cut to the length of a later one, the later one begins or is
/// still to come. No code word is the beginning of another.
pub proof fn law_code_order(lens: Seq<u8>, i: int, j: int)
    requires
        0 <= i < lens.len(),
        0 <= j < lens.len(),
        0 < lens[i] <= lens[j],
        lens[i] < lens[j] || i < j,
    ensures
        (code_number(lens, i) + 1) * pow2((lens[j] - lens[i]) as nat) <= code_number(lens, j),
{
    lemma_code_number(lens, i);
    lemma_code_number(lens, j);
    lemma_preceding_next(lens, lens[i] as nat, i, lens.len() as int);
    lemma_preceding_later(lens, lens[i] as nat, i + 1, lens[j] as nat, j);
}

/// When the Kraft sum is one, every sequence of 15 bits begins with exactly one code word.
pub proof fn law_complete_code(lens: Seq<u8>, bits: Seq<bool>)
    requires
        forall|i: int| 0 <= i < lens.len() ==> #[trigger] lens[i] <= 15,
        kraft_sum(lens) == 0x8000,
        bits.len() >= 15,
    ensures
        decode_symbol(lens, bits) matches Some(i) && 0 <= i < lens.len() && lens[i] > 0
            && code_value(bits.take(lens[i] as int)) == code_number(lens, i),
        forall|i: int, j: int|
            0 <= i < lens.len() && 0 <= j < lens.len() && lens[i] > 0 && lens[j] > 0 && code_value(
                bits.take(#[trigger] lens[i] as int),
            ) == code_number(lens, i) && code_value(bits.take(#[trigger] lens[j] as int))
                == code_number(lens, j) ==> i == j,
{
    lemma_complete_kraft(lens);
    lemma_symbol_exists(lens, bits);
    lemma_code_number(lens, decode_symbol(lens, bits)->Some_0);
    assert forall|i: int, j: int|
        0 <= i < lens.len() && 0 <= j < lens.len() && lens[i] > 0 && lens[j] > 0 && code_value(
            bits.take(#[trigger] lens[i] as int),
        ) == code_number(lens, i) && code_value(bits.take(#[trigger] lens[j] as int))
            == code_number(lens, j) implies i == j by {
        lemma_code_number(lens, i);
        lemma_code_number(lens, j);
        lemma_symbol_unique(lens, bits, i, j);
    }
}

} // verus!
