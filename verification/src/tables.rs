//! The constant tables of the deflate format.
use crate::huffman::{complete, lemma_preceding_run, preceding, valid_lengths};
use vstd::arithmetic::power2::{lemma2_to64, pow2};
use vstd::prelude::*;

verus! {

/// The order in which a block header lists the lengths of the code length code.
pub const CLCL_ORDER: [usize; 19] = [
    16, 17, 18, 0, 8, 7, 9, 6, 10, 5, 11, 4, 12, 3, 13, 2, 14, 1, 15,
];

/// The number of extra bits of each length symbol, from symbol 257 on.
pub const LEN_SYM_TO_LEN_EXTRA: [u8; 29] = [
    0, 0, 0, 0, 0, 0, 0, 0, 1, 1, 1, 1, 2, 2, 2, 2, 3, 3, 3, 3, 4, 4, 4, 4, 5, 5, 5, 5, 0,
];

/// The smallest length of each length symbol, from symbol 257 on.
pub const LEN_SYM_TO_LEN_BASE: [usize; 29] = [
    3, 4, 5, 6, 7, 8, 9, 10, 11, 13, 15, 17, 19, 23, 27, 31, 35, 43, 51, 59, 67, 83, 99, 115, 131,
    163, 195, 227, 258,
];

/// The number of extra bits of each distance symbol.
pub const DIST_SYM_TO_DIST_EXTRA: [u8; 30] = [
    0, 0, 0, 0, 1, 1, 2, 2, 3, 3, 4, 4, 5, 5, 6, 6, 7, 7, 8, 8, 9, 9, 10, 10, 11, 11, 12, 12, 13,
    13,
];

/// The smallest distance of each distance symbol.
pub const DIST_SYM_TO_DIST_BASE: [u16; 30] = [
    1, 2, 3, 4, 5, 7, 9, 13, 17, 25, 33, 49, 65, 97, 129, 193, 257, 385, 513, 769, 1025, 1537,
    2049, 3073, 4097, 6145, 8193, 12289, 16385, 24577,
];

/// The symbol for each length, from length 3 on.
pub const LENGTH_TO_SYMBOL: [u16; 256] = [
    257, 258, 259, 260, 261, 262, 263, 264, 265, 265, 266, 266, 267, 267, 268, 268, 269, 269, 269,
    269, 270, 270, 270, 270, 271, 271, 271, 271, 272, 272, 272, 272, 273, 273, 273, 273, 273, 273,
    273, 273, 274, 274, 274, 274, 274, 274, 274, 274, 275, 275, 275, 275, 275, 275, 275, 275, 276,
    276, 276, 276, 276, 276, 276, 276, 277, 277, 277, 277, 277, 277, 277, 277, 277, 277, 277, 277,
    277, 277, 277, 277, 278, 278, 278, 278, 278, 278, 278, 278, 278, 278, 278, 278, 278, 278, 278,
    278, 279, 279, 279, 279, 279, 279, 279, 279, 279, 279, 279, 279, 279, 279, 279, 279, 280, 280,
    280, 280, 280, 280, 280, 280, 280, 280, 280, 280, 280, 280, 280, 280, 281, 281, 281, 281, 281,
    281, 281, 281, 281, 281, 281, 281, 281, 281, 281, 281, 281, 281, 281, 281, 281, 281, 281, 281,
    281, 281, 281, 281, 281, 281, 281, 281, 282, 282, 282, 282, 282, 282, 282, 282, 282, 282, 282,
    282, 282, 282, 282, 282, 282, 282, 282, 282, 282, 282, 282, 282, 282, 282, 282, 282, 282, 282,
    282, 282, 283, 283, 283, 283, 283, 283, 283, 283, 283, 283, 283, 283, 283, 283, 283, 283, 283,
    283, 283, 283, 283, 283, 283, 283, 283, 283, 283, 283, 283, 283, 283, 283, 284, 284, 284, 284,
    284, 284, 284, 284, 284, 284, 284, 284, 284, 284, 284, 284, 284, 284, 284, 284, 284, 284, 284,
    284, 284, 284, 284, 284, 284, 284, 284, 285,
];

/// The number of extra bits for each length, from length 3 on.
pub const LENGTH_TO_LEN_EXTRA: [u8; 256] = [
    0, 0, 0, 0, 0, 0, 0, 0, 1, 1, 1, 1, 1, 1, 1, 1, 2, 2, 2, 2, 2, 2, 2, 2, 2, 2, 2, 2, 2, 2, 2,
    2, 3, 3, 3, 3, 3, 3, 3, 3, 3, 3, 3, 3, 3, 3, 3, 3, 3, 3, 3, 3, 3, 3, 3, 3, 3, 3, 3, 3, 3, 3,
    3, 3, 4, 4, 4, 4, 4, 4, 4, 4, 4, 4, 4, 4, 4, 4, 4, 4, 4, 4, 4, 4, 4, 4, 4, 4, 4, 4, 4, 4, 4,
    4, 4, 4, 4, 4, 4, 4, 4, 4, 4, 4, 4, 4, 4, 4, 4, 4, 4, 4, 4, 4, 4, 4, 4, 4, 4, 4, 4, 4, 4, 4,
    4, 4, 4, 4, 5, 5, 5, 5, 5, 5, 5, 5, 5, 5, 5, 5, 5, 5, 5, 5, 5, 5, 5, 5, 5, 5, 5, 5, 5, 5, 5,
    5, 5, 5, 5, 5, 5, 5, 5, 5, 5, 5, 5, 5, 5, 5, 5, 5, 5, 5, 5, 5, 5, 5, 5, 5, 5, 5, 5, 5, 5, 5,
    5, 5, 5, 5, 5, 5, 5, 5, 5, 5, 5, 5, 5, 5, 5, 5, 5, 5, 5, 5, 5, 5, 5, 5, 5, 5, 5, 5, 5, 5, 5,
    5, 5, 5, 5, 5, 5, 5, 5, 5, 5, 5, 5, 5, 5, 5, 5, 5, 5, 5, 5, 5, 5, 5, 5, 5, 5, 5, 5, 5, 5, 5,
    5, 5, 5, 5, 5, 5, 5, 0,
];

/// The literal/length code lengths of a block with fixed codes.
pub open spec fn fixed_litlen_lengths() -> Seq<u8> {
    Seq::new(
        288,
        |i: int|
            if i < 144 {
                8u8
            } else if i < 256 {
                9u8
            } else if i < 280 {
                7u8
            } else {
                8u8
            },
    )
}

/// The distance code lengths of a block with fixed codes.
pub open spec fn fixed_dist_lengths() -> Seq<u8> {
    Seq::new(32, |i: int| 5u8)
}

/// The code lengths of a block with fixed codes, literal/length symbols first.
pub fn fixed_code_lengths() -> (lengths: [u8; 320])
    ensures
        lengths@.take(288) == fixed_litlen_lengths(),
        lengths@.skip(288) == fixed_dist_lengths(),
{
    let mut lengths: [u8; 320] = [8; 320];
    let mut i: usize = 144;
    while i < 320
        invariant
            144 <= i <= 320,
            forall|j: int|
                0 <= j < 320 ==> #[trigger] lengths@[j] == if j >= i || j < 144 {
                    8u8
                } else if j < 256 {
                    9u8
                } else if j < 280 {
                    7u8
                } else if j < 288 {
                    8u8
                } else {
                    5u8
                },
        decreases 320 - i,
    {
        lengths[i] = if i < 256 {
            9
        } else if i < 280 {
            7
        } else if i < 288 {
            8
        } else {
            5
        };
        i = i + 1;
    }
    assert(lengths@.take(288) =~= fixed_litlen_lengths());
    assert(lengths@.skip(288) =~= fixed_dist_lengths());
    lengths
}

/// Both fixed codes are complete.
pub proof fn lemma_fixed_complete()
    ensures
        complete(fixed_litlen_lengths()),
        valid_lengths(fixed_litlen_lengths()),
        complete(fixed_dist_lengths()),
        valid_lengths(fixed_dist_lengths()),
{
    lemma2_to64();
    let l = fixed_litlen_lengths();
    lemma_preceding_run(l, 8, 0, 144);
    lemma_preceding_run(l, 9, 144, 256);
    lemma_preceding_run(l, 7, 256, 280);
    lemma_preceding_run(l, 8, 280, 288);
    lemma_preceding_run(fixed_dist_lengths(), 5, 0, 32);
    assert(preceding(l, 16, 0, 0) == 0);
}

/// A length symbol has at most five extra bits and stands for lengths from 3 to 258.
pub proof fn lemma_length_symbol(i: int)
    requires
        0 <= i < 29,
    ensures
        LEN_SYM_TO_LEN_EXTRA[i] <= 5,
        3 <= LEN_SYM_TO_LEN_BASE[i] <= 258,
        LEN_SYM_TO_LEN_EXTRA[i] == 0 || LEN_SYM_TO_LEN_BASE[i] <= 227,
{
}

/// A distance symbol has at most 13 extra bits and stands for distances from 1 to 32768.
pub proof fn lemma_distance_symbol(i: int)
    requires
        0 <= i < 30,
    ensures
        DIST_SYM_TO_DIST_EXTRA[i] <= 13,
        1 <= DIST_SYM_TO_DIST_BASE[i] <= 24577,
{
}

/// The two ways of looking up lengths agree: each symbol and extra bits are found again from the
/// length that they stand for. The one exception is 258 as the last of the lengths from 227 on,
/// because 258 has a symbol of its own.
pub proof fn law_length_tables(i: int, j: int)
    requires
        0 <= i < 29,
        0 <= j < pow2(LEN_SYM_TO_LEN_EXTRA[i] as nat),
        !(i == 27 && j == 31),
    ensures
        LENGTH_TO_LEN_EXTRA[LEN_SYM_TO_LEN_BASE[i] + j - 3] == LEN_SYM_TO_LEN_EXTRA[i],
        LENGTH_TO_SYMBOL[LEN_SYM_TO_LEN_BASE[i] + j - 3] == i + 257,
{
    lemma2_to64();
}

/// Each length has a symbol and extra bits that stand for it.
pub proof fn law_length_found(length: int)
    requires
        3 <= length <= 258,
    ensures
        ({
            let i = LENGTH_TO_SYMBOL[length - 3] - 257;
            &&& 0 <= i < 29
            &&& LENGTH_TO_LEN_EXTRA[length - 3] == LEN_SYM_TO_LEN_EXTRA[i]
            &&& LEN_SYM_TO_LEN_BASE[i] <= length < LEN_SYM_TO_LEN_BASE[i] + pow2(
                LEN_SYM_TO_LEN_EXTRA[i] as nat,
            )
        }),
{
    lemma2_to64();
}

} // verus!
