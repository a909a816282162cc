//! The lookup table for the code that the code lengths of a block are written in.
use crate::bits::low_bits;
use crate::huffman::{
    codes_match, complete, decode_symbol, lemma_decode_symbol, lemma_symbol_exists, symbol_at,
    valid_lengths,
};
use crate::litlen_table::{ends_with, lemma_stride_next, lemma_stride_start, lemma_window_symbol};
use vstd::prelude::*;

verus! {

/// The lengths of a code length code: 19 symbols, code words of up to seven bits.
pub open spec fn valid_clcl(clcl: Seq<u8>) -> bool {
    &&& clcl.len() == 19
    &&& forall|i: int| 0 <= i < 19 ==> #[trigger] clcl[i] <= 7
}

/// The entry for the seven bits of `j`: the low three bits are the length of the code word that
/// they begin with, the high five bits are its symbol.
pub open spec fn clcl_entry(clcl: Seq<u8>, j: int, entry: u8) -> bool {
    &&& symbol_at(clcl, low_bits(j as u64, 7), (entry >> 3) as int)
    &&& clcl[(entry >> 3) as int] == entry & 7
}

/// Every entry is right for the code with lengths `clcl`.
pub open spec fn clcl_table_matches(clcl: Seq<u8>, table: Seq<u8>) -> bool {
    forall|j: int| 0 <= j < 128 ==> clcl_entry(clcl, j, #[trigger] table[j])
}

/// Some symbol has each of the seven bit patterns.
proof fn lemma_clcl_exists(clcl: Seq<u8>, j: int)
    requires
        valid_clcl(clcl),
        complete(clcl),
        0 <= j < 128,
    ensures
        decode_symbol(clcl, low_bits(j as u64, 7)) is Some,
{
    let w = low_bits(j as u64, 15);
    assert(valid_lengths(clcl));
    lemma_symbol_exists(clcl, w);
    let i = decode_symbol(clcl, w)->0;
    assert(w.take(clcl[i] as int) =~= low_bits(j as u64, 7).take(clcl[i] as int));
    lemma_decode_symbol(clcl, low_bits(j as u64, 7), i);
}

/// Builds the table for the given code.
pub fn build_clcl_table(lengths: &[u8; 19], codes: &[u16]) -> (table: [u8; 128])
    requires
        valid_clcl(lengths@),
        complete(lengths@),
        codes_match(lengths@, codes@),
    ensures
        clcl_table_matches(lengths@, table@),
{
    let ghost clcl = lengths@;
    let mut table: [u8; 128] = [255; 128];
    let mut i: usize = 0;
    while i < 19
        invariant
            i <= 19,
            clcl == lengths@,
            valid_clcl(clcl),
            codes_match(clcl, codes@),
            forall|j: int|
                0 <= j < 128 && (decode_symbol(clcl, low_bits(j as u64, 7)) matches Some(s) && s
                    < i) ==> clcl_entry(clcl, j, #[trigger] table@[j]),
        decreases 19 - i,
    {
        let length: u8 = lengths[i];
        if length > 0 {
            let code: u64 = codes[i] as u64;
            let step: u64 = 1u64 << length;
            let entry: u8 = ((i as u8) << 3) | length;
            let mut j: u64 = code;
            let ghost before = table@;
            proof {
                lemma_stride_start(length, code);
                let a = i as u8;
                assert(entry >> 3 == a && entry & 7 == length) by (bit_vector)
                    requires
                        entry == (a << 3) | length,
                        a < 19,
                        length <= 7,
                ;
            }
            while j < 128
                invariant
                    i < 19,
                    1 <= length <= 7,
                    ends_with(j as int, length, code),
                    step == 1u64 << (length as u64),
                    1 < step <= 4096,
                    j <= 8192,
                    before.len() == 128,
                    forall|k: int|
                        0 <= k < 128 ==> #[trigger] table@[k] == if k < j && ends_with(
                            k,
                            length,
                            code,
                        ) {
                            entry
                        } else {
                            before[k]
                        },
                decreases 8192 - j,
            {
                table[j as usize] = entry;
                proof {
                    lemma_stride_next(j, length, code);
                }
                j = j + step;
            }
            assert forall|j: int|
                0 <= j < 128 && (decode_symbol(clcl, low_bits(j as u64, 7)) matches Some(s) && s < i
                    + 1) implies clcl_entry(clcl, j, #[trigger] table@[j]) by {
                let w = low_bits(j as u64, 7);
                let s = decode_symbol(clcl, w)->0;
                assert(symbol_at(clcl, w, s));
                lemma_window_symbol(clcl, codes@[i as int], j as u64, 7, i as int);
                if symbol_at(clcl, w, i as int) {
                    lemma_decode_symbol(clcl, w, i as int);
                } else {
                    assert(clcl_entry(clcl, j, before[j]));
                }
            }
        } else {
            assert forall|j: int|
                0 <= j < 128 && (decode_symbol(clcl, low_bits(j as u64, 7)) matches Some(s) && s < i
                    + 1) implies clcl_entry(clcl, j, #[trigger] table@[j]) by {
                let w = low_bits(j as u64, 7);
                let s = decode_symbol(clcl, w)->0;
                assert(symbol_at(clcl, w, s));
            }
        }
        i = i + 1;
    }
    assert forall|j: int| 0 <= j < 128 implies clcl_entry(clcl, j, #[trigger] table@[j]) by {
        lemma_clcl_exists(clcl, j);
        let s = decode_symbol(clcl, low_bits(j as u64, 7))->0;
        assert(symbol_at(clcl, low_bits(j as u64, 7), s));
    }
    table
}

} // verus!
