//! The lookup tables for the literal/length code of a block.
use crate::bits::{
    code_value, lemma_code_value_injective, lemma_low_bits_injective, lemma_mask_bits,
    lemma_shr_bits, low_bits,
};
use crate::huffman::{
    canonical_code, code_matches, codes_match, complete, decode_symbol, lemma_decode_symbol,
    lemma_symbol_bits, lemma_symbol_extend, lemma_symbol_unique, symbol_at, valid_lengths,
};
use crate::long_codes::{count_long, lemma_few_long};
use crate::reading::{lookup, zero_between, zero_count, zero_length, zeros};
use vstd::prelude::*;

verus! {

/// The tables for the literal/length code of a block.
///
/// The main table is `advance_table`, which maps 12 bits of literal/length symbols to their
/// meaning. Each entry is packed into a u16 using the following encoding:
///
///   000y_yyyy_yyyy_xxxx     x = input_advance_bits, y = output_advance_bytes  (x!=0)
///   000y_yyyy_xxxx_0000     x = input_advance_bits, y = symbol-256
///   1xxx_xxxx_xxxx_0000     x = secondary table index
///   1111_1111_1111_0000     invalid code
///
/// The output bytes are the two of `data_table` and, when there are more, zeros.
///
/// If it takes more than 12 bits to determine the meaning of the symbol, then the advance table
/// holds an index into the `secondary_table` which is added to the subsequent 3 bits from the
/// input stream. The secondary table uses the following encoding:
///
///   000y_yyyy_yyyy_xxxx     x = input_advance_bits, y = symbol
///   1111_1111_1111_1111     invalid code
pub struct LitLenTable {
    pub data_table: [[u8; 2]; 4096],
    pub advance_table: [u16; 4096],
    pub secondary_table: Vec<u16>,
}

/// What the next bits of the stream stand for.
pub enum Lookup {
    /// A run of `count` literals in `bits` bits: those of `data` and, when there are more, zeros.
    Literals { data: [u8; 2], count: usize, bits: u8 },
    /// A symbol in `bits` bits.
    Symbol { symbol: usize, bits: u8 },
    /// Nothing.
    Invalid,
}

/// The entry of the advance table for a code that no symbol has.
pub const INVALID_CODE: u16 = 0xfff0;

/// The entry of the secondary table for a code that no symbol has.
pub const INVALID_LONG_CODE: u16 = 0xffff;

/// `bits` begins with the code words of the literals `bytes`, which take `n` bits.
pub open spec fn literal_run(lens: Seq<u8>, bits: Seq<bool>, bytes: Seq<u8>, n: int) -> bool
    decreases bytes.len(),
{
    if bytes.len() == 0 {
        n == 0
    } else {
        let l = lens[bytes[0] as int] as int;
        &&& symbol_at(lens, bits, bytes[0] as int)
        &&& literal_run(lens, bits.skip(l), bytes.drop_first(), n - l)
    }
}

/// The output bytes of an entry for `n` literals.
pub open spec fn run_bytes(data: Seq<u8>, n: nat) -> Seq<u8> {
    Seq::new(
        n,
        |i: int|
            if i < 2 {
                data[i]
            } else {
                0u8
            },
    )
}

/// An entry for a run of literals.
pub open spec fn literal_entry(lens: Seq<u8>, bits: Seq<bool>, data: Seq<u8>, adv: u16) -> bool {
    let n = adv & 0xf;
    let count = adv >> 4;
    &&& 0 < n <= 12
    &&& 1 <= count <= 13
    &&& count == 1 ==> data[1] == 0
    &&& literal_run(lens, bits, run_bytes(data, count as nat), n as int)
}

/// `bits` begins with the code words of the literals `i` and `k`.
pub open spec fn pair_at(lens: Seq<u8>, bits: Seq<bool>, i: int, k: int) -> bool {
    &&& symbol_at(lens, bits, i)
    &&& symbol_at(lens, bits.skip(lens[i] as int), k)
}

/// The entry for the 12 bits of `j` when they begin with the literals `i` and `k`: these two, and
/// all literals zero that come after them, when the code word of the literal zero is `zero_len`
/// zero bits.
pub open spec fn pair_entry(
    lens: Seq<u8>,
    j: int,
    i: int,
    k: int,
    zero_len: int,
    data: Seq<u8>,
    adv: u16,
) -> bool {
    let n = lens[i] + lens[k];
    let extra = zero_count(low_bits(j as u64, 12), n, zero_len);
    &&& data =~= seq![i as u8, k as u8]
    &&& adv >> 4 == extra + 2
    &&& adv & 0xf == n + extra * zero_len
}

/// The entry for the 12 bits of `j` when they begin with the literal `i` and no second one is
/// entered: this one, and all literals zero that come after it.
pub open spec fn single_entry(
    lens: Seq<u8>,
    j: int,
    i: int,
    zero_len: int,
    data: Seq<u8>,
    adv: u16,
) -> bool {
    let n = lens[i] as int;
    let extra = zero_count(low_bits(j as u64, 12), n, zero_len);
    &&& data =~= seq![i as u8, 0u8]
    &&& adv >> 4 == extra + 1
    &&& adv & 0xf == n + extra * zero_len
}

/// The entry for the 12 bits of `j` holds all literals that a lookup of them yields.
pub open spec fn run_entry(lens: Seq<u8>, j: int, data: Seq<u8>, adv: u16) -> bool {
    lookup(lens, low_bits(j as u64, 12)) matches Some((run, n)) ==> {
        &&& adv >> 4 == run.len()
        &&& adv & 0xf == n
        &&& run_bytes(data, run.len()) == run
    }
}

/// The entry for the 12 bits of `j`, which begin with the literal `i`, when those with a second
/// literal below `k` have been entered.
pub open spec fn row_entry(
    lens: Seq<u8>,
    j: int,
    i: int,
    k: int,
    data: Seq<u8>,
    adv: u16,
) -> bool {
    match decode_symbol(lens, low_bits(j as u64, 12).skip(lens[i] as int)) {
        Some(second) if second < k => pair_entry(
            lens,
            j,
            i,
            second,
            zero_length(lens),
            data,
            adv,
        ),
        _ => single_entry(lens, j, i, zero_length(lens), data, adv),
    }
}

/// An entry for another symbol.
pub open spec fn symbol_entry(lens: Seq<u8>, bits: Seq<bool>, adv: u16) -> bool {
    let symbol = 256 + (adv >> 8);
    &&& adv & 0xf == 0
    &&& adv & 0x8000 == 0
    &&& symbol_at(lens, bits, symbol)
    &&& lens[symbol] == (adv >> 4) & 0xf
}

/// An entry of the secondary table for the 15 bits of `x`, as far as the symbols below `upto` go.
pub open spec fn secondary_entry(lens: Seq<u8>, x: u64, entry: u16, upto: int) -> bool {
    match decode_symbol(lens, low_bits(x, 15)) {
        Some(symbol) if symbol < upto => entry != INVALID_LONG_CODE && entry >> 4 == symbol && entry
            & 0xf == lens[symbol],
        _ => entry == INVALID_LONG_CODE,
    }
}

/// The index into the secondary table that an entry holds.
pub open spec fn index_of(adv: u16) -> int {
    ((adv & 0x7ff0) >> 4) as int
}

/// An entry holds an index into the secondary table.
pub open spec fn is_index(adv: u16) -> bool {
    adv & 0xf == 0 && adv & 0x8000 != 0 && adv != INVALID_CODE
}

/// How many of the first `n` entries hold an index into the secondary table.
pub open spec fn count_indexes(advance: Seq<u16>, n: int) -> nat
    decreases n,
{
    if n <= 0 {
        0
    } else {
        count_indexes(advance, n - 1) + if is_index(advance[n - 1]) {
            1nat
        } else {
            0
        }
    }
}

/// An entry for the beginnings of longer code words, as far as the symbols below `upto` go.
pub open spec fn long_entry(
    lens: Seq<u8>,
    j: int,
    adv: u16,
    secondary: Seq<u16>,
    upto: int,
) -> bool {
    if adv == INVALID_CODE {
        forall|s: int|
            0 <= s < 8 ==> match #[trigger] decode_symbol(
                lens,
                low_bits((j + 4096 * s) as u64, 15),
            ) {
                Some(symbol) => symbol >= upto,
                None => true,
            }
    } else {
        &&& adv & 0xf == 0
        &&& adv & 0x8000 != 0
        &&& index_of(adv) % 8 == 0
        &&& index_of(adv) + 8 <= secondary.len()
        &&& forall|s: int|
            0 <= s < 8 ==> secondary_entry(
                lens,
                (j + 4096 * s) as u64,
                #[trigger] secondary[index_of(adv) + s],
                upto,
            )
    }
}

/// The entry for the 12 bits of `j`, as far as the code words with more than 12 bits of the
/// symbols below `upto` go.
pub open spec fn table_entry(
    lens: Seq<u8>,
    j: int,
    data: Seq<u8>,
    adv: u16,
    secondary: Seq<u16>,
    upto: int,
) -> bool {
    match decode_symbol(lens, low_bits(j as u64, 12)) {
        Some(_) => literal_entry(lens, low_bits(j as u64, 12), data, adv) || symbol_entry(
            lens,
            low_bits(j as u64, 12),
            adv,
        ),
        None => long_entry(lens, j, adv, secondary, upto),
    }
}

/// The entry for the 12 bits of `j` when the code words of the symbols below `upto` with up to 12
/// bits have been entered.
pub open spec fn partial_entry(lens: Seq<u8>, j: int, data: Seq<u8>, adv: u16, upto: int) -> bool {
    match decode_symbol(lens, low_bits(j as u64, 12)) {
        Some(symbol) if symbol < upto => literal_entry(lens, low_bits(j as u64, 12), data, adv)
            || symbol_entry(lens, low_bits(j as u64, 12), adv),
        _ => adv == INVALID_CODE,
    }
}

/// The mask for the `n` low bits.
pub open spec fn mask(n: u8) -> u64 {
    ((1u64 << (n as u64)) - 1) as u64
}

/// Whether the bits of a number begin with the code word of a symbol, in terms of numbers.
pub proof fn lemma_window_symbol(lens: Seq<u8>, code: u16, x: u64, n: nat, i: int)
    requires
        code_matches(lens, i, code),
        0 <= i < lens.len(),
        0 < lens[i] <= n,
        n < 64,
    ensures
        symbol_at(lens, low_bits(x, n), i) <==> x & mask(lens[i]) == code,
{
    let l = lens[i] as nat;
    lemma_symbol_bits(lens, code, low_bits(x, n), i);
    lemma_mask_bits(x, l);
    assert(low_bits(x, n).take(l as int) =~= low_bits(x, l));
    if low_bits(x, l) == low_bits(code as u64, l) {
        lemma_low_bits_injective(x & mask(lens[i]), code as u64, l);
    }
}

/// The `len` low bits of `k` are those of `code`.
pub open spec fn ends_with(k: int, len: u8, code: u64) -> bool {
    (k as u64) & mask(len) == code
}

/// The smallest number whose low bits are a code word is the code word itself.
pub proof fn lemma_stride_start(len: u8, code: u64)
    requires
        1 <= len <= 12,
        code >> (len as u64) == 0,
    ensures
        ends_with(code as int, len, code),
        forall|k: int| 0 <= k < code ==> !#[trigger] ends_with(k, len, code),
        1 < (1u64 << (len as u64)) <= 4096,
        code < (1u64 << (len as u64)),
{
    let n = len as u64;
    let m = 1u64 << n;
    assert(1 < m <= 4096 && code < m && code & ((m - 1) as u64) == code) by (bit_vector)
        requires
            m == 1u64 << n,
            1 <= n <= 12,
            code >> n == 0,
    ;
    assert forall|k: int| 0 <= k < code implies !#[trigger] ends_with(k, len, code) by {
        let x = k as u64;
        assert(x & ((m - 1) as u64) != code) by (bit_vector)
            requires
                m == 1u64 << n,
                1 <= n <= 12,
                x < code,
                code < m,
        ;
    }
}

/// From each number whose low bits are a code word to the next the distance is the same.
pub proof fn lemma_stride_next(j: u64, len: u8, code: u64)
    requires
        1 <= len <= 12,
        j < 4096,
        ends_with(j as int, len, code),
        1 < (1u64 << (len as u64)) <= 4096,
    ensures
        ends_with(j + (1u64 << (len as u64)), len, code),
        forall|k: int|
            j < k < j + (1u64 << (len as u64)) ==> !#[trigger] ends_with(k, len, code),
{
    let n = len as u64;
    let m = 1u64 << n;
    let next = (j + m) as u64;
    assert(next & ((m - 1) as u64) == code) by (bit_vector)
        requires
            m == 1u64 << n,
            1 <= n <= 12,
            j < 4096,
            next == j + m,
            j & ((m - 1) as u64) == code,
    ;
    assert forall|k: int| j < k < j + m implies !#[trigger] ends_with(k, len, code) by {
        let x = k as u64;
        assert(x & ((m - 1) as u64) != code) by (bit_vector)
            requires
                m == 1u64 << n,
                1 <= n <= 12,
                j < 4096,
                j < x,
                x < j + m,
                j & ((m - 1) as u64) == code,
        ;
    }
}

/// More bits at the end do not change a run of literals.
pub proof fn lemma_run_extend(
    lens: Seq<u8>,
    bits: Seq<bool>,
    more: Seq<bool>,
    bytes: Seq<u8>,
    n: int,
)
    requires
        literal_run(lens, bits, bytes, n),
    ensures
        literal_run(lens, bits + more, bytes, n),
    decreases bytes.len(),
{
    if bytes.len() > 0 {
        let l = lens[bytes[0] as int] as int;
        lemma_symbol_extend(lens, bits, more, bytes[0] as int);
        lemma_run_extend(lens, bits.skip(l), more, bytes.drop_first(), n - l);
        assert((bits + more).skip(l) =~= bits.skip(l) + more);
    }
}

pub proof fn lemma_code_value_zero(bits: Seq<bool>)
    requires
        forall|i: int| 0 <= i < bits.len() ==> !bits[i],
    ensures
        code_value(bits) == 0,
    decreases bits.len(),
{
    if bits.len() > 0 {
        lemma_code_value_zero(bits.drop_last());
    }
}

/// Zero bits are a run of the literal zero, if its code word has only zero bits.
proof fn lemma_zero_run(lens: Seq<u8>, bits: Seq<bool>, e: nat)
    requires
        lens.len() > 0,
        lens[0] > 0,
        canonical_code(lens, 0) == 0,
        e * lens[0] <= bits.len(),
        forall|i: int| 0 <= i < e * lens[0] ==> !bits[i],
    ensures
        literal_run(lens, bits, zeros(e), e * lens[0]),
    decreases e,
{
    if e > 0 {
        let l = lens[0] as int;
        let d = (e - 1) as nat;
        assert(e * l == d * l + l) by (nonlinear_arith)
            requires
                e == d + 1,
        ;
        assert(d * l >= 0) by (nonlinear_arith)
            requires
                l > 0,
                d >= 0,
        ;
        lemma_code_value_zero(bits.take(l));
        assert(symbol_at(lens, bits, 0));
        assert forall|i: int| 0 <= i < d * l implies !bits.skip(l)[i] by {
            assert(bits.skip(l)[i] == bits[i + l]);
        }
        lemma_zero_run(lens, bits.skip(l), d);
        assert(zeros(e).drop_first() =~= zeros(d));
    } else {
        assert(e * lens[0] == 0) by (nonlinear_arith)
            requires
                e == 0,
        ;
    }
}

/// There are as many as fit in the zero bits.
proof fn lemma_zero_count(bits: Seq<bool>, start: int, zero_len: int, e: nat)
    requires
        1 <= zero_len,
        start + e * zero_len <= bits.len(),
        zero_between(bits, start, start + e * zero_len),
        start + (e + 1) * zero_len > bits.len() || !zero_between(
            bits,
            start,
            start + (e + 1) * zero_len,
        ),
    ensures
        zero_count(bits, start, zero_len) == e,
    decreases e,
{
    if e == 0 {
        assert((e + 1) * zero_len == zero_len) by (nonlinear_arith)
            requires
                e == 0,
        ;
    } else {
        let d = (e - 1) as nat;
        assert(e * zero_len == d * zero_len + zero_len && (e + 1) * zero_len == (d + 1) * zero_len
            + zero_len && d * zero_len >= 0) by (nonlinear_arith)
            requires
                e == d + 1,
                zero_len >= 1,
                d >= 0,
        ;
        lemma_zero_count(bits, start + zero_len, zero_len, d);
    }
}

/// How often the code word of the literal zero, `zero_len` zero bits, comes after the first `len`
/// of the 12 bits of `j`.
fn count_zeros(j: u64, len: u8, zero_len: u8) -> (e: u8)
    requires
        j < 4096,
        1 <= len <= 12,
        1 <= zero_len,
    ensures
        e == zero_count(low_bits(j, 12), len as int, zero_len as int),
        len + e * zero_len <= 12,
        e <= 11,
        zero_between(low_bits(j, 12), len as int, len + e * zero_len),
{
    let t: u16 = ((j as u16) | 0xf000) >> len;
    let z: u8 = t.trailing_zeros() as u8;
    let e: u8 = z / zero_len;
    proof {
        vstd::std_specs::bits::axiom_u16_trailing_zeros(t);
        let j16 = j as u16;
        let l = len as u16;
        let top = (12 - len) as u16;
        assert((t >> top) & 1 == 1) by (bit_vector)
            requires
                t == (j16 | 0xf000) >> l,
                top == 12 - l,
                1 <= l <= 12,
        ;
        assert(z <= 12 - len);
        assert(e * zero_len <= z && e <= z) by (nonlinear_arith)
            requires
                e == z / zero_len,
                zero_len >= 1,
        ;
        let w = low_bits(j, 12);
        assert forall|k: int| len <= k < len + e * zero_len implies !#[trigger] w[k] by {
            let d = (k - len) as u16;
            let kk = k as u64;
            assert((t >> d) & 1 == 0);
            assert((j >> kk) & 1 != 1) by (bit_vector)
                requires
                    (t >> d) & 1 == 0,
                    t == (j16 | 0xf000) >> l,
                    j16 == j as u16,
                    j < 4096,
                    kk == d + l,
                    kk < 12,
                    1 <= l <= 12,
                    d < 12,
            ;
        }
        assert((e + 1) * zero_len > z) by (nonlinear_arith)
            requires
                e == z / zero_len,
                zero_len >= 1,
        ;
        if len + (e + 1) * zero_len <= 12 {
            // The zeros end with a bit that is set.
            let d = z as u16;
            let kk = (len + z) as u64;
            assert((t >> d) & 1 == 1);
            assert((j >> kk) & 1 == 1) by (bit_vector)
                requires
                    (t >> d) & 1 == 1,
                    t == (j16 | 0xf000) >> l,
                    j16 == j as u16,
                    j < 4096,
                    kk == d + l,
                    kk < 12,
                    1 <= l <= 12,
                    d < 12,
            ;
            assert(w[len + z]);
        }
        lemma_zero_count(w, len as int, zero_len as int, e as nat);
    }
    e
}

/// The encoding of an entry for a run of literals.
proof fn lemma_pack_literal(count: u16, n: u16)
    requires
        count < 4096,
        n < 16,
    ensures
        ((count << 4) | n) & 0xf == n,
        ((count << 4) | n) >> 4 == count,
        count < 4095 ==> (count << 4) | n != INVALID_LONG_CODE,
{
    assert(((count << 4) | n) & 0xf == n && ((count << 4) | n) >> 4 == count && (count < 4095 ==> (
    count << 4) | n != 0xffff)) by (bit_vector)
        requires
            count < 4096,
            n < 16,
    ;
}

impl LitLenTable {
    /// Every entry is right for the code with lengths `lens`, and holds as many literals as it can.
    pub open spec fn matches(&self, lens: Seq<u8>) -> bool {
        &&& forall|j: int|
            0 <= j < 4096 ==> table_entry(
                lens,
                j,
                #[trigger] self.data_table@[j]@,
                self.advance_table@[j],
                self.secondary_table@,
                288,
            )
        &&& self.runs_below(lens, 256)
    }

    /// The entries that begin with a literal below `upto` hold all literals that they can.
    pub open spec fn runs_below(&self, lens: Seq<u8>, upto: int) -> bool {
        forall|j: int|
            0 <= j < 4096 && (decode_symbol(lens, low_bits(j as u64, 12)) matches Some(i) && i
                < upto) ==> run_entry(
                lens,
                j,
                #[trigger] self.data_table@[j]@,
                self.advance_table@[j],
            )
    }

    /// The entries that begin with the literal `i` hold it and a second literal below `k`, and the
    /// literals zero after them.
    pub open spec fn row_below(&self, lens: Seq<u8>, i: int, k: int) -> bool {
        forall|j: int|
            0 <= j < 4096 && decode_symbol(lens, low_bits(j as u64, 12)) == Some(i) ==> row_entry(
                lens,
                j,
                i,
                k,
                #[trigger] self.data_table@[j]@,
                self.advance_table@[j],
            )
    }

    /// The code words with up to 12 bits of all symbols below `upto` have been entered.
    pub open spec fn matches_below(&self, lens: Seq<u8>, upto: int) -> bool {
        forall|j: int|
            0 <= j < 4096 ==> partial_entry(
                lens,
                j,
                #[trigger] self.data_table@[j]@,
                self.advance_table@[j],
                upto,
            )
    }

    /// Enters the literal `i`, together with the literals zero that come after it.
    #[verifier::spinoff_prover]
    #[verifier::rlimit(40)]
    fn fill_literal(&mut self, lengths: &[u8], codes: &[u16], i: usize, zero_len: u8)
        requires
            lengths@.len() == 288,
            codes_match(lengths@, codes@),
            i < 256,
            1 <= lengths@[i as int] <= 12,
            zero_len == 0 || (zero_len == lengths@[0] && canonical_code(lengths@, 0) == 0),
            old(self).matches_below(lengths@, i as int),
        ensures
            final(self).matches_below(lengths@, i + 1),
            final(self).secondary_table == old(self).secondary_table,
            forall|m: int|
                0 <= m < 4096 ==> if symbol_at(lengths@, low_bits(m as u64, 12), i as int) {
                    single_entry(
                        lengths@,
                        m,
                        i as int,
                        zero_len as int,
                        (#[trigger] final(self).data_table@[m])@,
                        final(self).advance_table@[m],
                    )
                } else {
                    &&& final(self).data_table@[m] == old(self).data_table@[m]
                    &&& final(self).advance_table@[m] == old(self).advance_table@[m]
                },
    {
        let ghost lens = lengths@;
        let len: u8 = lengths[i];
        let code: u64 = codes[i] as u64;
        let step: u64 = 1u64 << len;
        let mut j: u64 = code;
        proof {
            lemma_stride_start(len, code);
        }
        while j < 4096
            invariant
                lens == lengths@,
                lens.len() == 288,
                codes_match(lens, codes@),
                i < 256,
                len == lens[i as int],
                1 <= len <= 12,
                code == codes@[i as int],
                step == 1u64 << (len as u64),
                1 < step <= 4096,
                zero_len == 0 || (zero_len == lens[0] && canonical_code(lens, 0) == 0),
                ends_with(j as int, len, code),
                j <= 8192,
                self.secondary_table == old(self).secondary_table,
                old(self).matches_below(lens, i as int),
                forall|k: int|
                    0 <= k < 4096 ==> if k < j && ends_with(k, len, code) {
                        &&& literal_entry(
                            lens,
                            low_bits(k as u64, 12),
                            (#[trigger] self.data_table@[k])@,
                            self.advance_table@[k],
                        )
                        &&& single_entry(
                            lens,
                            k,
                            i as int,
                            zero_len as int,
                            self.data_table@[k]@,
                            self.advance_table@[k],
                        )
                    } else {
                        &&& self.data_table@[k] == old(self).data_table@[k]
                        &&& self.advance_table@[k] == old(self).advance_table@[k]
                    },
            decreases 8192 - j,
        {
            let extra: u8 = if zero_len > 0 {
                count_zeros(j, len, zero_len)
            } else {
                0
            };
            proof {
                assert(0 * zero_len == 0);
                assert(extra * zero_len <= 11);
                assert(extra as u16 + 1 < 4096);
            }
            let n: u8 = len + extra * zero_len;
            let count: u16 = extra as u16 + 1;
            let ghost w = low_bits(j, 12);
            let ghost prev = *self;
            self.data_table[j as usize] = [i as u8, 0];
            self.advance_table[j as usize] = (count << 4) | n as u16;
            proof {
                lemma_pack_literal(count, n as u16);
                lemma_window_symbol(lens, codes@[i as int], j, 12, i as int);
                let data = self.data_table@[j as int]@;
                let bytes = run_bytes(data, count as nat);
                assert(bytes[0] == i);
                assert(bytes.drop_first() =~= zeros(extra as nat));
                if extra > 0 {
                    assert forall|k: int| 0 <= k < extra * zero_len implies !w.skip(len as int)[k] by {
                        assert(w.skip(len as int)[k] == w[k + len]);
                    }
                    lemma_zero_run(lens, w.skip(len as int), extra as nat);
                } else {
                    assert(literal_run(lens, w.skip(len as int), bytes.drop_first(), 0));
                }
                assert(literal_run(lens, w, bytes, n as int));
                assert(literal_entry(lens, w, data, self.advance_table@[j as int]));
                assert(single_entry(
                    lens,
                    j as int,
                    i as int,
                    zero_len as int,
                    data,
                    self.advance_table@[j as int],
                ));
                lemma_stride_next(j, len, code);
                assert forall|k: int| 0 <= k < 4096 implies if k < j + step && ends_with(
                    k,
                    len,
                    code,
                ) {
                    &&& literal_entry(
                        lens,
                        low_bits(k as u64, 12),
                        (#[trigger] self.data_table@[k])@,
                        self.advance_table@[k],
                    )
                    &&& single_entry(
                        lens,
                        k,
                        i as int,
                        zero_len as int,
                        self.data_table@[k]@,
                        self.advance_table@[k],
                    )
                } else {
                    &&& self.data_table@[k] == old(self).data_table@[k]
                    &&& self.advance_table@[k] == old(self).advance_table@[k]
                } by {
                    if k != j {
                        assert(self.data_table@[k] == prev.data_table@[k]);
                        assert(self.advance_table@[k] == prev.advance_table@[k]);
                    }
                }
            }
            j = j + step;
        }
        assert forall|k: int| 0 <= k < 4096 implies partial_entry(
            lens,
            k,
            #[trigger] self.data_table@[k]@,
            self.advance_table@[k],
            i + 1,
        ) by {
            let w = low_bits(k as u64, 12);
            lemma_window_symbol(lens, codes@[i as int], k as u64, 12, i as int);
            assert(old(self).data_table@[k]@ == old(self).data_table@[k]@);
            if symbol_at(lens, w, i as int) {
                lemma_decode_symbol(lens, w, i as int);
            }
        }
        assert forall|m: int| 0 <= m < 4096 implies (symbol_at(
            lens,
            low_bits(m as u64, 12),
            i as int,
        ) <==> #[trigger] ends_with(m, len, code)) by {
            lemma_window_symbol(lens, codes@[i as int], m as u64, 12, i as int);
        }
    }

    /// Enters the literals `i` and `k` in a row, together with the literals zero that come after
    /// them.
    #[verifier::spinoff_prover]
    #[verifier::rlimit(40)]
    fn fill_pair(&mut self, lengths: &[u8], codes: &[u16], i: usize, k: usize, zero_len: u8)
        requires
            lengths@.len() == 288,
            codes_match(lengths@, codes@),
            i < 256,
            k < 256,
            1 <= lengths@[i as int],
            1 <= lengths@[k as int],
            lengths@[i as int] + lengths@[k as int] <= 12,
            zero_len == 0 || (zero_len == lengths@[0] && canonical_code(lengths@, 0) == 0),
            old(self).matches_below(lengths@, i + 1),
        ensures
            final(self).matches_below(lengths@, i + 1),
            final(self).secondary_table == old(self).secondary_table,
            forall|m: int|
                0 <= m < 4096 ==> if pair_at(
                    lengths@,
                    low_bits(m as u64, 12),
                    i as int,
                    k as int,
                ) {
                    pair_entry(
                        lengths@,
                        m,
                        i as int,
                        k as int,
                        zero_len as int,
                        (#[trigger] final(self).data_table@[m])@,
                        final(self).advance_table@[m],
                    )
                } else {
                    &&& final(self).data_table@[m] == old(self).data_table@[m]
                    &&& final(self).advance_table@[m] == old(self).advance_table@[m]
                },
    {
        let ghost lens = lengths@;
        let len: u8 = lengths[i];
        let len2: u8 = lengths[k];
        let both: u8 = len + len2;
        let code: u64 = codes[i] as u64;
        let code2: u64 = codes[k] as u64;
        let first: u64 = code | (code2 << len);
        let step: u64 = 1u64 << both;
        let mut j: u64 = first;
        proof {
            lemma_pair_start(len, len2, code, code2);
            lemma_stride_start(both, first);
        }
        while j < 4096
            invariant
                lens == lengths@,
                lens.len() == 288,
                codes_match(lens, codes@),
                i < 256,
                k < 256,
                len == lens[i as int],
                len2 == lens[k as int],
                1 <= len,
                1 <= len2,
                both == len + len2,
                both <= 12,
                code == codes@[i as int],
                code2 == codes@[k as int],
                first == code | (code2 << (len as u64)),
                step == 1u64 << (both as u64),
                1 < step <= 4096,
                zero_len == 0 || (zero_len == lens[0] && canonical_code(lens, 0) == 0),
                ends_with(j as int, both, first),
                j <= 8192,
                self.secondary_table == old(self).secondary_table,
                self.matches_below(lens, i + 1),
                forall|m: int|
                    0 <= m < 4096 ==> if m < j && ends_with(m, both, first) {
                        pair_entry(
                            lens,
                            m,
                            i as int,
                            k as int,
                            zero_len as int,
                            (#[trigger] self.data_table@[m])@,
                            self.advance_table@[m],
                        )
                    } else {
                        &&& self.data_table@[m] == old(self).data_table@[m]
                        &&& self.advance_table@[m] == old(self).advance_table@[m]
                    },
            decreases 8192 - j,
        {
            let extra: u8 = if zero_len > 0 {
                count_zeros(j, both, zero_len)
            } else {
                0
            };
            proof {
                assert(0 * zero_len == 0);
                assert(extra * zero_len <= 11);
            }
            let n: u8 = both + extra * zero_len;
            let count: u16 = extra as u16 + 2;
            let ghost w = low_bits(j, 12);
            let ghost prev = *self;
            self.data_table[j as usize] = [i as u8, k as u8];
            self.advance_table[j as usize] = (count << 4) | n as u16;
            proof {
                lemma_pack_literal(count, n as u16);
                lemma_pair_match(j, len, len2, code, code2);
                lemma_pair_window(lens, codes@, j, i as int, k as int);
                let data = self.data_table@[j as int]@;
                let bytes = run_bytes(data, count as nat);
                let tail = bytes.drop_first();
                let v = w.skip(len as int);
                assert(tail[0] == k);
                assert(tail.drop_first() =~= zeros(extra as nat));
                assert(v.skip(len2 as int) =~= w.skip(both as int));
                if extra > 0 {
                    assert forall|m: int| 0 <= m < extra * zero_len implies !w.skip(both as int)[m] by {
                        assert(w.skip(both as int)[m] == w[m + both]);
                    }
                    lemma_zero_run(lens, w.skip(both as int), extra as nat);
                } else {
                    assert(literal_run(lens, w.skip(both as int), tail.drop_first(), 0));
                }
                assert(literal_run(lens, v, tail, n - len));
                assert(literal_run(lens, w, bytes, n as int));
                assert(literal_entry(lens, w, data, self.advance_table@[j as int]));
                lemma_decode_symbol(lens, w, i as int);
                lemma_stride_next(j, both, first);
                assert(pair_entry(
                    lens,
                    j as int,
                    i as int,
                    k as int,
                    zero_len as int,
                    data,
                    self.advance_table@[j as int],
                ));
                assert forall|m: int| 0 <= m < 4096 implies if m < j + step && ends_with(
                    m,
                    both,
                    first,
                ) {
                    pair_entry(
                        lens,
                        m,
                        i as int,
                        k as int,
                        zero_len as int,
                        (#[trigger] self.data_table@[m])@,
                        self.advance_table@[m],
                    )
                } else {
                    &&& self.data_table@[m] == old(self).data_table@[m]
                    &&& self.advance_table@[m] == old(self).advance_table@[m]
                } by {
                    if m != j {
                        assert(self.data_table@[m] == prev.data_table@[m]);
                        assert(self.advance_table@[m] == prev.advance_table@[m]);
                        assert(j < m < j + step ==> !ends_with(m, both, first));
                    } else {
                        assert(self.data_table@[m]@ == data);
                    }
                }
                assert forall|m: int| 0 <= m < 4096 implies partial_entry(
                    lens,
                    m,
                    #[trigger] self.data_table@[m]@,
                    self.advance_table@[m],
                    i + 1,
                ) by {
                    if m != j {
                        assert(self.data_table@[m]@ == prev.data_table@[m]@);
                        assert(self.advance_table@[m] == prev.advance_table@[m]);
                    }
                }
            }
            j = j + step;
        }
        assert forall|m: int| 0 <= m < 4096 implies (pair_at(
            lens,
            low_bits(m as u64, 12),
            i as int,
            k as int,
        ) <==> #[trigger] ends_with(m, both, first)) by {
            lemma_pair_match(m as u64, len, len2, code, code2);
            lemma_pair_window(lens, codes@, m as u64, i as int, k as int);
        }
    }

    /// Enters the symbol `i`, which is not a literal.
    fn fill_symbol(&mut self, lengths: &[u8], codes: &[u16], i: usize)
        requires
            lengths@.len() == 288,
            codes_match(lengths@, codes@),
            256 <= i < 288,
            1 <= lengths@[i as int] <= 12,
            old(self).matches_below(lengths@, i as int),
        ensures
            final(self).matches_below(lengths@, i + 1),
            final(self).secondary_table == old(self).secondary_table,
            final(self).data_table == old(self).data_table,
            forall|m: int|
                0 <= m < 4096 && !symbol_at(lengths@, low_bits(m as u64, 12), i as int)
                    ==> #[trigger] final(self).advance_table@[m] == old(self).advance_table@[m],
    {
        let ghost lens = lengths@;
        let len: u8 = lengths[i];
        let code: u64 = codes[i] as u64;
        let step: u64 = 1u64 << len;
        let entry: u16 = ((i as u16 - 256) << 8) | ((len as u16) << 4);
        let mut j: u64 = code;
        proof {
            lemma_stride_start(len, code);
            lemma_pack_symbol((i - 256) as u16, len as u16);
        }
        while j < 4096
            invariant
                lens == lengths@,
                lens.len() == 288,
                codes_match(lens, codes@),
                256 <= i < 288,
                len == lens[i as int],
                1 <= len <= 12,
                code == codes@[i as int],
                step == 1u64 << (len as u64),
                1 < step <= 4096,
                ends_with(j as int, len, code),
                j <= 8192,
                self.secondary_table == old(self).secondary_table,
                self.data_table == old(self).data_table,
                forall|k: int|
                    0 <= k < 4096 ==> #[trigger] self.advance_table@[k] == if k < j && ends_with(
                        k,
                        len,
                        code,
                    ) {
                        entry
                    } else {
                        old(self).advance_table@[k]
                    },
            decreases 8192 - j,
        {
            self.advance_table[j as usize] = entry;
            proof {
                lemma_stride_next(j, len, code);
            }
            j = j + step;
        }
        assert forall|k: int| 0 <= k < 4096 implies partial_entry(
            lens,
            k,
            #[trigger] self.data_table@[k]@,
            self.advance_table@[k],
            i + 1,
        ) by {
            let w = low_bits(k as u64, 12);
            lemma_window_symbol(lens, codes@[i as int], k as u64, 12, i as int);
            assert(old(self).data_table@[k]@ == old(self).data_table@[k]@);
            if symbol_at(lens, w, i as int) {
                lemma_decode_symbol(lens, w, i as int);
                assert(symbol_entry(lens, w, entry));
            }
        }
        assert forall|m: int|
            0 <= m < 4096 && !symbol_at(
                lens,
                low_bits(m as u64, 12),
                i as int,
            ) implies #[trigger] self.advance_table@[m] == old(self).advance_table@[m] by {
            lemma_window_symbol(lens, codes@[i as int], m as u64, 12, i as int);
        }
    }

    /// The code words with up to 12 bits have been entered, and those of the symbols below `upto`
    /// with more.
    pub open spec fn matches_long_below(&self, lens: Seq<u8>, upto: int) -> bool {
        &&& self.secondary_table@.len() == 8 * count_indexes(self.advance_table@, 4096)
        &&& self.long_entries(lens, upto)
    }

    /// The entries after the symbols below `upto`. No two of them hold the same index.
    pub open spec fn long_entries(&self, lens: Seq<u8>, upto: int) -> bool {
        &&& forall|j: int|
            0 <= j < 4096 ==> table_entry(
                lens,
                j,
                #[trigger] self.data_table@[j]@,
                self.advance_table@[j],
                self.secondary_table@,
                upto,
            )
        &&& forall|j: int, k: int|
            0 <= j < k < 4096 && is_index(#[trigger] self.advance_table@[j]) && is_index(
                #[trigger] self.advance_table@[k],
            ) ==> index_of(self.advance_table@[j]) != index_of(self.advance_table@[k])
    }

    /// Adds eight entries to the secondary table for the code words that begin with the 12 bits of
    /// `j`.
    fn add_entries(&mut self, lengths: &[u8], i: usize, j: usize)
        requires
            i < 288,
            j < 4096,
            old(self).matches_long_below(lengths@, i as int),
            old(self).advance_table@[j as int] == INVALID_CODE,
            decode_symbol(lengths@, low_bits(j as u64, 12)) is None,
            old(self).secondary_table@.len() + 8 <= 0x7ff,
        ensures
            final(self).matches_long_below(lengths@, i as int),
            final(self).secondary_table@.len() == old(self).secondary_table@.len() + 8,
            final(self).data_table == old(self).data_table,
            final(self).advance_table@ == old(self).advance_table@.update(
                j as int,
                0x8000u16 | ((old(self).secondary_table@.len() as u16) << 4),
            ),
            is_index(final(self).advance_table@[j as int]),
    {
        let index: u16 = self.secondary_table.len() as u16;
        let ghost prev = *self;
        let ghost lens = lengths@;
        self.advance_table[j] = 0x8000 | (index << 4);
        let mut s: usize = 0;
        while s < 8
            invariant
                s <= 8,
                self.data_table == prev.data_table,
                self.advance_table@ == prev.advance_table@.update(
                    j as int,
                    0x8000u16 | (index << 4),
                ),
                self.secondary_table@.len() == prev.secondary_table@.len() + s,
                forall|k: int|
                    0 <= k < self.secondary_table@.len() ==> #[trigger] self.secondary_table@[k]
                        == if k < prev.secondary_table@.len() {
                        prev.secondary_table@[k]
                    } else {
                        INVALID_LONG_CODE
                    },
            decreases 8 - s,
        {
            self.secondary_table.push(INVALID_LONG_CODE);
            s = s + 1;
        }
        proof {
            lemma_pack_index(index);
            lemma_count_update(prev.advance_table@, j as int, 0x8000u16 | (index << 4), 4096);
            assert forall|k: int| 0 <= k < 4096 implies table_entry(
                lens,
                k,
                #[trigger] self.data_table@[k]@,
                self.advance_table@[k],
                self.secondary_table@,
                i as int,
            ) by {
                assert(prev.data_table@[k]@ == prev.data_table@[k]@);
                if decode_symbol(lens, low_bits(k as u64, 12)) is None {
                    if k == j {
                        assert forall|t: int| 0 <= t < 8 implies secondary_entry(
                            lens,
                            (j + 4096 * t) as u64,
                            #[trigger] self.secondary_table@[index + t],
                            i as int,
                        ) by {
                            let d = decode_symbol(lens, low_bits((j + 4096 * t) as u64, 15));
                            assert(d matches Some(symbol) ==> symbol >= i);
                        }
                    } else if prev.advance_table@[k] != INVALID_CODE {
                        let g = index_of(prev.advance_table@[k]);
                        assert forall|t: int| 0 <= t < 8 implies secondary_entry(
                            lens,
                            (k + 4096 * t) as u64,
                            #[trigger] self.secondary_table@[g + t],
                            i as int,
                        ) by {
                            assert(prev.secondary_table@[g + t]
                                == self.secondary_table@[g + t]);
                        }
                    }
                }
            }
            assert forall|a: int, b: int|
                0 <= a < b < 4096 && is_index(#[trigger] self.advance_table@[a]) && is_index(
                    #[trigger] self.advance_table@[b],
                ) implies index_of(self.advance_table@[a]) != index_of(
                self.advance_table@[b],
            ) by {
                assert(prev.data_table@[a]@ == prev.data_table@[a]@);
                assert(prev.data_table@[b]@ == prev.data_table@[b]@);
                lemma_index_entry(lens, prev, a, i as int);
                lemma_index_entry(lens, prev, b, i as int);
                assert(prev.advance_table@[a] == prev.advance_table@[a]);
                assert(prev.advance_table@[b] == prev.advance_table@[b]);
            }
        }
    }

    /// Enters the symbol `i`, whose code word has more than 12 bits.
    #[verifier::rlimit(30)]
    fn fill_long(&mut self, lengths: &[u8], codes: &[u16], i: usize)
        requires
            lengths@.len() == 288,
            valid_lengths(lengths@),
            codes_match(lengths@, codes@),
            i < 288,
            lengths@[i as int] > 12,
            complete(lengths@),
            old(self).matches_long_below(lengths@, i as int),
        ensures
            final(self).matches_long_below(lengths@, i + 1),
            final(self).data_table == old(self).data_table,
            forall|k: int|
                0 <= k < 4096 && decode_symbol(lengths@, low_bits(k as u64, 12)) is Some
                    ==> #[trigger] final(self).advance_table@[k] == old(self).advance_table@[k],
    {
        let ghost lens = lengths@;
        let len: u8 = lengths[i];
        let code: u16 = codes[i];
        let j: usize = (code & 0xfff) as usize;
        proof {
            assert(code & 0xfff < 4096) by (bit_vector);
            lemma_long_prefix(lens, codes@, i as int);
        }
        assert(self.data_table@[j as int]@ == self.data_table@[j as int]@);
        if self.advance_table[j] == INVALID_CODE {
            proof {
                lemma_few_indexes(lens, codes@, *self, i as int);
            }
            self.add_entries(lengths, i, j);
        }
        let adv: u16 = self.advance_table[j];
        let base: usize = ((adv & 0x7ff0) >> 4) as usize;
        let ghost mid = *self;
        proof {
            assert(mid.data_table@[j as int]@ == mid.data_table@[j as int]@);
            assert(is_index(adv));
            lemma_mask_bits(0, (len - 12) as nat);
        }
        let entry: u16 = ((i as u16) << 4) | len as u16;
        let low: u64 = (1u64 << (len - 12)) - 1;
        let high: u64 = (code >> 12) as u64;
        let mut s: usize = 0;
        while s < 8
            invariant
                s <= 8,
                base == index_of(adv),
                base + 8 <= self.secondary_table@.len(),
                self.data_table == mid.data_table,
                self.advance_table == mid.advance_table,
                self.secondary_table@.len() == mid.secondary_table@.len(),
                forall|k: int|
                    0 <= k < self.secondary_table@.len() ==> #[trigger] self.secondary_table@[k]
                        == if base <= k < base + s && ((k - base) as u64) & low == high {
                        entry
                    } else {
                        mid.secondary_table@[k]
                    },
            decreases 8 - s,
        {
            if (s as u64) & low == high {
                self.secondary_table[base + s] = entry;
            }
            s = s + 1;
        }
        proof {
            lemma_pack_literal(i as u16, len as u16);
            assert(entry != INVALID_LONG_CODE);
            assert forall|k: int| 0 <= k < 4096 implies table_entry(
                lens,
                k,
                #[trigger] self.data_table@[k]@,
                self.advance_table@[k],
                self.secondary_table@,
                i + 1,
            ) by {
                lemma_long_entered(lens, codes@, mid, *self, i as int, j as int, k);
            }
        }
    }

    /// The tables for the code without code words.
    pub fn new() -> (res: Self)
        ensures
            res.matches(Seq::new(288, |i: int| 0u8)),
    {
        LitLenTable {
            data_table: [[0; 2]; 4096],
            advance_table: [INVALID_CODE; 4096],
            secondary_table: Vec::new(),
        }
    }

    /// Looks up what the 15 bits of `window` begin with.
    pub fn find(&self, window: u64, Ghost(lens): Ghost<Seq<u8>>) -> (res: Lookup)
        requires
            self.matches(lens),
            lens.len() == 288,
            window < 0x8000,
        ensures
            match res {
                Lookup::Literals { data, count, bits } => {
                    &&& 1 <= count <= 13
                    &&& 0 < bits <= 12
                    &&& count == 1 ==> data@[1] == 0
                    &&& lookup(lens, low_bits(window, 15).take(12)) == Some(
                        (run_bytes(data@, count as nat), bits as int),
                    )
                    &&& literal_run(
                        lens,
                        low_bits(window, 15),
                        run_bytes(data@, count as nat),
                        bits as int,
                    )
                },
                Lookup::Symbol { symbol, bits } => {
                    &&& lookup(lens, low_bits(window, 15).take(12)) is None
                    &&& symbol_at(lens, low_bits(window, 15), symbol as int)
                    &&& bits == lens[symbol as int]
                },
                Lookup::Invalid => {
                    &&& lookup(lens, low_bits(window, 15).take(12)) is None
                    &&& decode_symbol(lens, low_bits(window, 15)) is None
                },
            },
    {
        let j: u64 = window & 0xfff;
        let s: u64 = window >> 12;
        let ghost bits = low_bits(window, 15);
        let ghost start = low_bits(j, 12);
        proof {
            assert(j < 4096 && s < 8 && window == j + 4096 * s) by (bit_vector)
                requires
                    window < 0x8000,
                    j == window & 0xfff,
                    s == window >> 12,
            ;
            lemma_low_window(j, s, window);
            assert(bits =~= start + bits.skip(12));
            assert(bits.take(12) =~= start);
        }
        let data: [u8; 2] = self.data_table[j as usize];
        let adv: u16 = self.advance_table[j as usize];
        proof {
            assert(self.data_table@[j as int]@ == data@);
            assert(table_entry(lens, j as int, data@, adv, self.secondary_table@, 288));
            assert((adv >> 4) & 0xf <= 15 && adv >> 4 <= 4095 && adv >> 8 <= 255 && adv & 0xf <= 15 && (adv
                & 0x7ff0) >> 4 <= 2047 && 0xfff0u16 & 0xf == 0 && 0xfff0u16 & 0x8000 != 0) by (bit_vector);
        }
        if adv & 0xf != 0 {
            proof {
                let first = run_bytes(data@, (adv >> 4) as nat)[0] as int;
                assert(symbol_at(lens, start, first));
                lemma_decode_is(lens, start, first);
                assert(run_entry(lens, j as int, data@, adv));
                lemma_run_extend(
                    lens,
                    start,
                    bits.skip(12),
                    run_bytes(data@, (adv >> 4) as nat),
                    (adv & 0xf) as int,
                );
            }
            Lookup::Literals { data, count: (adv >> 4) as usize, bits: (adv & 0xf) as u8 }
        } else if adv & 0x8000 == 0 {
            proof {
                lemma_symbol_extend(lens, start, bits.skip(12), 256 + (adv >> 8));
            }
            Lookup::Symbol { symbol: 256 + (adv >> 8) as usize, bits: ((adv >> 4) & 0xf) as u8 }
        } else if adv != INVALID_CODE {
            let index: usize = ((adv & 0x7ff0) >> 4) as usize;
            let entry: u16 = self.secondary_table[index + s as usize];
            assert(secondary_entry(lens, (j + 4096 * s) as u64, entry, 288));
            if entry == INVALID_LONG_CODE {
                Lookup::Invalid
            } else {
                Lookup::Symbol { symbol: (entry >> 4) as usize, bits: (entry & 0xf) as u8 }
            }
        } else {
            assert(decode_symbol(lens, low_bits((j + 4096 * s) as u64, 15)) is None);
            Lookup::Invalid
        }
    }

    /// Builds the tables for the given code.
    pub fn build(&mut self, lengths: &[u8], codes: &[u16])
        requires
            lengths@.len() == 288,
            valid_lengths(lengths@),
            codes_match(lengths@, codes@),
            complete(lengths@),
        ensures
            final(self).matches(lengths@),
            final(self).secondary_table@.len() <= 0x7ff,
    {
        let ghost lens = lengths@;

        // Check whether literal zero is assigned code zero. If so, our table can encode entries
        // with 3+ symbols even though each entry has only 2 data bytes.
        let zero_len: u8 = if lengths[0] > 0 && codes[0] == 0 {
            lengths[0]
        } else {
            0
        };
        proof {
            lemma_zero_length(lens, codes@);
        }

        self.advance_table = [INVALID_CODE; 4096];
        self.secondary_table = Vec::new();
        assert(self.matches_below(lens, 0));

        let mut i: usize = 0;
        while i < 256
            invariant
                i <= 256,
                lens == lengths@,
                lens.len() == 288,
                valid_lengths(lens),
                codes_match(lens, codes@),
                zero_len == zero_length(lens),
                self.secondary_table@.len() == 0,
                self.matches_below(lens, i as int),
                self.runs_below(lens, i as int),
            decreases 256 - i,
        {
            let len: u8 = lengths[i];
            let ghost before = *self;
            if len > 0 && len <= 12 {
                self.fill_literal(lengths, codes, i, zero_len);
                proof {
                    lemma_row_start(lens, before, *self, i as int);
                }
            } else {
                proof {
                    lemma_no_short_entry(lens, *self, i as int);
                }
            }
            if len > 0 && len <= 9 {
                let mut k: usize = 0;
                while k < 256
                    invariant
                        k <= 256,
                        i < 256,
                        lens == lengths@,
                        lens.len() == 288,
                        valid_lengths(lens),
                        codes_match(lens, codes@),
                        len == lens[i as int],
                        0 < len <= 9,
                        zero_len == zero_length(lens),
                        self.secondary_table@.len() == 0,
                        self.matches_below(lens, i + 1),
                        self.runs_below(lens, i as int),
                        self.row_below(lens, i as int, k as int),
                    decreases 256 - k,
                {
                    let ghost before = *self;
                    if lengths[k] != 0 && len + lengths[k] <= 12 {
                        self.fill_pair(lengths, codes, i, k, zero_len);
                    }
                    proof {
                        lemma_row_next(lens, before, *self, i as int, k as int);
                    }
                    k = k + 1;
                }
            }
            proof {
                lemma_row_end(lens, *self, i as int);
            }
            i = i + 1;
        }

        let mut i: usize = 256;
        while i < 288
            invariant
                256 <= i <= 288,
                lens == lengths@,
                lens.len() == 288,
                codes_match(lens, codes@),
                self.secondary_table@.len() == 0,
                self.matches_below(lens, i as int),
                self.runs_below(lens, 256),
            decreases 288 - i,
        {
            let ghost before = *self;
            if lengths[i] > 0 && lengths[i] <= 12 {
                self.fill_symbol(lengths, codes, i);
                proof {
                    assert forall|j: int|
                        0 <= j < 4096 && (decode_symbol(
                            lens,
                            low_bits(j as u64, 12),
                        ) matches Some(s) && s
                            < 256) implies #[trigger] self.advance_table@[j]
                        == before.advance_table@[j] by {
                        lemma_decode_is(lens, low_bits(j as u64, 12), i as int);
                    }
                    lemma_runs_kept(lens, before, *self);
                }
            } else {
                proof {
                    lemma_no_short_entry(lens, *self, i as int);
                }
            }
            i = i + 1;
        }
        proof {
            lemma_short_entries(lens, *self);
        }

        let mut i: usize = 0;
        while i < 288
            invariant
                i <= 288,
                lens == lengths@,
                lens.len() == 288,
                valid_lengths(lens),
                codes_match(lens, codes@),
                complete(lens),
                self.matches_long_below(lens, i as int),
                self.runs_below(lens, 256),
            decreases 288 - i,
        {
            let ghost before = *self;
            if lengths[i] > 12 {
                self.fill_long(lengths, codes, i);
                proof {
                    lemma_runs_kept(lens, before, *self);
                }
            } else {
                proof {
                    lemma_no_long_entry(lens, *self, i as int);
                }
            }
            i = i + 1;
        }
        proof {
            lemma_few_indexes(lens, codes@, *self, 288);
        }
    }
}

/// The code word of the literal zero has only zero bits exactly if its number is zero.
proof fn lemma_zero_length(lens: Seq<u8>, codes: Seq<u16>)
    requires
        lens.len() > 0,
        valid_lengths(lens),
        codes_match(lens, codes),
    ensures
        lens[0] > 0 && codes[0] == 0 ==> zero_length(lens) == lens[0],
        !(lens[0] > 0 && codes[0] == 0) ==> zero_length(lens) == 0,
{
    if lens[0] > 0 {
        let l = lens[0] as nat;
        assert(code_matches(lens, 0, codes[0]));
        lemma_zero_bits(l);
        if canonical_code(lens, 0) == 0 {
            lemma_code_value_injective(low_bits(codes[0] as u64, l), low_bits(0, l));
            lemma_low_bits_injective(codes[0] as u64, 0, l);
        }
    }
}

/// The code word of `n` zero bits spells zero.
pub proof fn lemma_zero_bits(n: nat)
    requires
        n <= 15,
    ensures
        code_value(low_bits(0, n)) == 0,
        0u64 >> (n as u64) == 0,
{
    let k = n as u64;
    assert forall|i: int| 0 <= i < n implies !low_bits(0, n)[i] by {
        let x = i as u64;
        assert((0u64 >> x) & 1 == 0 && 0u64 >> k == 0) by (bit_vector);
    }
    assert(0u64 >> k == 0) by (bit_vector);
    lemma_code_value_zero(low_bits(0, n));
}

/// After the literal `i` has been entered alone.
proof fn lemma_row_start(lens: Seq<u8>, before: LitLenTable, after: LitLenTable, i: int)
    requires
        0 <= i < 256,
        before.runs_below(lens, i),
        forall|m: int|
            0 <= m < 4096 ==> if symbol_at(lens, low_bits(m as u64, 12), i) {
                single_entry(
                    lens,
                    m,
                    i,
                    zero_length(lens),
                    (#[trigger] after.data_table@[m])@,
                    after.advance_table@[m],
                )
            } else {
                &&& after.data_table@[m] == before.data_table@[m]
                &&& after.advance_table@[m] == before.advance_table@[m]
            },
    ensures
        after.runs_below(lens, i),
        after.row_below(lens, i, 0),
{
    assert forall|j: int|
        0 <= j < 4096 && (decode_symbol(lens, low_bits(j as u64, 12)) matches Some(s) && s
            < i) implies run_entry(
        lens,
        j,
        #[trigger] after.data_table@[j]@,
        after.advance_table@[j],
    ) by {
        lemma_decode_is(lens, low_bits(j as u64, 12), i);
        assert(after.data_table@[j] == before.data_table@[j]);
        assert(before.data_table@[j]@ == before.data_table@[j]@);
    }
    assert forall|j: int|
        0 <= j < 4096 && decode_symbol(lens, low_bits(j as u64, 12)) == Some(i) implies row_entry(
        lens,
        j,
        i,
        0,
        #[trigger] after.data_table@[j]@,
        after.advance_table@[j],
    ) by {
        let w = low_bits(j as u64, 12);
        lemma_decode_is(lens, w, i);
        assert(after.data_table@[j] == after.data_table@[j]);
        if let Some(k) = decode_symbol(lens, w.skip(lens[i] as int)) {
            assert(symbol_at(lens, w.skip(lens[i] as int), k));
        }
    }
}

/// After the literals `i` and `k` have been entered, or when they do not fit in 12 bits.
proof fn lemma_row_next(lens: Seq<u8>, before: LitLenTable, after: LitLenTable, i: int, k: int)
    requires
        0 <= i < 256,
        0 <= k < 256,
        before.runs_below(lens, i),
        before.row_below(lens, i, k),
        lens[k] == 0 || lens[i] + lens[k] > 12 ==> before == after,
        lens[k] > 0 && lens[i] + lens[k] <= 12 ==> forall|m: int|
            0 <= m < 4096 ==> if pair_at(lens, low_bits(m as u64, 12), i, k) {
                pair_entry(
                    lens,
                    m,
                    i,
                    k,
                    zero_length(lens),
                    (#[trigger] after.data_table@[m])@,
                    after.advance_table@[m],
                )
            } else {
                &&& after.data_table@[m] == before.data_table@[m]
                &&& after.advance_table@[m] == before.advance_table@[m]
            },
    ensures
        after.runs_below(lens, i),
        after.row_below(lens, i, k + 1),
{
    assert forall|j: int|
        0 <= j < 4096 && (decode_symbol(lens, low_bits(j as u64, 12)) matches Some(s) && s
            < i) implies run_entry(
        lens,
        j,
        #[trigger] after.data_table@[j]@,
        after.advance_table@[j],
    ) by {
        lemma_decode_is(lens, low_bits(j as u64, 12), i);
        assert(after.data_table@[j] == before.data_table@[j]);
        assert(before.data_table@[j]@ == before.data_table@[j]@);
    }
    assert forall|j: int|
        0 <= j < 4096 && decode_symbol(lens, low_bits(j as u64, 12)) == Some(i) implies row_entry(
        lens,
        j,
        i,
        k + 1,
        #[trigger] after.data_table@[j]@,
        after.advance_table@[j],
    ) by {
        let w = low_bits(j as u64, 12);
        let v = w.skip(lens[i] as int);
        lemma_decode_is(lens, w, i);
        lemma_decode_is(lens, v, k);
        assert(after.data_table@[j] == after.data_table@[j]);
        assert(before.data_table@[j]@ == before.data_table@[j]@);
    }
}

/// When all second literals have been entered, or none because the first is too long.
proof fn lemma_row_end(lens: Seq<u8>, table: LitLenTable, i: int)
    requires
        0 <= i < 256,
        i < lens.len(),
        table.runs_below(lens, i),
        0 < lens[i] <= 9 ==> table.row_below(lens, i, 256),
        9 < lens[i] <= 12 ==> table.row_below(lens, i, 0),
    ensures
        table.runs_below(lens, i + 1),
{
    assert forall|j: int|
        0 <= j < 4096 && (decode_symbol(lens, low_bits(j as u64, 12)) matches Some(s) && s < i
            + 1) implies run_entry(
        lens,
        j,
        #[trigger] table.data_table@[j]@,
        table.advance_table@[j],
    ) by {
        let w = low_bits(j as u64, 12);
        if decode_symbol(lens, w) == Some(i) {
            assert(symbol_at(lens, w, i));
            let v = w.skip(lens[i] as int);
            if let Some(k) = decode_symbol(lens, v) {
                assert(symbol_at(lens, v, k));
            }
            let data = table.data_table@[j]@;
            let adv = table.advance_table@[j];
            if let Some((run, n)) = lookup(lens, w) {
                assert(run_bytes(data, run.len()) =~= run);
            }
        }
    }
}

/// Entries that begin with a literal stay when another symbol is entered.
proof fn lemma_runs_kept(lens: Seq<u8>, before: LitLenTable, after: LitLenTable)
    requires
        before.runs_below(lens, 256),
        before.data_table == after.data_table,
        forall|j: int|
            0 <= j < 4096 && (decode_symbol(lens, low_bits(j as u64, 12)) matches Some(s) && s
                < 256) ==> #[trigger] after.advance_table@[j] == before.advance_table@[j],
    ensures
        after.runs_below(lens, 256),
{
    assert forall|j: int|
        0 <= j < 4096 && (decode_symbol(lens, low_bits(j as u64, 12)) matches Some(s) && s
            < 256) implies run_entry(
        lens,
        j,
        #[trigger] after.data_table@[j]@,
        after.advance_table@[j],
    ) by {
        assert(after.advance_table@[j] == before.advance_table@[j]);
    }
}

/// The encoding of an entry for a symbol.
proof fn lemma_pack_symbol(symbol: u16, n: u16)
    requires
        symbol < 32,
        n <= 12,
    ensures
        ((symbol << 8) | (n << 4)) & 0xf == 0,
        ((symbol << 8) | (n << 4)) & 0x8000 == 0,
        (((symbol << 8) | (n << 4)) >> 4) & 0xf == n,
        ((symbol << 8) | (n << 4)) >> 8 == symbol,
{
    let e = (symbol << 8) | (n << 4);
    assert(e & 0xf == 0 && e & 0x8000 == 0 && (e >> 4) & 0xf == n && e >> 8 == symbol)
        by (bit_vector)
        requires
            symbol < 32,
            n <= 12,
            e == (symbol << 8) | (n << 4),
    ;
}

/// Two code words in a row are a number of as many bits as both.
proof fn lemma_pair_start(len: u8, len2: u8, code: u64, code2: u64)
    requires
        1 <= len,
        1 <= len2,
        len + len2 <= 12,
        code >> (len as u64) == 0,
        code2 >> (len2 as u64) == 0,
    ensures
        (code | (code2 << (len as u64))) >> ((len + len2) as u64) == 0,
{
    let a = len as u64;
    let b = len2 as u64;
    let c = (len + len2) as u64;
    assert((code | (code2 << a)) >> c == 0) by (bit_vector)
        requires
            1 <= a,
            1 <= b,
            c == a + b,
            c <= 12,
            code >> a == 0,
            code2 >> b == 0,
    ;
}

/// A number begins with two code words exactly if it begins with the first and goes on with the
/// second.
proof fn lemma_pair_match(j: u64, len: u8, len2: u8, code: u64, code2: u64)
    requires
        1 <= len,
        1 <= len2,
        len + len2 <= 12,
        code >> (len as u64) == 0,
        code2 >> (len2 as u64) == 0,
    ensures
        ends_with(j as int, (len + len2) as u8, code | (code2 << (len as u64))) <==> j & mask(len)
            == code && (j >> (len as u64)) & mask(len2) == code2,
{
    let a = len as u64;
    let b = len2 as u64;
    let c = (len + len2) as u64;
    assert((j & (((1u64 << c) - 1) as u64) == code | (code2 << a)) <==> (j & (((1u64 << a)
        - 1) as u64) == code && (j >> a) & (((1u64 << b) - 1) as u64) == code2)) by (bit_vector)
        requires
            1 <= a,
            1 <= b,
            c == a + b,
            c <= 12,
            code >> a == 0,
            code2 >> b == 0,
    ;
}

/// Whether the 12 bits of a number begin with two literals, in terms of numbers.
proof fn lemma_pair_window(lens: Seq<u8>, codes: Seq<u16>, x: u64, i: int, k: int)
    requires
        codes_match(lens, codes),
        0 <= i < lens.len(),
        0 <= k < lens.len(),
        1 <= lens[i],
        1 <= lens[k],
        lens[i] + lens[k] <= 12,
    ensures
        pair_at(lens, low_bits(x, 12), i, k) <==> x & mask(lens[i]) == codes[i] && (x >> (
        lens[i] as u64)) & mask(lens[k]) == codes[k],
{
    let len = lens[i] as nat;
    lemma_window_symbol(lens, codes[i], x, 12, i);
    lemma_window_symbol(lens, codes[k], x >> (len as u64), (12 - len) as nat, k);
    lemma_shr_bits(x, len, (12 - len) as nat);
}

/// The encoding of an entry that holds an index into the secondary table.
proof fn lemma_pack_index(index: u16)
    requires
        index < 0x7ff,
    ensures
        is_index(0x8000u16 | (index << 4)),
        index_of(0x8000u16 | (index << 4)) == index,
{
    let e = 0x8000u16 | (index << 4);
    assert(e & 0xf == 0 && e & 0x8000 != 0 && e != 0xfff0 && (e & 0x7ff0) >> 4 == index)
        by (bit_vector)
        requires
            index < 0x7ff,
            e == 0x8000u16 | (index << 4),
    ;
}

/// One more entry holds an index.
proof fn lemma_count_update(advance: Seq<u16>, j: int, adv: u16, n: int)
    requires
        0 <= j < advance.len(),
        n <= advance.len(),
        is_index(adv),
        !is_index(advance[j]),
    ensures
        count_indexes(advance.update(j, adv), n) == count_indexes(advance, n) + if j < n {
            1nat
        } else {
            0
        },
    decreases n,
{
    if n > 0 {
        lemma_count_update(advance, j, adv, n - 1);
    }
}

/// Only the beginnings of longer code words have entries with an index.
proof fn lemma_count_long(lens: Seq<u8>, table: LitLenTable, upto: int, n: int)
    requires
        table.long_entries(lens, upto),
        n <= 4096,
    ensures
        count_indexes(table.advance_table@, n) <= count_long(lens, n),
    decreases n,
{
    if n > 0 {
        lemma_count_long(lens, table, upto, n - 1);
        lemma_index_entry(lens, table, n - 1, upto);
    }
}

/// The secondary table stays so short that its indexes fit in the entries.
proof fn lemma_few_indexes(lens: Seq<u8>, codes: Seq<u16>, table: LitLenTable, upto: int)
    requires
        lens.len() == 288,
        valid_lengths(lens),
        complete(lens),
        codes_match(lens, codes),
        table.matches_long_below(lens, upto),
    ensures
        table.secondary_table@.len() <= 1152,
{
    lemma_count_long(lens, table, upto, 4096);
    lemma_few_long(lens, codes);
}

/// An entry that holds an index is one for longer code words.
proof fn lemma_index_entry(lens: Seq<u8>, table: LitLenTable, j: int, upto: int)
    requires
        table.long_entries(lens, upto),
        0 <= j < 4096,
    ensures
        is_index(table.advance_table@[j]) ==> {
            &&& decode_symbol(lens, low_bits(j as u64, 12)) is None
            &&& index_of(table.advance_table@[j]) + 8 <= table.secondary_table@.len()
        },
        decode_symbol(lens, low_bits(j as u64, 12)) is None && table.advance_table@[j]
            != INVALID_CODE ==> is_index(table.advance_table@[j]),
{
    assert(table.data_table@[j]@ == table.data_table@[j]@);
}

/// A symbol comes next exactly if it is decoded.
proof fn lemma_decode_is(lens: Seq<u8>, bits: Seq<bool>, i: int)
    ensures
        symbol_at(lens, bits, i) <==> decode_symbol(lens, bits) == Some(i),
{
    if symbol_at(lens, bits, i) {
        lemma_decode_symbol(lens, bits, i);
    }
}

/// The entry for the 12 bits of `k` after the symbol `i`, whose code word begins with the 12 bits of
/// `j`, has been entered.
#[verifier::spinoff_prover]
#[verifier::rlimit(30)]
proof fn lemma_long_entered(
    lens: Seq<u8>,
    codes: Seq<u16>,
    before: LitLenTable,
    after: LitLenTable,
    i: int,
    j: int,
    k: int,
)
    requires
        lens.len() == 288,
        valid_lengths(lens),
        codes_match(lens, codes),
        0 <= i < 288,
        lens[i] > 12,
        before.matches_long_below(lens, i),
        0 <= j < 4096,
        j == codes[i] & 0xfff,
        decode_symbol(lens, low_bits(j as u64, 12)) is None,
        is_index(before.advance_table@[j]),
        after.data_table == before.data_table,
        after.advance_table == before.advance_table,
        after.secondary_table@.len() == before.secondary_table@.len(),
        ({
            let base = index_of(before.advance_table@[j]);
            let entry = ((i as u16) << 4) | lens[i] as u16;
            &&& base + 8 <= after.secondary_table@.len()
            &&& entry >> 4 == i
            &&& entry & 0xf == lens[i]
            &&& entry != INVALID_LONG_CODE
            &&& forall|m: int|
                0 <= m < after.secondary_table@.len() ==> #[trigger] after.secondary_table@[m]
                    == if base <= m < base + 8 && ((m - base) as u64) & mask(
                    (lens[i] - 12) as u8,
                ) == (codes[i] >> 12) as u64 {
                    entry
                } else {
                    before.secondary_table@[m]
                }
        }),
        0 <= k < 4096,
    ensures
        table_entry(
            lens,
            k,
            after.data_table@[k]@,
            after.advance_table@[k],
            after.secondary_table@,
            i + 1,
        ),
{
    let adv = before.advance_table@[j];
    assert(before.data_table@[k]@ == before.data_table@[k]@);
    assert(before.data_table@[j]@ == before.data_table@[j]@);
    let a = before.advance_table@[k];
    if decode_symbol(lens, low_bits(k as u64, 12)) is None {
        if a == INVALID_CODE {
            assert forall|t: int| 0 <= t < 8 implies match #[trigger] decode_symbol(
                lens,
                low_bits((k + 4096 * t) as u64, 15),
            ) {
                Some(symbol) => symbol >= i + 1,
                None => true,
            } by {
                lemma_long_match(lens, codes, i, k, t);
                lemma_decode_is(lens, low_bits((k + 4096 * t) as u64, 15), i);
            }
        } else {
            let g = index_of(a);
            assert(k != j ==> g != index_of(adv)) by {
                lemma_index_entry(lens, before, k, i);
                assert(before.advance_table@[k] == a);
                assert(before.advance_table@[j] == adv);
            }
            assert forall|t: int| 0 <= t < 8 implies secondary_entry(
                lens,
                (k + 4096 * t) as u64,
                #[trigger] after.secondary_table@[g + t],
                i + 1,
            ) by {
                assert(secondary_entry(
                    lens,
                    (k + 4096 * t) as u64,
                    before.secondary_table@[g + t],
                    i,
                ));
                lemma_long_match(lens, codes, i, k, t);
                lemma_decode_is(lens, low_bits((k + 4096 * t) as u64, 15), i);
            }
        }
    }
}

/// When the 15 bits that `j` begins and `t` ends are those of a long code word.
proof fn lemma_long_match(lens: Seq<u8>, codes: Seq<u16>, i: int, j: int, t: int)
    requires
        codes_match(lens, codes),
        0 <= i < lens.len(),
        12 < lens[i] <= 15,
        0 <= j < 4096,
        0 <= t < 8,
    ensures
        symbol_at(lens, low_bits((j + 4096 * t) as u64, 15), i) <==> j == codes[i] & 0xfff && (
        t as u64) & (((1u64 << ((lens[i] - 12) as u64)) - 1) as u64) == codes[i] >> 12,
{
    let x = (j + 4096 * t) as u64;
    lemma_window_symbol(lens, codes[i], x, 15, i);
    let n = lens[i] as u64;
    let m = (lens[i] - 12) as u64;
    let a = j as u64;
    let s = t as u64;
    let c = codes[i];
    let c64 = c as u64;
    assert((x & (((1u64 << n) - 1) as u64) == c64) <==> (a == c64 & 0xfff && s & (((1u64 << m)
        - 1) as u64) == c64 >> 12)) by (bit_vector)
        requires
            x == a + 4096 * s,
            a < 4096,
            s < 8,
            13 <= n <= 15,
            n == m + 12,
            c64 >> n == 0,
    ;
    assert(c64 & 0xfff == (c & 0xfff) as u64 && c64 >> 12 == (c >> 12) as u64) by (bit_vector)
        requires
            c64 == c as u64,
    ;
}

/// The first 12 bits of a long code word are not the beginning of a short one.
proof fn lemma_long_prefix(lens: Seq<u8>, codes: Seq<u16>, i: int)
    requires
        codes_match(lens, codes),
        0 <= i < lens.len(),
        12 < lens[i] <= 15,
    ensures
        decode_symbol(lens, low_bits((codes[i] & 0xfff) as u64, 12)) is None,
{
    let c = codes[i];
    let j = (c & 0xfff) as u64;
    let w = low_bits(j, 12);
    if let Some(k) = decode_symbol(lens, w) {
        assert(symbol_at(lens, w, k));
        let n = lens[i] as u64;
        let c64 = c as u64;
        assert(c64 & (((1u64 << n) - 1) as u64) == c64 && j == c64 & (((1u64 << 12) - 1) as u64))
            by (bit_vector)
            requires
                c64 == c as u64,
                13 <= n <= 15,
                c64 >> n == 0,
                j == (c & 0xfff) as u64,
        ;
        lemma_window_symbol(lens, c, c64, 15, i);
        lemma_mask_bits(c64, 12);
        assert(w =~= low_bits(c64, 12));
        assert(low_bits(c64, 15).take(lens[k] as int) =~= w.take(lens[k] as int));
        lemma_symbol_unique(lens, low_bits(c64, 15), i, k);
    }
}

/// How entries are packed.
proof fn lemma_unpack(adv: u16, entry: u16)
    ensures
        adv & 0xf == 0 ==> adv == ((adv >> 8) << 8) | (((adv >> 4) & 0xf) << 4),
        adv & 0xf == 0 && adv & 0x8000 != 0 ==> adv == 0x8000 | (((adv & 0x7ff0) >> 4) << 4),
        entry == ((entry >> 4) << 4) | (entry & 0xf),
{
    assert((adv & 0xf == 0 ==> adv == ((adv >> 8) << 8) | (((adv >> 4) & 0xf) << 4)) && (adv & 0xf
        == 0 && adv & 0x8000 != 0 ==> adv == 0x8000 | (((adv & 0x7ff0) >> 4) << 4)) && entry == ((
    entry >> 4) << 4) | (entry & 0xf)) by (bit_vector);
}

/// What the tables hold for a symbol, wherever its code word comes next. One that is not a literal
/// and has up to 12 bits is in the advance table itself. For a longer one the advance table
/// holds an index into the secondary table, and from there on all entries whose bits go on with the
/// rest of the code word are its own.
pub proof fn law_table_entries(
    table: LitLenTable,
    lens: Seq<u8>,
    codes: Seq<u16>,
    i: int,
    j: int,
)
    requires
        table.matches(lens),
        lens.len() == 288,
        valid_lengths(lens),
        codes_match(lens, codes),
        0 <= i < 288,
        lens[i] > 0,
        0 <= j < 4096,
    ensures
        256 <= i && lens[i] <= 12 && ends_with(j, lens[i], codes[i] as u64)
            ==> table.advance_table@[j] == (((i - 256) as u16) << 8) | ((lens[i] as u16) << 4),
        lens[i] > 12 && j == codes[i] & 0xfff ==> {
            let index = index_of(table.advance_table@[j]);
            &&& table.advance_table@[j] == 0x8000 | ((index as u16) << 4)
            &&& index + 8 <= table.secondary_table@.len()
            &&& forall|s: int|
                0 <= s < 8 && ends_with(s, (lens[i] - 12) as u8, (codes[i] >> 12) as u64)
                    ==> #[trigger] table.secondary_table@[index + s] == ((i as u16) << 4) | (
                lens[i] as u16)
        },
{
    let adv = table.advance_table@[j];
    let data = table.data_table@[j]@;
    let secondary = table.secondary_table@;
    let w = low_bits(j as u64, 12);
    assert(table_entry(lens, j, data, adv, secondary, 288));
    if 256 <= i && lens[i] <= 12 && ends_with(j, lens[i], codes[i] as u64) {
        lemma_window_symbol(lens, codes[i], j as u64, 12, i);
        lemma_decode_symbol(lens, w, i);
        if literal_entry(lens, w, data, adv) {
            let first = run_bytes(data, (adv >> 4) as nat)[0];
            lemma_symbol_unique(lens, w, i, first as int);
        }
        lemma_symbol_unique(lens, w, i, 256 + (adv >> 8));
        lemma_unpack(adv, 0);
    }
    if lens[i] > 12 && j == codes[i] & 0xfff {
        lemma_long_prefix(lens, codes, i);
        let c = codes[i];
        let m = (lens[i] - 12) as u64;
        let t = (c >> 12) as u64;
        let c64 = c as u64;
        assert(code_matches(lens, i, c));
        assert(t < 8 && t & (((1u64 << m) - 1) as u64) == t) by (bit_vector)
            requires
                t == (c >> 12) as u64,
                c64 == c as u64,
                c64 >> ((m + 12) as u64) == 0,
                1 <= m <= 3,
        ;
        lemma_long_match(lens, codes, i, j, t as int);
        lemma_decode_symbol(lens, low_bits((j + 4096 * t) as u64, 15), i);
        lemma_unpack(adv, 0);
        let index = index_of(adv);
        assert forall|s: int|
            0 <= s < 8 && ends_with(s, (lens[i] - 12) as u8, (c >> 12) as u64) implies #[trigger] secondary[index
            + s] == ((i as u16) << 4) | (lens[i] as u16) by {
            lemma_long_match(lens, codes, i, j, s);
            lemma_decode_symbol(lens, low_bits((j + 4096 * s) as u64, 15), i);
            lemma_unpack(adv, secondary[index + s]);
        }
    }
}

/// What the tables hold where literals come next: as many of them as the 12 bits allow. If they
/// begin with a literal `i` of no more than nine bits and another literal `k`, these two are in the
/// entry; else only the first one is. All literals zero that come after them are in it too, if
/// their code words have only zero bits.
pub proof fn law_literal_entries(table: LitLenTable, lens: Seq<u8>, i: int, k: int, j: int)
    requires
        table.matches(lens),
        lens.len() == 288,
        0 <= i < 256,
        0 <= k < 256,
        0 <= j < 4096,
    ensures
        lens[i] <= 9 && pair_at(lens, low_bits(j as u64, 12), i, k) ==> pair_entry(
            lens,
            j,
            i,
            k,
            zero_length(lens),
            table.data_table@[j]@,
            table.advance_table@[j],
        ),
        symbol_at(lens, low_bits(j as u64, 12), i) && (lens[i] > 9 || !(decode_symbol(
            lens,
            low_bits(j as u64, 12).skip(lens[i] as int),
        ) matches Some(s) && s < 256)) ==> single_entry(
            lens,
            j,
            i,
            zero_length(lens),
            table.data_table@[j]@,
            table.advance_table@[j],
        ),
{
    let w = low_bits(j as u64, 12);
    let data = table.data_table@[j]@;
    let adv = table.advance_table@[j];
    if symbol_at(lens, w, i) {
        lemma_decode_is(lens, w, i);
        lemma_decode_is(lens, w.skip(lens[i] as int), k);
        assert(run_entry(lens, j, data, adv));
        assert(table_entry(lens, j, data, adv, table.secondary_table@, 288));
        let run = lookup(lens, w)->Some_0.0;
        assert(run_bytes(data, run.len())[0] == run[0]);
        if run.len() > 1 {
            assert(run_bytes(data, run.len())[1] == run[1]);
        }
        if symbol_entry(lens, w, adv) {
            lemma_symbol_unique(lens, w, i, 256 + (adv >> 8));
        }
    }
}

/// A symbol without a short code word has no entry of its own.
proof fn lemma_no_short_entry(lens: Seq<u8>, table: LitLenTable, i: int)
    requires
        0 <= i < lens.len(),
        lens[i] == 0 || lens[i] > 12,
        table.matches_below(lens, i),
    ensures
        table.matches_below(lens, i + 1),
{
    assert forall|j: int| 0 <= j < 4096 implies partial_entry(
        lens,
        j,
        #[trigger] table.data_table@[j]@,
        table.advance_table@[j],
        i + 1,
    ) by {
        lemma_decode_is(lens, low_bits(j as u64, 12), i);
    }
}

/// With all short code words entered, the other entries are still unused.
proof fn lemma_short_entries(lens: Seq<u8>, table: LitLenTable)
    requires
        lens.len() == 288,
        table.matches_below(lens, 288),
        table.secondary_table@.len() == 0,
    ensures
        table.matches_long_below(lens, 0),
{
    assert forall|j: int| 0 <= j < 4096 implies !is_index(
        #[trigger] table.advance_table@[j],
    ) && table_entry(
        lens,
        j,
        table.data_table@[j]@,
        table.advance_table@[j],
        table.secondary_table@,
        0,
    ) by {
        let w = low_bits(j as u64, 12);
        assert(partial_entry(lens, j, table.data_table@[j]@, table.advance_table@[j], 288));
        if let Some(k) = decode_symbol(lens, w) {
            assert(symbol_at(lens, w, k));
        } else {
            assert forall|s: int| 0 <= s < 8 implies match #[trigger] decode_symbol(
                lens,
                low_bits((j + 4096 * s) as u64, 15),
            ) {
                Some(symbol) => symbol >= 0,
                None => true,
            } by {
                let v = low_bits((j + 4096 * s) as u64, 15);
                if let Some(k) = decode_symbol(lens, v) {
                    assert(symbol_at(lens, v, k));
                }
            }
        }
    }
    lemma_count_none(table.advance_table@, 4096);
}

proof fn lemma_count_none(advance: Seq<u16>, n: int)
    requires
        n <= advance.len(),
        forall|j: int| 0 <= j < n ==> !is_index(#[trigger] advance[j]),
    ensures
        count_indexes(advance, n) == 0,
    decreases n,
{
    if n > 0 {
        lemma_count_none(advance, n - 1);
    }
}

/// A symbol without a long code word has no entry in the secondary table.
proof fn lemma_no_long_entry(lens: Seq<u8>, table: LitLenTable, i: int)
    requires
        0 <= i < lens.len(),
        lens[i] <= 12,
        table.matches_long_below(lens, i),
    ensures
        table.matches_long_below(lens, i + 1),
{
    assert forall|j: int| 0 <= j < 4096 implies table_entry(
        lens,
        j,
        #[trigger] table.data_table@[j]@,
        table.advance_table@[j],
        table.secondary_table@,
        i + 1,
    ) by {
        let w = low_bits(j as u64, 12);
        assert(table_entry(
            lens,
            j,
            table.data_table@[j]@,
            table.advance_table@[j],
            table.secondary_table@,
            i,
        ));
        if decode_symbol(lens, w) is None {
            assert forall|s: int| 0 <= s < 8 implies #[trigger] decode_symbol(
                lens,
                low_bits((j + 4096 * s) as u64, 15),
            ) != Some(i) by {
                let x = (j + 4096 * s) as u64;
                let v = low_bits(x, 15);
                lemma_decode_is(lens, v, i);
                lemma_decode_is(lens, w, i);
                if symbol_at(lens, v, i) {
                    lemma_low_window(j as u64, s as u64, x);
                    assert(v.take(lens[i] as int) =~= w.take(lens[i] as int));
                }
            }
            let adv = table.advance_table@[j];
            if adv != INVALID_CODE {
                assert forall|s: int| 0 <= s < 8 implies secondary_entry(
                    lens,
                    (j + 4096 * s) as u64,
                    #[trigger] table.secondary_table@[index_of(adv) + s],
                    i + 1,
                ) by {
                    assert(decode_symbol(lens, low_bits((j + 4096 * s) as u64, 15)) != Some(i));
                    assert(long_entry(lens, j, adv, table.secondary_table@, i));
                    assert(secondary_entry(
                        lens,
                        (j + 4096 * s) as u64,
                        table.secondary_table@[index_of(adv) + s],
                        i,
                    ));
                }
            }
        }
    }
}

/// The 12 low bits of `x` are those of `j`.
pub proof fn lemma_low_window(j: u64, s: u64, x: u64)
    requires
        j < 4096,
        s < 8,
        x == j + 4096 * s,
    ensures
        low_bits(x, 12) == low_bits(j, 12),
        low_bits(x, 15).take(12) == low_bits(j, 12),
{
    assert(x & (((1u64 << 12) - 1) as u64) == j) by (bit_vector)
        requires
            j < 4096,
            s < 8,
            x == j + 4096 * s,
    ;
    lemma_mask_bits(x, 12);
    assert(low_bits(x, 15).take(12) =~= low_bits(x, 12));
}

} // verus!
