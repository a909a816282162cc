//! Where a call that reads a part of a stream stops.
//!
//! A call takes steps as long as there is input and space for the output. In compressed data it
//! looks up 12 bits at a time, which may yield several literals at once.
use crate::adler::lemma_adler_concat;
use crate::error::DecompressionError;
use crate::format::{
    advance, block_header_step, code_lengths_step, compressed_step, decode, emit, fails,
    law_decode_resumes, lemma_reaches_self, lemma_reaches_step, lemma_reaches_trans,
    lemma_step_progress, rank, reaches, starved, step, Config, Phase, Step, LITLEN_LOOKAHEAD,
};
use crate::huffman::{
    canonical_code, decode_symbol, lemma_decode_symbol, lemma_symbol_extend, symbol_at,
};
use crate::laws::{law_outcomes, law_output_grows};
use crate::litlen_table::lemma_code_value_zero;
use crate::output::holds;
use crate::tables::lemma_length_symbol;
use vstd::prelude::*;

verus! {

/// `n` zero bytes.
pub open spec fn zeros(n: nat) -> Seq<u8> {
    Seq::new(n, |i: int| 0u8)
}

/// The bits from `start` up to `end` are zero.
pub open spec fn zero_between(bits: Seq<bool>, start: int, end: int) -> bool {
    forall|k: int| start <= k < end ==> !#[trigger] bits[k]
}

/// How often `zero_len` zero bits come in a row from bit `start` on.
pub open spec fn zero_count(bits: Seq<bool>, start: int, zero_len: int) -> nat
    decreases bits.len() - start,
{
    if zero_len <= 0 || start + zero_len > bits.len() || !zero_between(
        bits,
        start,
        start + zero_len,
    ) {
        0
    } else {
        1 + zero_count(bits, start + zero_len, zero_len)
    }
}

/// The length of the code word of the literal zero, if it has only zero bits, or else zero.
pub open spec fn zero_length(lens: Seq<u8>) -> int {
    if lens[0] > 0 && canonical_code(lens, 0) == 0 {
        lens[0] as int
    } else {
        0
    }
}

/// The literals that one lookup of 12 bits yields, and how many of the bits they take: the first
/// literal; a second one, if the first takes no more than nine bits; and all literals zero after
/// them, if their code words have only zero bits. `None` if the bits do not begin with a literal.
pub open spec fn lookup(lens: Seq<u8>, bits: Seq<bool>) -> Option<(Seq<u8>, int)> {
    let z = zero_length(lens);
    match decode_symbol(lens, bits) {
        Some(i) if i < 256 => {
            let l = lens[i] as int;
            match decode_symbol(lens, bits.skip(l)) {
                Some(k) if k < 256 && l <= 9 => {
                    let n = l + lens[k];
                    let e = zero_count(bits, n, z);
                    Some((seq![i as u8, k as u8] + zeros(e), n + e * z))
                },
                _ => {
                    let e = zero_count(bits, l, z);
                    Some((seq![i as u8] + zeros(e), l + e * z))
                },
            }
        },
        _ => None,
    }
}

/// Zeros that are counted are there.
pub proof fn lemma_zero_count_fits(bits: Seq<bool>, start: int, zero_len: int)
    requires
        start <= bits.len(),
        zero_len >= 0,
    ensures
        0 <= zero_count(bits, start, zero_len) * zero_len <= bits.len() - start,
    decreases bits.len() - start,
{
    let e = zero_count(bits, start, zero_len);
    if e == 0 {
        assert(e * zero_len == 0) by (nonlinear_arith)
            requires
                e == 0,
        ;
    } else {
        let d = (e - 1) as nat;
        lemma_zero_count_fits(bits, start + zero_len, zero_len);
        assert(e * zero_len == d * zero_len + zero_len) by (nonlinear_arith)
            requires
                e == d + 1,
        ;
    }
}

/// A lookup yields a literal, and takes bits.
pub proof fn lemma_lookup_bits(lens: Seq<u8>, bits: Seq<bool>)
    ensures
        lookup(lens, bits) matches Some((run, n)) ==> run.len() >= 1 && 1 <= n <= bits.len(),
{
    if let Some(i) = decode_symbol(lens, bits) {
        assert(symbol_at(lens, bits, i));
        let l = lens[i] as int;
        let z = zero_length(lens);
        lemma_zero_count_fits(bits, l, z);
        if let Some(k) = decode_symbol(lens, bits.skip(l)) {
            assert(symbol_at(lens, bits.skip(l), k));
            lemma_zero_count_fits(bits, l + lens[k], z);
        }
    }
}

/// Where a call that starts in state `c` stops, when the buffer has space for `len` bytes of output
/// in all.
///
/// It stops for want of input, at an error, at the end of the stream, and when there is output that
/// does not fit. Otherwise it takes the literals that a lookup yields, or else one step. What does
/// not fit is taken all the same and waits to be written, with these exceptions: a literal or a
/// stored byte is not taken when the buffer is full; and with less than two bytes of space left, the
/// literals of a lookup are taken only when they fill it, and are the last.
#[verifier::opaque]
pub open spec fn read_end(c: Config, len: nat) -> Config
    decreases c.bits.len(), rank(c.phase),
    via read_end_decreases
{
    if starved(c) || c.out.len() > len {
        c
    } else {
        match literals_next(c) {
            Some((run, n)) => {
                let d = emit(advance(c, c.phase, n), run);
                if c.out.len() + 2 <= len {
                    read_end(d, len)
                } else if c.out.len() + run.len() == len {
                    d
                } else {
                    c
                }
            },
            None => match step(c) {
                Step::Next(d) => if c.out.len() == len && d.out.len() == len + 1 {
                    c
                } else {
                    read_end(d, len)
                },
                _ => c,
            },
        }
    }
}

/// The literals that come next in compressed data, as far as one lookup yields them.
pub open spec fn literals_next(c: Config) -> Option<(Seq<u8>, int)> {
    match c.phase {
        Phase::Compressed { last, litlen, dist } => if c.bits.len() >= 12 {
            lookup(litlen, c.bits.take(12))
        } else {
            None
        },
        _ => None,
    }
}

#[via_fn]
proof fn read_end_decreases(c: Config, len: nat) {
    if let Phase::Compressed { last, litlen, dist } = c.phase {
        if c.bits.len() >= 12 {
            lemma_lookup_bits(litlen, c.bits.take(12));
        }
    }
    if let Step::Next(d) = step(c) {
        lemma_step_progress(c);
    }
}

/// A call that starts in state `c` gets to `d`. It stops there, or goes on if there is `more`.
pub open spec fn proceeds(c: Config, d: Config, len: nat, more: bool) -> bool {
    read_end(c, len) == if more {
        read_end(d, len)
    } else {
        d
    }
}

/// A call that starts in state `c` comes to the error `e`, with the output `out`.
pub open spec fn fails_at(c: Config, e: DecompressionError, len: nat, out: Seq<u8>) -> bool {
    let d = read_end(c, len);
    reaches(c, d) && step(d) == Step::Fail(e) && d.out == out
}

/// A call that starts in state `c` comes to the error `e`, when all output is in the buffer
/// `output`.
pub open spec fn fails_with(c: Config, e: DecompressionError, output: Seq<u8>) -> bool {
    let d = read_end(c, output.len());
    reaches(c, d) && step(d) == Step::Fail(e) && holds(output, d.out)
}

/// A call that starts in state `c` comes to where the input runs short, when all output is in the
/// buffer `output` and at least two bytes of it are left.
pub open spec fn runs_short(c: Config, output: Seq<u8>) -> bool {
    let d = read_end(c, output.len());
    reaches(c, d) && starved(d) && holds(output, d.out) && d.out.len() + 2 <= output.len()
}

/// A call that gets to a state that leads to an error comes to that error.
pub proof fn lemma_fails_with(c: Config, d: Config, e: DecompressionError, output: Seq<u8>)
    requires
        reaches(c, d),
        proceeds(c, d, output.len(), true),
        fails_with(d, e, output),
    ensures
        fails_with(c, e, output),
        fails(c, e),
{
    lemma_reaches_trans(c, d, read_end(d, output.len()));
}

/// A step other than a literal.
pub proof fn lemma_read_step(c: Config, d: Config, len: nat)
    requires
        step(c) == Step::Next(d),
        !starved(c),
        literals_next(c) is None,
        c.out.len() < len || (c.out.len() == len && d.out.len() != len + 1),
    ensures
        proceeds(c, d, len, true),
{
    reveal_with_fuel(read_end, 1);
}

/// Where there is no step to take.
pub proof fn lemma_read_stop(c: Config, len: nat)
    requires
        ({
            ||| starved(c)
            ||| c.out.len() > len
            ||| literals_next(c) is None && match step(c) {
                Step::Next(d) => c.out.len() == len && d.out.len() == len + 1,
                _ => true,
            }
        }),
    ensures
        proceeds(c, c, len, false),
{
    reveal_with_fuel(read_end, 1);
}

/// A symbol that the first bits begin with.
proof fn lemma_prefix_symbol(lens: Seq<u8>, bits: Seq<bool>, n: int)
    requires
        0 <= n <= bits.len(),
    ensures
        decode_symbol(lens, bits.take(n)) matches Some(i) ==> decode_symbol(lens, bits) == Some(i),
{
    if let Some(i) = decode_symbol(lens, bits.take(n)) {
        assert(symbol_at(lens, bits.take(n), i));
        lemma_symbol_extend(lens, bits.take(n), bits.skip(n), i);
        assert(bits.take(n) + bits.skip(n) =~= bits);
        lemma_decode_symbol(lens, bits, i);
    }
}

/// The literals of a lookup.
pub proof fn lemma_read_run(c: Config, run: Seq<u8>, n: int, len: nat)
    requires
        literals_next(c) == Some((run, n)),
        c.bits.len() >= LITLEN_LOOKAHEAD,
        c.out.len() <= len,
    ensures
        ({
            let d = emit(advance(c, c.phase, n), run);
            if c.out.len() + 2 <= len {
                proceeds(c, d, len, true)
            } else if c.out.len() + run.len() == len {
                proceeds(c, d, len, false)
            } else {
                proceeds(c, c, len, false)
            }
        }),
{
    reveal(compressed_step);
    reveal_with_fuel(read_end, 1);
    lemma_prefix_symbol(c.phase->Compressed_litlen, c.bits, 12);
}

/// A back reference is longer than a byte.
pub proof fn lemma_back_reference(c: Config, d: Config)
    requires
        c.phase matches Phase::Compressed { last, litlen, dist } && (decode_symbol(
            litlen,
            c.bits,
        ) matches Some(symbol) && 257 <= symbol <= 285),
        step(c) == Step::Next(d),
    ensures
        d.out.len() >= c.out.len() + 3,
{
    reveal(compressed_step);
    lemma_length_symbol(decode_symbol(c.phase->Compressed_litlen, c.bits)->Some_0 - 257);
}

/// A literal is a step.
pub proof fn lemma_literal_step(c: Config, byte: u8)
    requires
        c.phase matches Phase::Compressed { last, litlen, dist } && symbol_at(
            litlen,
            c.bits,
            byte as int,
        ),
    ensures
        ({
            let n = c.phase->Compressed_litlen[byte as int] as int;
            let d = emit(advance(c, c.phase, n), seq![byte]);
            step(c) == Step::Next(d) && reaches(c, d)
        }),
{
    reveal(compressed_step);
    lemma_decode_symbol(c.phase->Compressed_litlen, c.bits, byte as int);
    lemma_reaches_self(c);
    lemma_reaches_step(
        c,
        c,
        emit(advance(c, c.phase, c.phase->Compressed_litlen[byte as int] as int), seq![byte]),
    );
}

/// Output after output.
proof fn lemma_emit_more(c: Config, phase: Phase, m: int, n: int, run: Seq<u8>, more: Seq<u8>)
    requires
        0 <= m <= n <= c.bits.len(),
    ensures
        emit(advance(emit(advance(c, phase, m), run), phase, n - m), more) == emit(
            advance(c, phase, n),
            run + more,
        ),
{
    assert(c.bits.skip(m).skip(n - m) =~= c.bits.skip(n));
    assert(c.out + run + more =~= c.out + (run + more));
    lemma_adler_concat(c.sum, run, more);
}

/// Literals zero that a lookup finds after others are as many steps.
proof fn lemma_zeros_reach(c: Config, run: Seq<u8>, start: int)
    requires
        c.phase matches Phase::Compressed { last, litlen, dist } && litlen.len() > 0,
        c.bits.len() >= 12,
        0 <= start <= 12,
    ensures
        ({
            let z = zero_length(c.phase->Compressed_litlen);
            let e = zero_count(c.bits.take(12), start, z);
            reaches(
                emit(advance(c, c.phase, start), run),
                emit(advance(c, c.phase, start + e * z), run + zeros(e)),
            )
        }),
    decreases 12 - start,
{
    let litlen = c.phase->Compressed_litlen;
    let z = zero_length(litlen);
    let w = c.bits.take(12);
    let e = zero_count(w, start, z);
    let d = emit(advance(c, c.phase, start), run);
    if e == 0 {
        assert(e * z == 0) by (nonlinear_arith)
            requires
                e == 0,
        ;
        assert(run + zeros(0) =~= run);
        lemma_reaches_self(d);
    } else {
        let word = d.bits.take(z);
        assert forall|k: int| 0 <= k < z implies !#[trigger] word[k] by {
            assert(word[k] == w[start + k]);
        }
        lemma_code_value_zero(word);
        assert(symbol_at(litlen, d.bits, 0));
        lemma_literal_step(d, 0);
        lemma_emit_more(c, c.phase, start, start + z, run, seq![0u8]);
        lemma_zeros_reach(c, run + seq![0u8], start + z);
        let f = zero_count(w, start + z, z);
        assert(e * z == z + f * z) by (nonlinear_arith)
            requires
                e == f + 1,
        ;
        assert(run + seq![0u8] + zeros(f) =~= run + zeros(e));
        lemma_reaches_trans(
            d,
            emit(advance(c, c.phase, start + z), run + seq![0u8]),
            emit(advance(c, c.phase, start + e * z), run + zeros(e)),
        );
    }
}

/// The literals of a lookup are as many steps.
proof fn lemma_literals_reach(c: Config)
    ensures
        literals_next(c) matches Some((run, n)) ==> reaches(
            c,
            emit(advance(c, c.phase, n), run),
        ),
{
    if let Some((run, n)) = literals_next(c) {
        let litlen = c.phase->Compressed_litlen;
        let w = c.bits.take(12);
        let i = decode_symbol(litlen, w)->Some_0;
        let l = litlen[i] as int;
        assert(symbol_at(litlen, w, i));
        lemma_symbol_extend(litlen, w, c.bits.skip(12), i);
        assert(w + c.bits.skip(12) =~= c.bits);
        lemma_literal_step(c, i as u8);
        let first = seq![i as u8];
        let d = emit(advance(c, c.phase, l), first);
        let v = w.skip(l);
        match decode_symbol(litlen, v) {
            Some(k) if k < 256 && l <= 9 => {
                assert(symbol_at(litlen, v, k));
                lemma_symbol_extend(litlen, v, c.bits.skip(12), k);
                assert(v + c.bits.skip(12) =~= d.bits);
                lemma_literal_step(d, k as u8);
                let both = seq![i as u8, k as u8];
                let m = l + litlen[k];
                assert(first + seq![k as u8] =~= both);
                lemma_emit_more(c, c.phase, l, m, first, seq![k as u8]);
                lemma_reaches_trans(c, d, emit(advance(c, c.phase, m), both));
                lemma_zeros_reach(c, both, m);
                lemma_reaches_trans(
                    c,
                    emit(advance(c, c.phase, m), both),
                    emit(advance(c, c.phase, n), run),
                );
            },
            _ => {
                lemma_zeros_reach(c, first, l);
                lemma_reaches_trans(c, d, emit(advance(c, c.phase, n), run));
            },
        }
    }
}

/// A call takes steps of the format, and stops only at the end of the stream, at an error, for want
/// of input, or when no more than one byte of space is left.
pub proof fn law_read_end(c: Config, len: nat)
    ensures
        ({
            let d = read_end(c, len);
            &&& reaches(c, d)
            &&& d.phase is Done || step(d) is Fail || starved(d) || d.out.len() + 2 > len
        }),
    decreases c.bits.len(), rank(c.phase),
{
    reveal_with_fuel(read_end, 1);
    lemma_reaches_self(c);
    assert(step(c) is Finished ==> c.phase is Done) by {
        reveal(block_header_step);
        reveal(code_lengths_step);
        reveal(compressed_step);
    }
    if !starved(c) && c.out.len() <= len {
        match literals_next(c) {
            Some((run, n)) => {
                let d = emit(advance(c, c.phase, n), run);
                lemma_literals_reach(c);
                lemma_lookup_bits(c.phase->Compressed_litlen, c.bits.take(12));
                if c.out.len() + 2 <= len {
                    law_read_end(d, len);
                    lemma_reaches_trans(c, d, read_end(d, len));
                }
            },
            None => if let Step::Next(d) = step(c) {
                lemma_step_progress(c);
                lemma_reaches_step(c, c, d);
                if c.out.len() < len || d.out.len() != len + 1 {
                    law_read_end(d, len);
                    lemma_reaches_trans(c, d, read_end(d, len));
                }
            },
        }
    }
}

/// What gives no output is read however little space is left.
pub proof fn law_reads_on(c: Config, d: Config, len: nat)
    requires
        step(c) == Step::Next(d),
        !starved(c),
        c.out.len() <= len,
        d.out == c.out,
    ensures
        read_end(c, len) == read_end(d, len),
{
    reveal_with_fuel(read_end, 1);
    if c.phase is Compressed {
        reveal(compressed_step);
        lemma_prefix_symbol(c.phase->Compressed_litlen, c.bits, 12);
        if let Some(i) = decode_symbol(c.phase->Compressed_litlen, c.bits) {
            if i < 256 {
                assert(d.out.len() == c.out.len() + 1);
            }
        }
    }
}

/// A single byte is not read when there is no space for it.
pub proof fn law_no_space(c: Config, d: Config)
    requires
        step(c) == Step::Next(d),
        d.out.len() == c.out.len() + 1,
    ensures
        read_end(c, c.out.len()) == c,
{
    reveal_with_fuel(read_end, 1);
    if let Some((run, n)) = literals_next(c) {
        lemma_lookup_bits(c.phase->Compressed_litlen, c.bits.take(12));
    }
}

/// With space for one more byte, and literals next, at most one of them is read.
pub proof fn law_last_byte(c: Config, run: Seq<u8>, n: int)
    requires
        literals_next(c) == Some((run, n)),
        c.bits.len() >= LITLEN_LOOKAHEAD,
    ensures
        ({
            let d = read_end(c, c.out.len() + 1);
            d == c || d.out == c.out.push(run[0])
        }),
{
    lemma_read_run(c, run, n, c.out.len() + 1);
    lemma_lookup_bits(c.phase->Compressed_litlen, c.bits.take(12));
    if run.len() == 1 {
        assert(c.out + run =~= c.out.push(run[0]));
    }
}

/// With space for two bytes more than a stream decodes to, one call reads all of it.
pub proof fn law_reads_all(c: Config, out: Seq<u8>, len: nat)
    requires
        decode(c) == Ok::<Seq<u8>, DecompressionError>(out),
        out.len() + 2 <= len,
    ensures
        read_end(c, len).phase is Done,
        read_end(c, len).out == out,
{
    let d = read_end(c, len);
    law_read_end(c, len);
    law_decode_resumes(c, d);
    law_outcomes(d);
    let e = choose|e: Config| #[trigger] reaches(d, e) && e.phase is Done && e.out == out;
    law_output_grows(d, e);
}

} // verus!
