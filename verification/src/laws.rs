//! What holds of decoding as a whole.
use crate::adler::{adler32, adler_update, lemma_adler_concat};
use crate::bits::{byte_bits, lemma_byte_bits_concat, lemma_value_bound, value};
use crate::error::DecompressionError;
use crate::format::{
    advance, block_header_step, clcl_lengths, code_lengths_step, compressed_step, copied, decode,
    emit, fails, law_decode_resumes, lemma_fails_decode, lemma_fails_trans, lemma_reaches_self,
    lemma_reaches_step, lemma_reaches_trans, lemma_step_progress, rank, reaches, start, starved,
    step, steps, took_step, Config, Phase, Step,
};
use crate::huffman::{
    decode_symbol, lemma_decode_symbol, lemma_symbol_extend, symbol_at, valid_lengths,
};
use crate::tables::{
    lemma_distance_symbol, lemma_fixed_complete, lemma_length_symbol, DIST_SYM_TO_DIST_BASE,
    DIST_SYM_TO_DIST_EXTRA, LEN_SYM_TO_LEN_BASE, LEN_SYM_TO_LEN_EXTRA,
};
use vstd::arithmetic::power2::lemma2_to64;
use vstd::prelude::*;

verus! {

/// The codes of a state are ones that the format allows.
pub open spec fn valid(c: Config) -> bool {
    match c.phase {
        Phase::CodeLengths { last, hlit, hdist, clcl, lens } => {
            &&& forall|i: int| 0 <= i < clcl.len() ==> #[trigger] clcl[i] <= 7
            &&& valid_lengths(lens)
            &&& lens.len() <= hlit + hdist
            &&& hlit <= 286
            &&& hdist <= 30
        },
        Phase::Compressed { last, litlen, dist } => {
            &&& valid_lengths(litlen)
            &&& valid_lengths(dist)
            &&& litlen.len() == 288
            &&& dist.len() == 32
        },
        _ => true,
    }
}

/// The same state with more input to come.
pub open spec fn extended(c: Config, more: Seq<bool>) -> Config {
    Config { bits: c.bits + more, ..c }
}

/// When code words are no longer than the bits that are there, more bits change nothing.
proof fn lemma_decode_extend(lens: Seq<u8>, bits: Seq<bool>, more: Seq<bool>)
    requires
        decode_symbol(lens, bits) is Some || forall|i: int|
            0 <= i < lens.len() ==> #[trigger] lens[i] <= bits.len(),
    ensures
        decode_symbol(lens, bits + more) == decode_symbol(lens, bits),
{
    match decode_symbol(lens, bits) {
        Some(i) => {
            assert(symbol_at(lens, bits, i));
            lemma_symbol_extend(lens, bits, more, i);
            lemma_decode_symbol(lens, bits + more, i);
        },
        None => {
            if let Some(i) = decode_symbol(lens, bits + more) {
                assert(symbol_at(lens, bits + more, i));
                assert(lens[i] <= bits.len());
                assert((bits + more).take(lens[i] as int) =~= bits.take(lens[i] as int));
                assert(symbol_at(lens, bits, i));
            }
        },
    }
}

proof fn lemma_clcl_extend(bits: Seq<bool>, more: Seq<bool>, n: int)
    requires
        3 * n <= bits.len(),
    ensures
        clcl_lengths(bits + more, n) == clcl_lengths(bits, n),
    decreases n,
{
    if n > 0 {
        lemma_clcl_extend(bits, more, n - 1);
        assert((bits + more).subrange(3 * (n - 1), 3 * n) =~= bits.subrange(3 * (n - 1), 3 * n));
    }
}

/// What a step leads to when more input follows.
pub open spec fn extended_step(s: Step, more: Seq<bool>) -> Step {
    match s {
        Step::Next(d) => Step::Next(extended(d, more)),
        _ => s,
    }
}

proof fn lemma_subrange_extend(bits: Seq<bool>, more: Seq<bool>, i: int, j: int)
    requires
        0 <= i <= j <= bits.len(),
    ensures
        (bits + more).subrange(i, j) == bits.subrange(i, j),
{
    assert((bits + more).subrange(i, j) =~= bits.subrange(i, j));
}

proof fn lemma_skip_extend(bits: Seq<bool>, more: Seq<bool>, i: int)
    requires
        0 <= i <= bits.len(),
    ensures
        (bits + more).skip(i) == bits.skip(i) + more,
{
    assert((bits + more).skip(i) =~= bits.skip(i) + more);
}

proof fn lemma_block_header_extend(c: Config, more: Seq<bool>)
    requires
        more.len() % 8 == 0,
        !(block_header_step(c) is NeedInput),
    ensures
        block_header_step(extended(c, more)) == extended_step(block_header_step(c), more),
{
    reveal(block_header_step);
    let b = c.bits;
    lemma_subrange_extend(b, more, 1, 3);
    lemma_skip_extend(b, more, 3);
    let pad = (b.len() - 3) % 8;
    assert((b.len() + more.len() - 3) % 8 == pad);
    if b.len() >= 35 + pad {
        lemma_subrange_extend(b, more, 3 + pad, 19 + pad);
        lemma_subrange_extend(b, more, 19 + pad, 35 + pad);
        lemma_skip_extend(b, more, 35 + pad);
    }
    if b.len() >= 17 {
        lemma_subrange_extend(b, more, 3, 8);
        lemma_subrange_extend(b, more, 8, 13);
        lemma_subrange_extend(b, more, 13, 17);
        lemma_skip_extend(b, more, 17);
        let hclen = value(b.subrange(13, 17)) + 4;
        if b.len() >= 17 + 3 * hclen {
            lemma_clcl_extend(b.skip(17), more, hclen as int);
            lemma_skip_extend(b, more, (17 + 3 * hclen) as int);
        }
    }
}

proof fn lemma_code_lengths_extend(c: Config, more: Seq<bool>)
    requires
        valid(c),
        c.phase is CodeLengths,
        !(step(c) is NeedInput),
    ensures
        step(extended(c, more)) == extended_step(step(c), more),
{
    reveal(code_lengths_step);
    if let Phase::CodeLengths { last, hlit, hdist, clcl, lens } = c.phase {
        let b = c.bits;
        if lens.len() < hlit + hdist {
            lemma_decode_extend(clcl, b, more);
            if let Some(i) = decode_symbol(clcl, b) {
                assert(symbol_at(clcl, b, i));
                let n = clcl[i] as int;
                lemma_skip_extend(b, more, n);
                let m = n + crate::format::repeat_extra(i);
                if b.len() >= m {
                    lemma_subrange_extend(b, more, n, m);
                    lemma_skip_extend(b, more, m);
                }
            }
        }
    }
}

#[verifier::rlimit(40)]
proof fn lemma_compressed_extend(c: Config, more: Seq<bool>)
    requires
        valid(c),
        c.phase is Compressed,
        !(step(c) is NeedInput),
    ensures
        step(extended(c, more)) == extended_step(step(c), more),
{
    reveal(compressed_step);
    if let Phase::Compressed { last, litlen, dist } = c.phase {
        let b = c.bits;
        lemma_decode_extend(litlen, b, more);
        if let Some(i) = decode_symbol(litlen, b) {
            assert(symbol_at(litlen, b, i));
            let n = litlen[i] as int;
            lemma_skip_extend(b, more, n);
            if 257 <= i <= 285 {
                let m = n + LEN_SYM_TO_LEN_EXTRA[i - 257];
                let rest = b.skip(m);
                lemma_subrange_extend(b, more, n, m);
                lemma_skip_extend(b, more, m);
                lemma_decode_extend(dist, rest, more);
                if let Some(d) = decode_symbol(dist, rest) {
                    assert(symbol_at(dist, rest, d));
                    let k = dist[d] as int;
                    if d < 30 {
                        let e = k + DIST_SYM_TO_DIST_EXTRA[d];
                        if rest.len() >= e {
                            lemma_subrange_extend(rest, more, k, e);
                            lemma_skip_extend(b, more, m + e);
                        }
                    }
                }
            }
        }
    }
}

/// A step that does not need more input stays the same when more input follows.
#[verifier::rlimit(40)]
pub proof fn lemma_step_extend(c: Config, more: Seq<bool>)
    requires
        valid(c),
        more.len() % 8 == 0,
        !(step(c) is NeedInput),
    ensures
        step(extended(c, more)) == extended_step(step(c), more),
{
    let b = c.bits;
    match c.phase {
        Phase::ZlibHeader => {
            assert((b + more).take(8) =~= b.take(8));
            lemma_subrange_extend(b, more, 8, 16);
            lemma_skip_extend(b, more, 16);
        },
        Phase::BlockHeader => {
            lemma_block_header_extend(c, more);
        },
        Phase::CodeLengths { .. } => {
            lemma_code_lengths_extend(c, more);
        },
        Phase::Compressed { .. } => {
            lemma_compressed_extend(c, more);
        },
        Phase::Stored { last, left } => {
            if left > 0 {
                assert((b + more).take(8) =~= b.take(8));
                lemma_skip_extend(b, more, 8);
            }
        },
        Phase::Checksum => {
            let pad = b.len() as int % 8;
            assert((b + more).len() as int % 8 == pad);
            lemma_subrange_extend(b, more, pad, pad + 8);
            lemma_subrange_extend(b, more, pad + 8, pad + 16);
            lemma_subrange_extend(b, more, pad + 16, pad + 24);
            lemma_subrange_extend(b, more, pad + 24, pad + 32);
            lemma_skip_extend(b, more, 32 + pad);
        },
        Phase::Done => {},
    }
}

proof fn lemma_clcl_valid(bits: Seq<bool>, n: int)
    requires
        n <= 19,
        3 * n <= bits.len(),
    ensures
        clcl_lengths(bits, n).len() == 19,
        forall|i: int| 0 <= i < 19 ==> #[trigger] clcl_lengths(bits, n)[i] <= 7,
    decreases n,
{
    if n > 0 {
        lemma_clcl_valid(bits, n - 1);
        lemma_value_bound(bits.subrange(3 * (n - 1), 3 * n));
        lemma2_to64();
    }
}

/// A step from a valid state leads to a valid state.
pub proof fn lemma_step_valid(c: Config)
    requires
        valid(c),
    ensures
        step(c) matches Step::Next(d) ==> valid(d),
{
    match c.phase {
        Phase::BlockHeader => {
            reveal(block_header_step);
            lemma_fixed_complete();
            if c.bits.len() >= 17 {
                lemma_value_bound(c.bits.subrange(13, 17));
                lemma2_to64();
                let hclen = value(c.bits.subrange(13, 17)) + 4;
                if c.bits.len() >= 17 + 3 * hclen {
                    lemma_clcl_valid(c.bits.skip(17), hclen as int);
                }
            }
        },
        Phase::CodeLengths { last, hlit, hdist, clcl, lens } => {
            reveal(code_lengths_step);
        },
        Phase::Compressed { .. } => {
            reveal(compressed_step);
        },
        _ => {},
    }
}

proof fn lemma_steps_extend(c: Config, n: nat, more: Seq<bool>)
    requires
        valid(c),
        more.len() % 8 == 0,
    ensures
        steps(c, n) matches Some(d) ==> valid(d) && steps(extended(c, more), n) == Some(
            extended(d, more),
        ),
    decreases n,
{
    if n > 0 {
        lemma_steps_extend(c, (n - 1) as nat, more);
        if let Some(d) = steps(c, (n - 1) as nat) {
            if let Step::Next(e) = step(d) {
                lemma_step_valid(d);
                lemma_step_extend(d, more);
            }
        }
    }
}

/// Input that comes later does not change what has been decoded: the same steps are taken when it
/// is there from the beginning.
pub proof fn law_more_input(c: Config, d: Config, more: Seq<u8>)
    requires
        valid(c),
        reaches(c, d),
    ensures
        valid(d),
        reaches(extended(c, byte_bits(more)), extended(d, byte_bits(more))),
{
    reveal(reaches);
    let n = choose|n: nat| steps(c, n) == Some(d);
    lemma_steps_extend(c, n, byte_bits(more));
    assert(steps(extended(c, byte_bits(more)), n) == Some(extended(d, byte_bits(more))));
}

/// The header of a block can be read in two calls. A first call that finds `c` leads to `mid` and
/// `first`. When not all of the header was there, it changes nothing, and a second call with more
/// input gives the result and the state that one call with all the input gives. When all of it was
/// there, one call with all the input gives the result and the state of the first.
pub proof fn law_header_in_parts(
    c: Config,
    more: Seq<u8>,
    mid: Config,
    first: Result<(), DecompressionError>,
    last: Config,
    second: Result<(), DecompressionError>,
    whole: Config,
    single: Result<(), DecompressionError>,
)
    requires
        c.phase is BlockHeader,
        took_step(c, mid, first),
        step(c) is NeedInput ==> took_step(extended(mid, byte_bits(more)), last, second),
        took_step(extended(c, byte_bits(more)), whole, single),
    ensures
        step(c) is NeedInput ==> {
            &&& first == Ok::<(), DecompressionError>(())
            &&& mid == c
            &&& second == single
            &&& single is Ok ==> last == whole
        },
        !(step(c) is NeedInput) ==> {
            &&& first == single
            &&& single is Ok ==> whole == extended(mid, byte_bits(more))
        },
{
    assert(first is Ok ==> first->Ok_0 == ());
    assert(second is Ok ==> second->Ok_0 == ());
    assert(single is Ok ==> single->Ok_0 == ());
    if !(step(c) is NeedInput) {
        lemma_step_extend(c, byte_bits(more));
    }
}

/// An error in the stream stays an error, whatever follows.
pub proof fn law_error_stays(c: Config, e: DecompressionError, more: Seq<u8>)
    requires
        valid(c),
        fails(c, e),
    ensures
        fails(extended(c, byte_bits(more)), e),
{
    let d = choose|d: Config| #[trigger] reaches(c, d) && step(d) == Step::Fail(e);
    law_more_input(c, d, more);
    lemma_step_extend(d, byte_bits(more));
    assert(reaches(extended(c, byte_bits(more)), extended(d, byte_bits(more))));
}

/// Decoding is finished only after the checksum.
proof fn lemma_finished(c: Config)
    requires
        step(c) is Finished,
    ensures
        c.phase is Done,
{
    reveal(block_header_step);
    reveal(code_lengths_step);
    reveal(compressed_step);
}

/// How decoding ends: at the end of the stream, at an error, or for want of input.
pub proof fn law_outcomes(c: Config)
    ensures
        match decode(c) {
            Ok(out) => exists|d: Config| #[trigger]
                reaches(c, d) && d.phase is Done && d.out == out,
            Err(DecompressionError::InsufficientInput) => exists|d: Config| #[trigger]
                reaches(c, d) && !(d.phase is Done) && starved(d),
            Err(e) => fails(c, e),
        },
    decreases c.bits.len(), rank(c.phase),
{
    lemma_reaches_self(c);
    if c.phase is Done {
    } else if starved(c) {
    } else {
        match step(c) {
            Step::Next(d) => {
                lemma_step_progress(c);
                law_outcomes(d);
                lemma_reaches_step(c, c, d);
                match decode(d) {
                    Ok(out) => {
                        let f = choose|f: Config| #[trigger]
                            reaches(d, f) && f.phase is Done && f.out == out;
                        lemma_reaches_trans(c, d, f);
                    },
                    Err(DecompressionError::InsufficientInput) => {
                        let f = choose|f: Config| #[trigger]
                            reaches(d, f) && !(f.phase is Done) && starved(f);
                        lemma_reaches_trans(c, d, f);
                    },
                    Err(e) => {
                        lemma_fails_trans(c, d, e);
                    },
                }
            },
            Step::Fail(e) => {
                assert(fails(c, e));
                lemma_fails_decode(c, e);
            },
            Step::NeedInput => {},
            Step::Finished => {
                lemma_finished(c);
            },
        }
    }
}

/// The result of decoding can change only while the input is incomplete: what follows the end of
/// a stream or an error does not matter.
pub proof fn law_result_stays(c: Config, more: Seq<u8>)
    requires
        valid(c),
        !(decode(c) matches Err(DecompressionError::InsufficientInput)),
    ensures
        decode(extended(c, byte_bits(more))) == decode(c),
{
    let b = byte_bits(more);
    law_outcomes(c);
    match decode(c) {
        Ok(out) => {
            let d = choose|d: Config| #[trigger]
                reaches(c, d) && d.phase is Done && d.out == out;
            law_more_input(c, d, more);
            law_decode_resumes(extended(c, b), extended(d, b));
        },
        Err(e) => {
            law_error_stays(c, e, more);
            lemma_fails_decode(extended(c, b), e);
        },
    }
}

/// Bytes after a stream are ignored.
pub proof fn law_trailing_data(input: Seq<u8>, more: Seq<u8>)
    requires
        !(decode(start(input)) matches Err(DecompressionError::InsufficientInput)),
    ensures
        decode(start(input + more)) == decode(start(input)),
{
    lemma_byte_bits_concat(input, more);
    law_result_stays(start(input), more);
}

/// `out` begins with the bytes of `start`.
pub open spec fn begins_with(out: Seq<u8>, start: Seq<u8>) -> bool {
    start.len() <= out.len() && out.take(start.len() as int) =~= start
}

proof fn lemma_step_output(c: Config)
    ensures
        step(c) matches Step::Next(d) ==> exists|bytes: Seq<u8>|
            d.out == c.out + bytes && d.sum == #[trigger] adler_update(c.sum, bytes),
{
    reveal(block_header_step);
    reveal(code_lengths_step);
    reveal(compressed_step);
    assert(c.out + Seq::<u8>::empty() =~= c.out);
    assert(adler_update(c.sum, Seq::<u8>::empty()) == c.sum);
}

proof fn lemma_steps_output(c: Config, n: nat)
    ensures
        steps(c, n) matches Some(d) ==> begins_with(d.out, c.out) && d.sum == adler_update(
            c.sum,
            d.out.skip(c.out.len() as int),
        ),
    decreases n,
{
    if n == 0 {
        assert(c.out.skip(c.out.len() as int) =~= Seq::<u8>::empty());
    } else {
        lemma_steps_output(c, (n - 1) as nat);
        if let Some(d) = steps(c, (n - 1) as nat) {
            if let Step::Next(e) = step(d) {
                lemma_step_output(d);
                let bytes = choose|bytes: Seq<u8>|
                    e.out == d.out + bytes && e.sum == #[trigger] adler_update(d.sum, bytes);
                let k = c.out.len() as int;
                assert(e.out.skip(k) =~= d.out.skip(k) + bytes);
                lemma_adler_concat(c.sum, d.out.skip(k), bytes);
            }
        }
    }
}

/// Output is never taken back: decoding only appends to it, and the checksum follows it.
pub proof fn law_output_grows(c: Config, d: Config)
    requires
        reaches(c, d),
    ensures
        begins_with(d.out, c.out),
        d.sum == adler_update(c.sum, d.out.skip(c.out.len() as int)),
{
    reveal(reaches);
    let n = choose|n: nat| steps(c, n) == Some(d);
    lemma_steps_output(c, n);
}

/// The checksum that a stream is held to is the Adler-32 checksum of all its output.
pub proof fn law_checksum(input: Seq<u8>, d: Config)
    requires
        reaches(start(input), d),
    ensures
        d.sum == adler32(d.out),
{
    law_output_grows(start(input), d);
    assert(d.out.skip(0) =~= d.out);
}

/// A step writes at most 129 bytes for each bit that it takes: a back reference of 258 bytes takes
/// at least one bit for its length and one for its distance.
proof fn lemma_step_expansion(c: Config)
    requires
        valid(c),
    ensures
        step(c) matches Step::Next(d) ==> d.out.len() + 129 * d.bits.len() <= c.out.len() + 129
            * c.bits.len(),
{
    reveal(block_header_step);
    match c.phase {
        Phase::CodeLengths { last, hlit, hdist, clcl, lens } => {
            reveal(code_lengths_step);
            if let Some(i) = decode_symbol(clcl, c.bits) {
                assert(symbol_at(clcl, c.bits, i));
            }
        },
        Phase::Compressed { last, litlen, dist } => {
            reveal(compressed_step);
            if let Some(i) = decode_symbol(litlen, c.bits) {
                assert(symbol_at(litlen, c.bits, i));
                if 257 <= i <= 285 {
                    let n = litlen[i] as int;
                    let m = n + LEN_SYM_TO_LEN_EXTRA[i - 257];
                    lemma_length_symbol(i - 257);
                    lemma2_to64();
                    if c.bits.len() >= m + 28 {
                        lemma_value_bound(c.bits.subrange(n, m));
                        let rest = c.bits.skip(m);
                        if let Some(d) = decode_symbol(dist, rest) {
                            assert(symbol_at(dist, rest, d));
                        }
                    }
                }
            }
        },
        _ => {},
    }
}

proof fn lemma_steps_expansion(c: Config, n: nat)
    requires
        valid(c),
    ensures
        steps(c, n) matches Some(d) ==> valid(d) && d.out.len() + 129 * d.bits.len()
            <= c.out.len() + 129 * c.bits.len(),
    decreases n,
{
    if n > 0 {
        lemma_steps_expansion(c, (n - 1) as nat);
        if let Some(d) = steps(c, (n - 1) as nat) {
            lemma_step_valid(d);
            lemma_step_expansion(d);
        }
    }
}

/// The output is at most 1032 times as long as the input.
pub proof fn law_expansion(input: Seq<u8>)
    ensures
        decode(start(input)) matches Ok(out) ==> out.len() <= 1032 * input.len(),
{
    if let Ok(out) = decode(start(input)) {
        law_outcomes(start(input));
        let d = choose|d: Config| #[trigger]
            reaches(start(input), d) && d.phase is Done && d.out == out;
        reveal(reaches);
        let n = choose|n: nat| steps(start(input), n) == Some(d);
        lemma_steps_expansion(start(input), n);
    }
}

/// The size of the window that back references reach.
pub const WINDOW_SIZE: u16 = 32768;

/// Both outputs end with the same window.
pub open spec fn same_window(a: Seq<u8>, b: Seq<u8>) -> bool {
    &&& a.len() >= WINDOW_SIZE
    &&& b.len() >= WINDOW_SIZE
    &&& a.skip(a.len() - WINDOW_SIZE) =~= b.skip(b.len() - WINDOW_SIZE)
}

/// The state `d` that was reached from `c`, had `out` stood in place of the output of `c`.
pub open spec fn rebased(c: Config, d: Config, out: Seq<u8>) -> Config {
    Config { out: out + d.out.skip(c.out.len() as int), ..d }
}

proof fn lemma_emit_rebased(c: Config, d: Config, out: Seq<u8>, bytes: Seq<u8>)
    requires
        begins_with(d.out, c.out),
        same_window(d.out, rebased(c, d, out).out),
    ensures
        rebased(c, emit(d, bytes), out) == emit(rebased(c, d, out), bytes),
        begins_with(emit(d, bytes).out, c.out),
        same_window(emit(d, bytes).out, rebased(c, emit(d, bytes), out).out),
{
    let k = c.out.len() as int;
    assert((d.out + bytes).skip(k) =~= d.out.skip(k) + bytes);
    assert(out + (d.out.skip(k) + bytes) =~= out + d.out.skip(k) + bytes);
    let a = d.out;
    let b = rebased(c, d, out).out;
    let x = (a + bytes).skip((a + bytes).len() - WINDOW_SIZE);
    let y = (b + bytes).skip((b + bytes).len() - WINDOW_SIZE);
    assert forall|i: int| 0 <= i < WINDOW_SIZE implies #[trigger] x[i] == y[i] by {
        let j = i + bytes.len();
        if j < WINDOW_SIZE {
            assert(a.skip(a.len() - WINDOW_SIZE)[j] == b.skip(b.len() - WINDOW_SIZE)[j]);
        }
    }
}

#[verifier::rlimit(40)]
proof fn lemma_step_window(c: Config, d: Config, out: Seq<u8>)
    requires
        begins_with(d.out, c.out),
        same_window(d.out, rebased(c, d, out).out),
    ensures
        step(d) matches Step::Next(e) ==> {
            &&& step(rebased(c, d, out)) == Step::Next(rebased(c, e, out))
            &&& begins_with(e.out, c.out)
            &&& same_window(e.out, rebased(c, e, out).out)
        },
{
    reveal(block_header_step);
    let r = rebased(c, d, out);
    match d.phase {
        Phase::CodeLengths { last, hlit, hdist, clcl, lens } => {
            reveal(code_lengths_step);
        },
        Phase::Stored { last, left } => {
            if left > 0 {
                let next = Phase::Stored { last, left: (left - 1) as nat };
                let byte = value(d.bits.take(8)) as u8;
                lemma_emit_rebased(c, advance(d, next, 8), out, seq![byte]);
            }
        },
        Phase::Compressed { last, litlen, dist } => {
            reveal(compressed_step);
            if let Some(i) = decode_symbol(litlen, d.bits) {
                let n = litlen[i] as int;
                if i < 256 {
                    lemma_emit_rebased(c, advance(d, d.phase, n), out, seq![i as u8]);
                } else if 257 <= i <= 285 {
                    let m = n + LEN_SYM_TO_LEN_EXTRA[i - 257];
                    let rest = d.bits.skip(m);
                    if let Some(s) = decode_symbol(dist, rest) {
                        if s < 30 && d.bits.len() >= m + 28 {
                            let k = dist[s] as int;
                            let e = k + DIST_SYM_TO_DIST_EXTRA[s];
                            if rest.len() >= e {
                                lemma_distance_symbol(s);
                                lemma_value_bound(rest.subrange(k, e));
                                lemma2_to64();
                                let length = LEN_SYM_TO_LEN_BASE[i - 257] as nat + value(
                                    d.bits.subrange(n, m),
                                );
                                let distance = DIST_SYM_TO_DIST_BASE[s] as nat + value(
                                    rest.subrange(k, e),
                                );
                                lemma_copied_window(d.out, r.out, distance as int, length);
                                lemma_emit_rebased(
                                    c,
                                    advance(d, d.phase, m + e),
                                    out,
                                    copied(d.out, distance as int, length),
                                );
                            }
                        }
                    }
                }
            }
        },
        _ => {},
    }
}

proof fn lemma_copied_window(a: Seq<u8>, b: Seq<u8>, distance: int, length: nat)
    requires
        same_window(a, b),
        1 <= distance <= WINDOW_SIZE,
    ensures
        copied(a, distance, length) == copied(b, distance, length),
{
    assert forall|i: int| 0 <= i < length implies copied(a, distance, length)[i] == copied(
        b,
        distance,
        length,
    )[i] by {
        let j = WINDOW_SIZE - distance + i % distance;
        vstd::arithmetic::div_mod::lemma_mod_bound(i, distance);
        assert(a.skip(a.len() - WINDOW_SIZE)[j] == b.skip(b.len() - WINDOW_SIZE)[j]);
    }
    assert(copied(a, distance, length) =~= copied(b, distance, length));
}

proof fn lemma_steps_window(c: Config, n: nat, out: Seq<u8>)
    requires
        same_window(c.out, out),
    ensures
        steps(c, n) matches Some(d) ==> {
            &&& steps(Config { out, ..c }, n) == Some(rebased(c, d, out))
            &&& begins_with(d.out, c.out)
            &&& same_window(d.out, rebased(c, d, out).out)
        },
    decreases n,
{
    if n == 0 {
        assert(out + c.out.skip(c.out.len() as int) =~= out);
    } else {
        lemma_steps_window(c, (n - 1) as nat, out);
        if let Some(d) = steps(c, (n - 1) as nat) {
            lemma_step_window(c, d, out);
        }
    }
}

/// Output from before the last 32 KiB is not needed any more: with any other output that ends with
/// the same window, decoding goes on in the same way and appends the same bytes.
pub proof fn law_window(c: Config, d: Config, out: Seq<u8>)
    requires
        reaches(c, d),
        same_window(c.out, out),
    ensures
        reaches(Config { out, ..c }, rebased(c, d, out)),
{
    reveal(reaches);
    let n = choose|n: nat| steps(c, n) == Some(d);
    lemma_steps_window(c, n, out);
    assert(steps(Config { out, ..c }, n) == Some(rebased(c, d, out)));
}

} // verus!
