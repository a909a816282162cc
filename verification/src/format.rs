//! The zlib and deflate formats.
//!
//! Decoding is a sequence of steps, each of which takes some bits from the front of the stream and
//! may append bytes to the output. A step depends on the bits that come next, on where in the
//! format they stand ([`Phase`]) and on the output so far, which later parts of the stream may
//! refer back to.
use crate::adler::{adler_update, ADLER_INIT};
use crate::bits::{byte_bits, value};
use crate::error::DecompressionError;
use crate::huffman::{complete, decode_symbol, symbol_at};
use crate::tables::{
    fixed_dist_lengths, fixed_litlen_lengths, CLCL_ORDER, DIST_SYM_TO_DIST_BASE,
    DIST_SYM_TO_DIST_EXTRA, LEN_SYM_TO_LEN_BASE, LEN_SYM_TO_LEN_EXTRA,
};
use vstd::prelude::*;

verus! {

/// The place in the format that decoding has reached.
#[verifier::ext_equal]
pub enum Phase {
    /// Before the two bytes of the zlib header.
    ZlibHeader,
    /// Before a block.
    BlockHeader,
    /// In the header of a block with its own codes: `lens` holds the code lengths so far, of
    /// `hlit` literal/length symbols and then `hdist` distance symbols. They are written in the
    /// code with the lengths `clcl`.
    CodeLengths { last: bool, hlit: nat, hdist: nat, clcl: Seq<u8>, lens: Seq<u8> },
    /// In the data of a block with these literal/length and distance code lengths.
    Compressed { last: bool, litlen: Seq<u8>, dist: Seq<u8> },
    /// In a block that is stored as it is, with `left` bytes to go.
    Stored { last: bool, left: nat },
    /// After the last block, before the checksum.
    Checksum,
    /// After the checksum.
    Done,
}

/// A state of decoding.
#[verifier::ext_equal]
pub struct Config {
    pub phase: Phase,
    /// The bits that are left. The stream consists of whole bytes, so their number modulo 8 is the
    /// distance to the next byte boundary.
    pub bits: Seq<bool>,
    /// The output so far.
    pub out: Seq<u8>,
    /// The checksum of the output so far.
    pub sum: u32,
}

/// What a step leads to.
#[verifier::ext_equal]
pub enum Step {
    /// To another state.
    Next(Config),
    /// Nowhere, as long as there is no more input.
    NeedInput,
    /// To an error.
    Fail(DecompressionError),
    /// Nowhere: decoding is finished.
    Finished,
}

/// A literal/length symbol that is not a literal is decoded only when this many bits are left: as
/// many as the longest code word has. The checksum that follows the last block is longer.
pub const LITLEN_LOOKAHEAD: u8 = 15;

/// A back reference is decoded only when this many bits are left after its length: as many as the
/// longest distance has, with its extra bits.
pub const DISTANCE_LOOKAHEAD: u8 = 28;

/// A code length is decoded only when this many bits are left.
pub const CODE_LENGTH_LOOKAHEAD: u8 = 7;

/// The state before a stream.
pub open spec fn start(input: Seq<u8>) -> Config {
    Config {
        phase: Phase::ZlibHeader,
        bits: byte_bits(input),
        out: Seq::empty(),
        sum: ADLER_INIT,
    }
}

/// The same state in another place of the format, `n` bits further.
pub open spec fn advance(c: Config, phase: Phase, n: int) -> Config {
    Config { phase, bits: c.bits.skip(n), ..c }
}

/// The same state with more output.
pub open spec fn emit(c: Config, bytes: Seq<u8>) -> Config {
    Config { out: c.out + bytes, sum: adler_update(c.sum, bytes), ..c }
}

/// Where decoding goes on after a block.
pub open spec fn after_block(last: bool) -> Phase {
    if last {
        Phase::Checksum
    } else {
        Phase::BlockHeader
    }
}

/// The zlib header: compression method 8, a window of at most 32 KiB, no preset dictionary, and a
/// value that is a multiple of 31.
pub open spec fn valid_zlib_header(cmf: nat, flg: nat) -> bool {
    &&& cmf % 16 == 8
    &&& cmf / 16 <= 7
    &&& (flg / 32) % 2 == 0
    &&& (256 * cmf + flg) % 31 == 0
}

pub open spec fn zlib_header_step(c: Config) -> Step {
    if c.bits.len() < 16 {
        Step::NeedInput
    } else if valid_zlib_header(value(c.bits.take(8)), value(c.bits.subrange(8, 16))) {
        Step::Next(advance(c, Phase::BlockHeader, 16))
    } else {
        Step::Fail(DecompressionError::BadZlibHeader)
    }
}

#[verifier::opaque]
pub open spec fn block_header_step(c: Config) -> Step {
    if c.bits.len() < 3 {
        Step::NeedInput
    } else {
        let last = c.bits[0];
        let kind = value(c.bits.subrange(1, 3));
        if kind == 0 {
            stored_header_step(c, last)
        } else if kind == 1 {
            Step::Next(
                advance(
                    c,
                    Phase::Compressed {
                        last,
                        litlen: fixed_litlen_lengths(),
                        dist: fixed_dist_lengths(),
                    },
                    3,
                ),
            )
        } else if kind == 2 {
            dynamic_header_step(c, last)
        } else {
            Step::Fail(DecompressionError::InvalidBlockType)
        }
    }
}

/// A stored block: padding to a byte boundary, the number of bytes, and its complement.
pub open spec fn stored_header_step(c: Config, last: bool) -> Step {
    let pad = (c.bits.len() - 3) % 8;
    if c.bits.len() < 35 + pad {
        Step::NeedInput
    } else {
        let len = value(c.bits.subrange(3 + pad, 19 + pad));
        let nlen = value(c.bits.subrange(19 + pad, 35 + pad));
        if len + nlen != 0xffff {
            Step::Fail(DecompressionError::InvalidUncompressedBlockLength)
        } else {
            Step::Next(advance(c, Phase::Stored { last, left: len }, 35 + pad))
        }
    }
}

/// The lengths of the code length code from the first `n` of its three-bit fields.
pub open spec fn clcl_lengths(bits: Seq<bool>, n: int) -> Seq<u8>
    decreases n,
{
    if n <= 0 {
        Seq::new(19, |i: int| 0u8)
    } else {
        clcl_lengths(bits, n - 1).update(
            CLCL_ORDER[n - 1] as int,
            value(bits.subrange(3 * (n - 1), 3 * n)) as u8,
        )
    }
}

/// A block with its own codes: the numbers of symbols, and the code for the code lengths.
pub open spec fn dynamic_header_step(c: Config, last: bool) -> Step {
    if c.bits.len() < 17 {
        Step::NeedInput
    } else {
        let hlit = value(c.bits.subrange(3, 8)) + 257;
        let hdist = value(c.bits.subrange(8, 13)) + 1;
        let hclen = value(c.bits.subrange(13, 17)) + 4;
        if c.bits.len() < 17 + 3 * hclen {
            Step::NeedInput
        } else if hlit > 286 {
            Step::Fail(DecompressionError::InvalidHlit)
        } else if hdist > 30 {
            Step::Fail(DecompressionError::InvalidHdist)
        } else {
            let clcl = clcl_lengths(c.bits.skip(17), hclen as int);
            if !complete(clcl) {
                Step::Fail(DecompressionError::BadCodeLengthHuffmanTree)
            } else {
                let lens = Seq::<u8>::empty();
                Step::Next(
                    advance(
                        c,
                        Phase::CodeLengths { last, hlit, hdist, clcl, lens },
                        (17 + 3 * hclen) as int,
                    ),
                )
            }
        }
    }
}

/// The number of extra bits of a code length symbol from 16 on.
pub open spec fn repeat_extra(symbol: int) -> int {
    if symbol == 16 {
        2
    } else if symbol == 17 {
        3
    } else {
        7
    }
}

/// The smallest number of repetitions that a code length symbol from 16 on stands for.
pub open spec fn repeat_base(symbol: int) -> nat {
    if symbol == 18 {
        11
    } else {
        3
    }
}

/// One symbol of the code lengths: a length, or from symbol 16 on a repetition, of the length
/// before it (16) or of zero (17, 18).
#[verifier::opaque]
pub open spec fn code_lengths_step(
    c: Config,
    last: bool,
    hlit: nat,
    hdist: nat,
    clcl: Seq<u8>,
    lens: Seq<u8>,
) -> Step {
    if lens.len() >= hlit + hdist {
        compressed_start_step(c, last, hlit, lens)
    } else if c.bits.len() < CODE_LENGTH_LOOKAHEAD {
        Step::NeedInput
    } else {
        match decode_symbol(clcl, c.bits) {
            None => Step::Fail(DecompressionError::BadCodeLengthHuffmanTree),
            Some(symbol) => {
                let n = clcl[symbol] as int;
                if symbol < 16 {
                    let lens = lens.push(symbol as u8);
                    Step::Next(advance(c, Phase::CodeLengths { last, hlit, hdist, clcl, lens }, n))
                } else {
                    let m = n + repeat_extra(symbol);
                    if c.bits.len() < m {
                        Step::NeedInput
                    } else {
                        let count = repeat_base(symbol) + value(c.bits.subrange(n, m));
                        if symbol == 16 && lens.len() == 0 || lens.len() + count > hlit + hdist {
                            Step::Fail(DecompressionError::InvalidCodeLengthRepeat)
                        } else {
                            let length = if symbol == 16 {
                                lens.last()
                            } else {
                                0u8
                            };
                            let lens = lens + Seq::new(count, |i: int| length);
                            Step::Next(
                                advance(c, Phase::CodeLengths { last, hlit, hdist, clcl, lens }, m),
                            )
                        }
                    }
                }
            },
        }
    }
}

/// `lens` and zeros, `n` lengths in all.
pub open spec fn padded(lens: Seq<u8>, n: nat) -> Seq<u8> {
    Seq::new(
        n,
        |i: int|
            if i < lens.len() {
                lens[i]
            } else {
                0u8
            },
    )
}

/// How many of the first `n` symbols have a code word.
pub open spec fn count_used(lens: Seq<u8>, n: int) -> nat
    decreases n,
{
    if n <= 0 {
        0
    } else {
        count_used(lens, n - 1) + if lens[n - 1] > 0 {
            1nat
        } else {
            0
        }
    }
}

/// A distance code is complete, or has a single code word, or none.
pub open spec fn valid_distance_code(dist: Seq<u8>) -> bool {
    complete(dist) || count_used(dist, dist.len() as int) <= 1
}

/// The end of a block header, when all code lengths are known.
pub open spec fn compressed_start_step(c: Config, last: bool, hlit: nat, lens: Seq<u8>) -> Step {
    let litlen = padded(lens.take(hlit as int), 288);
    let dist = padded(lens.skip(hlit as int), 32);
    if !complete(litlen) {
        Step::Fail(DecompressionError::BadLiteralLengthHuffmanTree)
    } else if !valid_distance_code(dist) {
        Step::Fail(DecompressionError::BadDistanceHuffmanTree)
    } else {
        Step::Next(Config { phase: Phase::Compressed { last, litlen, dist }, ..c })
    }
}

/// One symbol of the data of a block: a literal, the end of the block, or a back reference.
#[verifier::opaque]
pub open spec fn compressed_step(c: Config, last: bool, litlen: Seq<u8>, dist: Seq<u8>) -> Step {
    match decode_symbol(litlen, c.bits) {
        Some(symbol) if symbol < 256 => Step::Next(
            emit(advance(c, c.phase, litlen[symbol] as int), seq![symbol as u8]),
        ),
        _ if c.bits.len() < LITLEN_LOOKAHEAD => Step::NeedInput,
        Some(symbol) if symbol == 256 => Step::Next(
            advance(c, after_block(last), litlen[symbol] as int),
        ),
        Some(symbol) if symbol <= 285 => back_reference_step(
            c,
            dist,
            litlen[symbol] as int,
            symbol - 257,
        ),
        _ => Step::Fail(DecompressionError::InvalidLiteralLengthCode),
    }
}

/// The `length` bytes from `distance` bytes before the end of `out` on, which go on with
/// themselves where they reach that end.
pub open spec fn copied(out: Seq<u8>, distance: int, length: nat) -> Seq<u8> {
    Seq::new(length, |i: int| out[out.len() - distance + i % distance])
}

/// A back reference: the `n` bits of length symbol `l`, its extra bits, a distance symbol, and its
/// extra bits.
pub open spec fn back_reference_step(c: Config, dist: Seq<u8>, n: int, l: int) -> Step {
    let m = n + LEN_SYM_TO_LEN_EXTRA[l];
    if c.bits.len() < m + DISTANCE_LOOKAHEAD {
        Step::NeedInput
    } else {
        let length = LEN_SYM_TO_LEN_BASE[l] as nat + value(c.bits.subrange(n, m));
        let rest = c.bits.skip(m);
        match decode_symbol(dist, rest) {
            Some(d) if d < 30 => {
                let k = dist[d] as int;
                let e = k + DIST_SYM_TO_DIST_EXTRA[d];
                let distance = DIST_SYM_TO_DIST_BASE[d] as nat + value(rest.subrange(k, e));
                if rest.len() < e {
                    Step::NeedInput
                } else if c.out.len() == 0 {
                    Step::Fail(DecompressionError::InputStartsWithRun)
                } else if distance > c.out.len() {
                    Step::Fail(DecompressionError::DistanceTooFarBack)
                } else {
                    Step::Next(
                        emit(
                            advance(c, c.phase, m + e),
                            copied(c.out, distance as int, length),
                        ),
                    )
                }
            },
            _ => Step::Fail(DecompressionError::InvalidDistanceCode),
        }
    }
}

/// One byte of a stored block, or its end.
pub open spec fn stored_step(c: Config, last: bool, left: nat) -> Step {
    if left == 0 {
        Step::Next(Config { phase: after_block(last), ..c })
    } else if c.bits.len() < 8 {
        Step::NeedInput
    } else {
        Step::Next(
            emit(
                advance(c, Phase::Stored { last, left: (left - 1) as nat }, 8),
                seq![value(c.bits.take(8)) as u8],
            ),
        )
    }
}

/// The checksum: padding to a byte boundary, and four bytes, the most significant one first.
pub open spec fn checksum_step(c: Config) -> Step {
    let pad = c.bits.len() as int % 8;
    if c.bits.len() < 32 + pad {
        Step::NeedInput
    } else {
        let stored = 0x100_0000 * value(c.bits.subrange(pad, pad + 8)) + 0x1_0000 * value(
            c.bits.subrange(pad + 8, pad + 16),
        ) + 0x100 * value(c.bits.subrange(pad + 16, pad + 24)) + value(
            c.bits.subrange(pad + 24, pad + 32),
        );
        if stored != c.sum {
            Step::Fail(DecompressionError::WrongChecksum)
        } else {
            Step::Next(advance(c, Phase::Done, 32 + pad))
        }
    }
}

/// One step of decoding.
pub open spec fn step(c: Config) -> Step {
    match c.phase {
        Phase::ZlibHeader => zlib_header_step(c),
        Phase::BlockHeader => block_header_step(c),
        Phase::CodeLengths { last, hlit, hdist, clcl, lens } => code_lengths_step(
            c,
            last,
            hlit,
            hdist,
            clcl,
            lens,
        ),
        Phase::Compressed { last, litlen, dist } => compressed_step(c, last, litlen, dist),
        Phase::Stored { last, left } => stored_step(c, last, left),
        Phase::Checksum => checksum_step(c),
        Phase::Done => Step::Finished,
    }
}

/// What reading one part of the stream does: it takes the step from `c` to `d`, or reports the
/// error, or leaves everything as it is when not all of that part is there.
pub open spec fn took_step(c: Config, d: Config, res: Result<(), DecompressionError>) -> bool {
    match step(c) {
        Step::Next(e) => res is Ok && d == e,
        Step::Fail(e) => res == Err::<(), DecompressionError>(e),
        Step::NeedInput => res is Ok && d == c,
        Step::Finished => false,
    }
}

/// The decoder may stop here for want of input: the step needs more, or it takes place among the
/// last few bits.
pub open spec fn starved(c: Config) -> bool {
    step(c) is NeedInput || (c.phase is Compressed && c.bits.len() < LITLEN_LOOKAHEAD)
}

/// Some steps take no bits; they go to a phase of lower rank.
pub open spec fn rank(phase: Phase) -> nat {
    match phase {
        Phase::CodeLengths { .. } => 1,
        Phase::Stored { .. } => 1,
        _ => 0,
    }
}

/// What a stream decodes to, from state `c` on, when no more input follows: all output, or the
/// first error.
pub open spec fn decode(c: Config) -> Result<Seq<u8>, DecompressionError>
    decreases c.bits.len(), rank(c.phase),
    via decode_decreases
{
    if c.phase is Done {
        Ok(c.out)
    } else if starved(c) {
        Err(DecompressionError::InsufficientInput)
    } else {
        match step(c) {
            Step::Next(d) => decode(d),
            Step::Fail(e) => Err(e),
            _ => Err(DecompressionError::InsufficientInput),
        }
    }
}

#[via_fn]
proof fn decode_decreases(c: Config) {
    if let Step::Next(d) = step(c) {
        lemma_step_progress(c);
    }
}

/// The state after `n` steps, if there are as many.
pub open spec fn steps(c: Config, n: nat) -> Option<Config>
    decreases n,
{
    if n == 0 {
        Some(c)
    } else {
        match steps(c, (n - 1) as nat) {
            None => None,
            Some(d) => match step(d) {
                Step::Next(e) => Some(e),
                _ => None,
            },
        }
    }
}

/// Some number of steps leads from `c` to `d`.
#[verifier::opaque]
pub open spec fn reaches(c: Config, d: Config) -> bool {
    exists|n: nat| steps(c, n) == Some(d)
}

/// Decoding comes to an end: a step takes bits, or goes to a phase of lower rank.
pub proof fn lemma_step_progress(c: Config)
    ensures
        step(c) matches Step::Next(d) ==> d.bits.len() < c.bits.len() || (d.bits.len()
            == c.bits.len() && rank(d.phase) < rank(c.phase)),
{
    reveal(block_header_step);
    reveal(code_lengths_step);
    reveal(compressed_step);
    match c.phase {
        Phase::CodeLengths { last, hlit, hdist, clcl, lens } => {
            if let Some(i) = decode_symbol(clcl, c.bits) {
                assert(symbol_at(clcl, c.bits, i));
            }
        },
        Phase::Compressed { last, litlen, dist } => {
            if let Some(i) = decode_symbol(litlen, c.bits) {
                assert(symbol_at(litlen, c.bits, i));
            }
        },
        _ => {},
    }
}

/// No steps lead from a state to itself.
pub proof fn lemma_reaches_self(c: Config)
    ensures
        reaches(c, c),
{
    reveal(reaches);
    assert(steps(c, 0) == Some(c));
}

/// One more step.
pub proof fn lemma_reaches_step(c: Config, d: Config, e: Config)
    requires
        reaches(c, d),
        step(d) == Step::Next(e),
    ensures
        reaches(c, e),
{
    reveal(reaches);
    let n = choose|n: nat| steps(c, n) == Some(d);
    assert(steps(c, n + 1) == Some(e));
}

/// Where there is no step, decoding stays: a state that needs input leads only to itself.
pub proof fn law_no_step(c: Config, d: Config)
    requires
        reaches(c, d),
        !(step(c) is Next),
    ensures
        d == c,
{
    reveal(reaches);
    let n = choose|n: nat| steps(c, n) == Some(d);
    if n > 0 {
        lemma_no_steps(c, n);
    }
}

proof fn lemma_no_steps(c: Config, n: nat)
    requires
        !(step(c) is Next),
        n > 0,
    ensures
        steps(c, n) is None,
    decreases n,
{
    if n > 1 {
        lemma_no_steps(c, (n - 1) as nat);
    } else {
        assert(steps(c, 0) == Some(c));
    }
}

proof fn lemma_steps_concat(c: Config, d: Config, m: nat, n: nat)
    requires
        steps(c, m) == Some(d),
    ensures
        steps(c, m + n) == steps(d, n),
    decreases n,
{
    if n > 0 {
        lemma_steps_concat(c, d, m, (n - 1) as nat);
        assert((m + n - 1) as nat == m + (n - 1) as nat);
    }
}

/// Steps after steps.
pub proof fn lemma_reaches_trans(c: Config, d: Config, e: Config)
    requires
        reaches(c, d),
        reaches(d, e),
    ensures
        reaches(c, e),
{
    reveal(reaches);
    let m = choose|m: nat| steps(c, m) == Some(d);
    let n = choose|n: nat| steps(d, n) == Some(e);
    lemma_steps_concat(c, d, m, n);
    assert(steps(c, m + n) == Some(e));
}

/// Decoding comes to one end only.
pub proof fn lemma_one_end(c: Config, d: Config, e: Config)
    requires
        reaches(c, d),
        reaches(c, e),
        !(step(d) is Next),
        !(step(e) is Next),
    ensures
        d == e,
{
    reveal(reaches);
    let m = choose|m: nat| steps(c, m) == Some(d);
    let n = choose|n: nat| steps(c, n) == Some(e);
    if m < n {
        lemma_steps_concat(c, d, m, (n - m) as nat);
        lemma_no_steps(d, (n - m) as nat);
    } else if n < m {
        lemma_steps_concat(c, e, n, (m - n) as nat);
        lemma_no_steps(e, (m - n) as nat);
    }
}

/// Some number of steps leads from `c` to the error `e`.
pub open spec fn fails(c: Config, e: DecompressionError) -> bool {
    exists|d: Config| #[trigger] reaches(c, d) && step(d) == Step::Fail(e)
}

/// Steps to a state that leads to an error lead to that error.
pub proof fn lemma_fails_trans(c: Config, d: Config, e: DecompressionError)
    requires
        reaches(c, d),
        fails(d, e),
    ensures
        fails(c, e),
{
    let f = choose|f: Config| #[trigger] reaches(d, f) && step(f) == Step::Fail(e);
    lemma_reaches_trans(c, d, f);
}

/// Steps take bits, or lead to a phase of lower rank.
pub proof fn lemma_reaches_progress(c: Config, d: Config)
    requires
        reaches(c, d),
    ensures
        c == d || d.bits.len() < c.bits.len() || (d.bits.len() == c.bits.len() && rank(d.phase)
            < rank(c.phase)),
{
    reveal(reaches);
    let n = choose|n: nat| steps(c, n) == Some(d);
    lemma_steps_progress(c, n);
}

proof fn lemma_steps_progress(c: Config, n: nat)
    ensures
        steps(c, n) matches Some(d) ==> c == d || d.bits.len() < c.bits.len() || (d.bits.len()
            == c.bits.len() && rank(d.phase) < rank(c.phase)),
    decreases n,
{
    if n > 0 {
        lemma_steps_progress(c, (n - 1) as nat);
        if let Some(d) = steps(c, (n - 1) as nat) {
            lemma_step_progress(d);
        }
    }
}

proof fn lemma_step_decode(c: Config, d: Config)
    requires
        step(c) == Step::Next(d),
    ensures
        decode(c) == decode(d),
{
    reveal(compressed_step);
    lemma_step_progress(c);
    if starved(c) {
        assert(d.phase == c.phase);
        assert(starved(d));
    }
}

proof fn lemma_steps_decode(c: Config, n: nat)
    ensures
        steps(c, n) matches Some(d) ==> decode(c) == decode(d),
    decreases n,
{
    if n > 0 {
        lemma_steps_decode(c, (n - 1) as nat);
        if let Some(d) = steps(c, (n - 1) as nat) {
            if let Step::Next(e) = step(d) {
                lemma_step_decode(d, e);
            }
        }
    }
}

/// Decoding can stop anywhere and go on later: what the stream decodes to stays the same.
pub proof fn law_decode_resumes(c: Config, d: Config)
    requires
        reaches(c, d),
    ensures
        decode(c) == decode(d),
{
    reveal(reaches);
    let n = choose|n: nat| steps(c, n) == Some(d);
    lemma_steps_decode(c, n);
}

/// A state that leads to an error decodes to that error.
pub proof fn lemma_fails_decode(c: Config, e: DecompressionError)
    requires
        fails(c, e),
    ensures
        decode(c) == Err::<Seq<u8>, DecompressionError>(e),
        !(e is InsufficientInput),
{
    let d = choose|d: Config| #[trigger] reaches(c, d) && step(d) == Step::Fail(e);
    law_decode_resumes(c, d);
    reveal(block_header_step);
    reveal(code_lengths_step);
    reveal(compressed_step);
    assert(!starved(d));
}

} // verus!
