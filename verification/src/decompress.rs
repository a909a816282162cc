//! The decompressor.
use crate::adler::{
    adler_update, lemma_adler_concat, lemma_adler_valid, update_checksum, valid_sum, ADLER_INIT,
};
use crate::bit_buffer::{lemma_suffix_trans, suffix_of, BitBuffer};
use crate::bits::{
    byte_bits, lemma_byte_bits_concat, lemma_field, lemma_first_byte, lemma_inner_field,
    lemma_value_bound, low_bits, value,
};
use crate::code_length_table::{build_clcl_table, clcl_entry, clcl_table_matches, valid_clcl};
use crate::distance_code::DistanceCode;
use crate::error::DecompressionError;
use crate::format::{
    advance, block_header_step, clcl_lengths, code_lengths_step, compressed_step, copied, decode,
    dynamic_header_step, emit, law_decode_resumes, lemma_fails_decode, lemma_reaches_progress,
    lemma_reaches_self, lemma_reaches_step, lemma_reaches_trans, lemma_step_progress, padded, rank,
    reaches, start, starved, step, stored_header_step, took_step, valid_distance_code, Config,
    Phase, Step,
};
use crate::huffman::{
    complete, compute_codes, decode_symbol, lemma_decode_symbol, lemma_symbol_exists,
    lemma_symbol_extend, symbol_at, valid_lengths,
};
use crate::laws::{extended, law_more_input};
use crate::litlen_table::{lemma_run_extend, literal_run, run_bytes, LitLenTable, Lookup};
use crate::output::{copy_back, fill, holds, lemma_copied_split, repeated, written, zero_from};
use crate::parsing::{accepted, lemma_accepted};
use crate::reading::{
    fails_at, fails_with, lemma_back_reference, lemma_fails_with, lemma_literal_step,
    lemma_read_run, lemma_read_step, lemma_read_stop, proceeds, read_end, runs_short,
};
use crate::tables::{
    fixed_code_lengths, lemma_distance_symbol, lemma_fixed_complete, lemma_length_symbol,
    CLCL_ORDER, DIST_SYM_TO_DIST_BASE, DIST_SYM_TO_DIST_EXTRA, LEN_SYM_TO_LEN_BASE,
    LEN_SYM_TO_LEN_EXTRA,
};
use vstd::arithmetic::power2::lemma2_to64;
use vstd::prelude::*;

verus! {

/// The decompressor state for a block header.
struct BlockHeader {
    hlit: usize,
    hdist: usize,
    num_lengths_read: usize,
    /// The lengths of the code that `table` is for.
    clcl: Ghost<Seq<u8>>,
    /// Low 3-bits are code length code length, high 5-bits are code length code.
    table: [u8; 128],
    code_lengths: [u8; 320],
}

#[derive(Copy, Clone, Eq, PartialEq, Structural)]
enum State {
    ZlibHeader,
    BlockHeader,
    CodeLengths,
    CompressedData,
    UncompressedData,
    Checksum,
    Done,
}

/// Decompressor that reads fdeflate compressed streams.
pub struct Decompressor {
    /// State for decoding a compressed block.
    litlen: LitLenTable,
    dist: DistanceCode,
    /// State for decoding a block header.
    header: BlockHeader,
    /// Number of bytes left for uncompressed block.
    uncompressed_bytes_left: u16,
    bits: BitBuffer,
    queued_rle: Option<(u8, usize)>,
    queued_backref: Option<(usize, usize)>,
    last_block: bool,
    state: State,
    /// The checksum of the output of all calls so far.
    checksum: u32,
}

impl BlockHeader {
    /// Adds a code length a number of times.
    fn repeat_length(&mut self, value: u8, repeat: usize)
        requires
            old(self).num_lengths_read + repeat <= 320,
        ensures
            *final(self) == (BlockHeader {
                num_lengths_read: (old(self).num_lengths_read + repeat) as usize,
                code_lengths: final(self).code_lengths,
                ..*old(self)
            }),
            forall|k: int|
                0 <= k < 320 ==> #[trigger] final(self).code_lengths@[k] == if old(
                    self,
                ).num_lengths_read <= k < final(self).num_lengths_read {
                    value
                } else {
                    old(self).code_lengths@[k]
                },
    {
        let mut i: usize = 0;
        while i < repeat
            invariant
                i <= repeat,
                self.num_lengths_read + repeat <= 320,
                *self == (BlockHeader { code_lengths: self.code_lengths, ..*old(self) }),
                forall|k: int|
                    0 <= k < 320 ==> #[trigger] self.code_lengths@[k] == if self.num_lengths_read
                        <= k < self.num_lengths_read + i {
                        value
                    } else {
                        old(self).code_lengths@[k]
                    },
            decreases repeat - i,
        {
            self.code_lengths[self.num_lengths_read + i] = value;
            i = i + 1;
        }
        self.num_lengths_read = self.num_lengths_read + repeat;
    }

    /// Puts the distance code lengths in their place behind all literal/length code lengths, and
    /// gives the symbols without a code length zero.
    fn spread_lengths(&mut self)
        requires
            old(self).hlit <= 288,
            old(self).hdist <= 32,
        ensures
            *final(self) == (BlockHeader { code_lengths: final(self).code_lengths, ..*old(self) }),
            final(self).code_lengths@.take(288) == padded(
                old(self).code_lengths@.take(old(self).hlit as int),
                288,
            ),
            final(self).code_lengths@.skip(288) == padded(
                old(self).code_lengths@.subrange(
                    old(self).hlit as int,
                    old(self).hlit + old(self).hdist,
                ),
                32,
            ),
    {
        let mut code_lengths: [u8; 320] = [0; 320];
        let mut i: usize = 0;
        while i < self.hlit
            invariant
                i <= self.hlit <= 288,
                forall|k: int|
                    0 <= k < 320 ==> #[trigger] code_lengths@[k] == if k < i {
                        self.code_lengths@[k]
                    } else {
                        0
                    },
            decreases self.hlit - i,
        {
            code_lengths[i] = self.code_lengths[i];
            i = i + 1;
        }
        let mut j: usize = 0;
        while j < self.hdist
            invariant
                self.hlit <= 288,
                j <= self.hdist <= 32,
                forall|k: int|
                    0 <= k < 320 ==> #[trigger] code_lengths@[k] == if k < self.hlit {
                        self.code_lengths@[k]
                    } else if 288 <= k < 288 + j {
                        self.code_lengths@[self.hlit + k - 288]
                    } else {
                        0
                    },
            decreases self.hdist - j,
        {
            code_lengths[288 + j] = self.code_lengths[self.hlit + j];
            j = j + 1;
        }
        self.code_lengths = code_lengths;
    }
}

/// Reads the lengths of the code length code from their `hclen` three-bit fields.
fn read_clcl(bits: &mut BitBuffer, hclen: usize, remaining_input: &mut &[u8]) -> (lengths: [u8; 19])
    requires
        old(bits).wf(),
        4 <= hclen <= 19,
        old(bits)@.len() + 8 * old(remaining_input)@.len() >= 3 * hclen,
    ensures
        final(bits).wf(),
        final(bits)@ + byte_bits(final(remaining_input)@) == (old(bits)@ + byte_bits(
            old(remaining_input)@,
        )).skip(3 * hclen),
        suffix_of(final(remaining_input)@, old(remaining_input)@),
        lengths@ == clcl_lengths(old(bits)@ + byte_bits(old(remaining_input)@), hclen as int),
        valid_clcl(lengths@),
{
    let ghost b = bits@ + byte_bits(remaining_input@);
    let ghost input = remaining_input@;
    let mut lengths: [u8; 19] = [0; 19];
    let mut i: usize = 0;
    assert(lengths@ =~= clcl_lengths(b, 0));
    assert(b.skip(0) =~= b);
    while i < hclen
        invariant
            i <= hclen,
            4 <= hclen <= 19,
            b.len() >= 3 * hclen,
            bits.wf(),
            bits@ + byte_bits(remaining_input@) == b.skip(3 * i),
            suffix_of(remaining_input@, input),
            lengths@ == clcl_lengths(b, i as int),
            valid_clcl(lengths@),
        decreases hclen - i,
    {
        let ghost stream = bits@ + byte_bits(remaining_input@);
        let length: u64 = bits.read_bits(3, remaining_input).unwrap();
        proof {
            assert(stream.take(3) =~= b.subrange(3 * i, 3 * (i + 1)));
            lemma_value_bound(stream.take(3));
            lemma2_to64();
            assert(stream.skip(3) =~= b.skip(3 * (i + 1)));
            assert(remaining_input@ =~= input.skip(input.len() - remaining_input@.len()));
        }
        lengths[CLCL_ORDER[i]] = length as u8;
        i = i + 1;
    }
    lengths
}

/// A run of literals is as many steps.
proof fn lemma_run_reaches(c: Config, bytes: Seq<u8>, n: int)
    requires
        c.phase matches Phase::Compressed { last, litlen, dist } && literal_run(
            litlen,
            c.bits,
            bytes,
            n,
        ) && litlen.len() == 288,
    ensures
        reaches(c, emit(advance(c, c.phase, n), bytes)),
        bytes.len() <= n <= c.bits.len(),
    decreases bytes.len(),
{
    if bytes.len() == 0 {
        assert(c.bits.skip(0) =~= c.bits);
        assert(c.out + bytes =~= c.out);
        lemma_reaches_self(c);
    } else {
        let litlen = c.phase->Compressed_litlen;
        let l = litlen[bytes[0] as int] as int;
        let first = seq![bytes[0]];
        let rest = bytes.drop_first();
        let d = emit(advance(c, c.phase, l), first);
        lemma_literal_step(c, bytes[0]);
        lemma_run_reaches(d, rest, n - l);
        let e = emit(advance(d, d.phase, n - l), rest);
        lemma_reaches_trans(c, d, e);
        assert(bytes =~= first + rest);
        lemma_adler_concat(c.sum, first, rest);
        assert(e.bits =~= c.bits.skip(n));
        assert(e.out =~= c.out + bytes);
    }
}

/// Reading a header or the checksum gives no output.
proof fn lemma_no_output(c: Config, d: Config)
    requires
        step(c) == Step::Next(d),
        c.phase is ZlibHeader || c.phase is BlockHeader || c.phase is Checksum,
    ensures
        d.out == c.out,
{
    reveal(block_header_step);
}

/// The buffer `after` holds what `before` held up to `index`, then more output up to `next`, then
/// zeros.
spec fn appended(before: Seq<u8>, after: Seq<u8>, index: int, next: int) -> bool {
    &&& before.len() == after.len()
    &&& index <= next <= after.len()
    &&& after.take(index) =~= before.take(index)
    &&& zero_from(after, next)
}

/// Appending twice is appending.
proof fn lemma_appended(a: Seq<u8>, b: Seq<u8>, c: Seq<u8>, i: int, j: int, k: int, sum: u32)
    requires
        0 <= i,
        appended(a, b, i, j),
        appended(b, c, j, k),
    ensures
        appended(a, c, i, k),
        c.take(j) == b.take(j),
        adler_update(adler_update(sum, b.subrange(i, j)), c.subrange(j, k)) == adler_update(
            sum,
            c.subrange(i, k),
        ),
{
    assert(c.take(i) =~= c.take(j).take(i));
    assert(b.take(i) =~= b.take(j).take(i));
    assert(c.subrange(i, k) =~= b.subrange(i, j) + c.subrange(j, k)) by {
        assert(b.subrange(i, j) =~= b.take(j).skip(i));
        assert(c.subrange(i, j) =~= c.take(j).skip(i));
    }
    lemma_adler_concat(sum, b.subrange(i, j), c.subrange(j, k));
}

impl Decompressor {
    /// The place in the format that has been reached.
    pub closed spec fn phase(&self) -> Phase {
        match self.state {
            State::ZlibHeader => Phase::ZlibHeader,
            State::BlockHeader => Phase::BlockHeader,
            State::CodeLengths => Phase::CodeLengths {
                last: self.last_block,
                hlit: self.header.hlit as nat,
                hdist: self.header.hdist as nat,
                clcl: self.header.clcl@,
                lens: self.header.code_lengths@.take(self.header.num_lengths_read as int),
            },
            State::CompressedData => Phase::Compressed {
                last: self.last_block,
                litlen: self.header.code_lengths@.take(288),
                dist: self.header.code_lengths@.skip(288),
            },
            State::UncompressedData => Phase::Stored {
                last: self.last_block,
                left: self.uncompressed_bytes_left as nat,
            },
            State::Checksum => Phase::Checksum,
            State::Done => Phase::Done,
        }
    }

    /// Bits that have been taken from the input and not used yet.
    pub closed spec fn buffered(&self) -> Seq<bool> {
        self.bits@
    }

    /// The checksum of what has been written so far.
    pub closed spec fn sum(&self) -> u32 {
        self.checksum
    }

    /// The state of decoding, when `input` is still to come and `out` has been written.
    pub open spec fn config(&self, input: Seq<u8>, out: Seq<u8>) -> Config {
        Config {
            phase: self.phase(),
            bits: self.buffered() + byte_bits(input),
            out: out + self.pending(out),
            sum: adler_update(self.sum(), self.pending(out)),
        }
    }

    /// The tables are right for the codes of the block, and the other parts of the state go
    /// together.
    pub closed spec fn wf(&self) -> bool {
        &&& self.bits.wf()
        &&& self.block_wf()
        &&& self.queue_wf()
        &&& valid_sum(self.checksum)
    }

    /// The state of decoding, with the given input to come, output and checksum.
    spec fn decoding(&self, input: Seq<u8>, out: Seq<u8>, sum: u32) -> Config {
        Config { phase: self.phase(), bits: self.bits@ + byte_bits(input), out, sum }
    }

    /// Decoded bytes that are still to be written after the output `out`.
    pub closed spec fn pending(&self, out: Seq<u8>) -> Seq<u8> {
        if let Some((data, len)) = self.queued_rle {
            repeated(data, len as nat)
        } else if let Some((dist, len)) = self.queued_backref {
            copied(out, dist as int, len as nat)
        } else {
            Seq::empty()
        }
    }

    /// How many bytes at the end of the output are needed for those that are still to be written.
    pub closed spec fn lookback(&self) -> nat {
        if let Some((dist, len)) = self.queued_backref {
            dist as nat
        } else {
            0
        }
    }

    /// The state of decoding, with the given input to come, and output and checksum of what has
    /// been written.
    spec fn reached(&self, input: Seq<u8>, out: Seq<u8>, sum: u32) -> Config {
        let pending = self.pending(out);
        self.decoding(input, out + pending, adler_update(sum, pending))
    }

    /// At most one run or back reference waits to be written.
    spec fn queue_wf(&self) -> bool {
        &&& self.queued_rle is None || self.queued_backref is None
        &&& self.queued_rle matches Some((data, len)) ==> 1 <= len <= 12
        &&& self.queued_backref matches Some((dist, len)) ==> 1 <= dist && 1 <= len <= 258
        &&& self.idle() || self.state == State::CompressedData
    }

    /// No more of `input` can be taken for now.
    spec fn full(&self, input: Seq<u8>) -> bool {
        self.bits@.len() >= 56 || input.len() == 0
    }

    /// All decoded bytes have been written.
    spec fn idle(&self) -> bool {
        self.queued_rle is None && self.queued_backref is None
    }

    /// What belongs to the state within a block.
    spec fn block_wf(&self) -> bool {
        match self.state {
            State::ZlibHeader => self.bits@.len() == 0 && self.idle(),
            State::BlockHeader => self.idle(),
            State::CodeLengths => {
                &&& self.idle()
                &&& 257 <= self.header.hlit <= 286
                &&& 1 <= self.header.hdist <= 30
                &&& self.header.num_lengths_read <= self.header.hlit + self.header.hdist
                &&& valid_clcl(self.header.clcl@)
                &&& complete(self.header.clcl@)
                &&& clcl_table_matches(self.header.clcl@, self.header.table@)
                &&& valid_lengths(
                    self.header.code_lengths@.take(self.header.num_lengths_read as int),
                )
            },
            State::CompressedData => {
                let litlen = self.header.code_lengths@.take(288);
                let dist = self.header.code_lengths@.skip(288);
                &&& valid_lengths(litlen)
                &&& complete(litlen)
                &&& self.litlen.matches(litlen)
                &&& self.dist.matches(dist)
            },
            State::UncompressedData => self.bits@.len() % 8 == 0 && self.idle(),
            State::Checksum => self.idle(),
            State::Done => self.idle(),
        }
    }

    /// Reads the header of a block, if all of it is there.
    fn read_block_header(
        &mut self,
        remaining_input: &mut &[u8],
        Ghost(out): Ghost<Seq<u8>>,
        Ghost(sum): Ghost<u32>,
    ) -> (res: Result<(), DecompressionError>)
        requires
            old(self).bits.wf(),
            old(self).state == State::BlockHeader,
            old(self).block_wf(),
        ensures
            final(self).bits.wf(),
            final(self).block_wf(),
            final(self).idle(),
            final(self).checksum == old(self).checksum,
            suffix_of(final(remaining_input)@, old(remaining_input)@),
            ({
                let c = old(self).decoding(old(remaining_input)@, out, sum);
                let d = final(self).decoding(final(remaining_input)@, out, sum);
                &&& took_step(c, d, res)
                &&& match step(c) {
                    Step::Next(_) => final(self).state != State::BlockHeader && final(self).state
                        != State::ZlibHeader,
                    Step::Fail(_) => final(self).state == State::BlockHeader,
                    _ => final(self).state == State::BlockHeader && final(self).full(
                        final(remaining_input)@,
                    ),
                }
            }),
    {
        proof {
            reveal(block_header_step);
        }
        let ghost b = self.decoding(remaining_input@, out, sum).bits;
        let ghost input = remaining_input@;
        self.bits.fill_buffer(remaining_input);
        let nbits: u8 = self.bits.len();
        if nbits < 3 {
            return Ok(());
        }
        let start: u64 = self.bits.peak_bits(3);
        self.last_block = start & 1 != 0;
        let kind: u64 = start >> 1;
        proof {
            assert(self.bits@.take(3) =~= b.take(3));
            lemma_field(start, b, 1, 3);
            lemma_value_bound(b.subrange(1, 3));
            lemma2_to64();
            assert(low_bits(start, 3)[0] == b.take(3)[0]);
            assert((start >> 0) & 1 == start & 1 && (start & 1 == 0 || start & 1 == 1)) by (bit_vector);
            assert(self.last_block == b[0]);
        }
        if kind == 0 {
            self.read_stored_header(Ghost(remaining_input@), Ghost(out), Ghost(sum))
        } else if kind == 1 {
            self.bits.consume_bits(3);
            assert(self.bits@ + byte_bits(remaining_input@) =~= b.skip(3));
            // The same tables are built for every such block.
            self.header.hlit = 288;
            self.header.hdist = 32;
            self.header.code_lengths = fixed_code_lengths();
            proof {
                lemma_fixed_complete();
                let l = self.header.code_lengths@;
                assert forall|i: int| 0 <= i < l.len() implies #[trigger] l[i] <= 15 by {
                    if i < 288 {
                        assert(l.take(288)[i] <= 15);
                    } else {
                        assert(l.skip(288)[i - 288] <= 15);
                    }
                }
            }
            let built: Result<(), DecompressionError> = self.build_tables();
            if built.is_ok() {
                self.state = State::CompressedData;
            }
            built
        } else if kind == 2 {
            let ghost filled = remaining_input@;
            let read: Result<(), DecompressionError> = self.read_dynamic_header(
                remaining_input,
                Ghost(out),
                Ghost(sum),
            );
            proof {
                lemma_suffix_trans(remaining_input@, filled, input);
            }
            read
        } else {
            Err(DecompressionError::InvalidBlockType)
        }
    }

    /// Reads the header of a stored block, if all of it is there.
    fn read_stored_header(
        &mut self,
        Ghost(input): Ghost<Seq<u8>>,
        Ghost(out): Ghost<Seq<u8>>,
        Ghost(sum): Ghost<u32>,
    ) -> (res: Result<(), DecompressionError>)
        requires
            old(self).bits.wf(),
            old(self).bits@.len() >= 3,
            old(self).full(input),
            old(self).state == State::BlockHeader,
            old(self).block_wf(),
        ensures
            final(self).bits.wf(),
            final(self).block_wf(),
            final(self).idle(),
            final(self).checksum == old(self).checksum,
            ({
                let c = old(self).decoding(input, out, sum);
                let d = final(self).decoding(input, out, sum);
                match stored_header_step(c, old(self).last_block) {
                    Step::Next(e) => res is Ok && d == e && final(self).state
                        == State::UncompressedData,
                    Step::Fail(e) => res == Err::<(), DecompressionError>(e) && final(self).state
                        == State::BlockHeader,
                    Step::NeedInput => res is Ok && d == c && final(self).state
                        == State::BlockHeader && final(self).full(input),
                    Step::Finished => false,
                }
            }),
    {
        let ghost b = self.decoding(input, out, sum).bits;
        let nbits: u8 = self.bits.len();
        let pad: u8 = (nbits - 3) % 8;
        let header_bits: u8 = 35 + pad;
        assert((b.len() - 3) % 8 == pad as int);
        if nbits < header_bits {
            return Ok(());
        }
        let first: u64 = self.bits.peak_bits(pad + 19);
        let second: u64 = self.bits.peak_bits(header_bits);
        proof {
            assert(self.bits@.take(pad + 19) =~= b.take(pad + 19));
            assert(self.bits@.take(header_bits as int) =~= b.take(header_bits as int));
            lemma_field(first, b, (pad + 3) as nat, (pad + 19) as nat);
            lemma_field(second, b, (pad + 19) as nat, (pad + 35) as nat);
            lemma_value_bound(b.subrange(3 + pad, 19 + pad));
            lemma_value_bound(b.subrange(19 + pad, 35 + pad));
            lemma2_to64();
        }
        let len: u64 = first >> (pad + 3);
        let nlen: u64 = second >> (pad + 19);
        if len + nlen != 0xffff {
            return Err(DecompressionError::InvalidUncompressedBlockLength);
        }
        self.state = State::UncompressedData;
        self.uncompressed_bytes_left = len as u16;
        self.bits.consume_bits(header_bits);
        assert(self.bits@ + byte_bits(input) =~= b.skip(header_bits as int));
        Ok(())
    }

    /// Reads the header of a block with its own codes up to the code for the code lengths, if all
    /// of that is there.
    fn read_dynamic_header(
        &mut self,
        remaining_input: &mut &[u8],
        Ghost(out): Ghost<Seq<u8>>,
        Ghost(sum): Ghost<u32>,
    ) -> (res: Result<(), DecompressionError>)
        requires
            old(self).bits.wf(),
            old(self).bits@.len() >= 3,
            old(self).full(old(remaining_input)@),
            old(self).state == State::BlockHeader,
            old(self).block_wf(),
        ensures
            final(self).bits.wf(),
            final(self).block_wf(),
            final(self).idle(),
            final(self).checksum == old(self).checksum,
            suffix_of(final(remaining_input)@, old(remaining_input)@),
            ({
                let c = old(self).decoding(old(remaining_input)@, out, sum);
                let d = final(self).decoding(final(remaining_input)@, out, sum);
                match dynamic_header_step(c, old(self).last_block) {
                    Step::Next(e) => res is Ok && d == e && final(self).state == State::CodeLengths,
                    Step::Fail(e) => res == Err::<(), DecompressionError>(e) && final(self).state
                        == State::BlockHeader,
                    Step::NeedInput => res is Ok && d == c && final(self).state
                        == State::BlockHeader && final(self).full(final(remaining_input)@),
                    Step::Finished => false,
                }
            }),
    {
        let ghost b = self.decoding(remaining_input@, out, sum).bits;
        let ghost input = remaining_input@;
        let nbits: u8 = self.bits.len();
        if nbits < 17 {
            return Ok(());
        }
        let counts: u64 = self.bits.peak_bits(17);
        let hlit_field: u64 = self.bits.peak_bits(8);
        let hdist_field: u64 = self.bits.peak_bits(13);
        proof {
            assert(self.bits@.take(17) =~= b.take(17));
            assert(self.bits@.take(13) =~= b.take(13));
            assert(self.bits@.take(8) =~= b.take(8));
            lemma_field(counts, b, 13, 17);
            lemma_field(hdist_field, b, 8, 13);
            lemma_field(hlit_field, b, 3, 8);
            lemma_value_bound(b.subrange(13, 17));
            lemma_value_bound(b.subrange(8, 13));
            lemma_value_bound(b.subrange(3, 8));
            lemma2_to64();
        }
        let hclen: usize = (counts >> 13) as usize + 4;
        if remaining_input.len() < 8 && nbits as usize + 8 * remaining_input.len() < 17 + 3
            * hclen {
            return Ok(());
        }
        self.header.hlit = (hlit_field >> 3) as usize + 257;
        self.header.hdist = (hdist_field >> 8) as usize + 1;
        if self.header.hlit > 286 {
            return Err(DecompressionError::InvalidHlit);
        }
        if self.header.hdist > 30 {
            return Err(DecompressionError::InvalidHdist);
        }
        self.bits.consume_bits(17);
        assert(self.bits@ + byte_bits(remaining_input@) =~= b.skip(17));
        let lengths: [u8; 19] = read_clcl(&mut self.bits, hclen, remaining_input);
        assert(b.skip(17).skip(3 * hclen) =~= b.skip(17 + 3 * hclen));
        let codes: Vec<u16> = match compute_codes(&lengths) {
            Some(codes) => codes,
            None => {
                return Err(DecompressionError::BadCodeLengthHuffmanTree);
            },
        };
        self.header.table = build_clcl_table(&lengths, &codes);
        self.header.clcl = Ghost(lengths@);
        self.header.num_lengths_read = 0;
        self.state = State::CodeLengths;
        assert(self.header.code_lengths@.take(0) =~= Seq::<u8>::empty());
        Ok(())
    }

    /// Reads one symbol of the code lengths, if it is there. Returns false if it is not.
    #[verifier::spinoff_prover]
    #[verifier::rlimit(50)]
    fn read_code_length(
        &mut self,
        remaining_input: &mut &[u8],
        Ghost(out): Ghost<Seq<u8>>,
        Ghost(sum): Ghost<u32>,
    ) -> (res: Result<bool, DecompressionError>)
        requires
            old(self).bits.wf(),
            old(self).state == State::CodeLengths,
            old(self).block_wf(),
            old(self).header.num_lengths_read < old(self).header.hlit + old(self).header.hdist,
        ensures
            final(self).bits.wf(),
            final(self).state == State::CodeLengths,
            final(self).block_wf(),
            final(self).checksum == old(self).checksum,
            final(self).header.hlit == old(self).header.hlit,
            final(self).header.hdist == old(self).header.hdist,
            suffix_of(final(remaining_input)@, old(remaining_input)@),
            ({
                let c = old(self).decoding(old(remaining_input)@, out, sum);
                let d = final(self).decoding(final(remaining_input)@, out, sum);
                match step(c) {
                    Step::Next(e) => res == Ok::<bool, DecompressionError>(true) && d == e
                        && final(self).header.num_lengths_read > old(self).header.num_lengths_read,
                    Step::Fail(e) => res == Err::<bool, DecompressionError>(e),
                    Step::NeedInput => res == Ok::<bool, DecompressionError>(false) && d == c
                        && final(self).full(final(remaining_input)@),
                    Step::Finished => false,
                }
            }),
    {
        proof {
            reveal(code_lengths_step);
        }
        let ghost b = self.decoding(remaining_input@, out, sum).bits;
        let ghost clcl = self.header.clcl@;
        let ghost lens = self.header.code_lengths@.take(self.header.num_lengths_read as int);
        self.bits.fill_buffer(remaining_input);
        let nbits: u8 = self.bits.len();
        if nbits < 7 {
            return Ok(false);
        }
        let code: u64 = self.bits.peak_bits(7);
        proof {
            assert(self.bits@.take(7) =~= b.take(7));
            lemma_value_bound(b.take(7));
            lemma2_to64();
        }
        let entry: u8 = self.header.table[code as usize];
        let length: u8 = entry & 7;
        let symbol: u8 = entry >> 3;
        proof {
            assert(clcl_entry(clcl, code as int, entry));
            lemma_symbol_extend(clcl, b.take(7), b.skip(7), symbol as int);
            assert(b.take(7) + b.skip(7) =~= b);
            lemma_decode_symbol(clcl, b, symbol as int);
            assert(clcl[symbol as int] <= 7);
        }
        if symbol < 16 {
            self.header.code_lengths[self.header.num_lengths_read] = symbol;
            self.header.num_lengths_read = self.header.num_lengths_read + 1;
            self.bits.consume_bits(length);
            proof {
                let n = self.header.num_lengths_read as int;
                assert(self.header.code_lengths@.take(n) =~= lens.push(symbol));
                assert(self.bits@ + byte_bits(remaining_input@) =~= b.skip(length as int));
            }
            return Ok(true);
        }
        let (base_repeat, extra_bits): (usize, u8) = if symbol == 16 {
            (3, 2)
        } else if symbol == 17 {
            (3, 3)
        } else {
            (11, 7)
        };
        if nbits < length + extra_bits {
            return Ok(false);
        }
        let field: u64 = self.bits.peak_bits(length + extra_bits);
        proof {
            let n = length as int;
            let m = length + extra_bits;
            assert(self.bits@.take(m) =~= b.take(m));
            lemma_field(field, b, n as nat, m as nat);
            lemma_value_bound(b.subrange(n, m));
            lemma2_to64();
        }
        if symbol == 16 && self.header.num_lengths_read == 0 {
            return Err(DecompressionError::InvalidCodeLengthRepeat);
        }
        let value: u8 = if symbol == 16 {
            self.header.code_lengths[self.header.num_lengths_read - 1]
        } else {
            0
        };
        let repeat: usize = (field >> length) as usize + base_repeat;
        if self.header.num_lengths_read + repeat > self.header.hlit + self.header.hdist {
            return Err(DecompressionError::InvalidCodeLengthRepeat);
        }
        self.header.repeat_length(value, repeat);
        self.bits.consume_bits(length + extra_bits);
        proof {
            let n = self.header.num_lengths_read as int;
            assert(symbol == 16 ==> value == lens.last());
            assert(self.header.code_lengths@.take(n) =~= lens + Seq::new(
                repeat as nat,
                |i: int| value,
            ));
            assert(self.bits@ + byte_bits(remaining_input@) =~= b.skip(length + extra_bits));
        }
        Ok(true)
    }

    /// Sets up the codes when all code lengths are known.
    fn start_compressed(
        &mut self,
        Ghost(input): Ghost<Seq<u8>>,
        Ghost(out): Ghost<Seq<u8>>,
        Ghost(sum): Ghost<u32>,
    ) -> (res: Result<(), DecompressionError>)
        requires
            old(self).bits.wf(),
            old(self).state == State::CodeLengths,
            old(self).block_wf(),
            old(self).header.num_lengths_read == old(self).header.hlit + old(self).header.hdist,
        ensures
            final(self).bits.wf(),
            final(self).block_wf(),
            final(self).idle(),
            final(self).checksum == old(self).checksum,
            ({
                let c = old(self).decoding(input, out, sum);
                let d = final(self).decoding(input, out, sum);
                match res {
                    Ok(_) => step(c) == Step::Next(d) && final(self).state == State::CompressedData,
                    Err(e) => step(c) == Step::Fail(e) && final(self).state == State::CodeLengths,
                }
            }),
    {
        proof {
            reveal(code_lengths_step);
        }
        let ghost all = self.header.code_lengths@;
        let ghost total = self.header.num_lengths_read as int;
        self.header.spread_lengths();
        proof {
            let hlit = self.header.hlit as int;
            let lens = all.take(total);
            assert(lens.take(hlit) =~= all.take(hlit));
            assert(lens.skip(hlit) =~= all.subrange(hlit, total));
            let spread = self.header.code_lengths@;
            assert forall|i: int| 0 <= i < 320 implies #[trigger] spread[i] <= 15 by {
                assert(i < 288 ==> spread[i] == spread.take(288)[i]);
                assert(i >= 288 ==> spread[i] == spread.skip(288)[i - 288]);
                assert(i < hlit ==> lens[i] <= 15);
                assert(288 <= i < 288 + self.header.hdist ==> lens[hlit + i - 288] <= 15);
            }
        }
        let built: Result<(), DecompressionError> = self.build_tables();
        if built.is_ok() {
            self.state = State::CompressedData;
        }
        built
    }

    /// Reads code lengths, as many as are there, and sets up the codes when that was all of them.
    #[verifier::rlimit(30)]
    fn read_code_lengths(
        &mut self,
        remaining_input: &mut &[u8],
        Ghost(out): Ghost<Seq<u8>>,
        Ghost(len): Ghost<nat>,
        Ghost(sum): Ghost<u32>,
    ) -> (res: Result<(), DecompressionError>)
        requires
            old(self).bits.wf(),
            old(self).state == State::CodeLengths,
            old(self).block_wf(),
            out.len() <= len,
        ensures
            final(self).bits.wf(),
            final(self).block_wf(),
            final(self).idle(),
            final(self).checksum == old(self).checksum,
            suffix_of(final(remaining_input)@, old(remaining_input)@),
            ({
                let c = old(self).decoding(old(remaining_input)@, out, sum);
                let d = final(self).decoding(final(remaining_input)@, out, sum);
                match res {
                    Ok(_) => {
                        &&& reaches(c, d)
                        &&& proceeds(c, d, len, final(self).state != State::CodeLengths)
                        &&& {
                            ||| final(self).state == State::CompressedData
                            ||| final(self).state == State::CodeLengths && step(d) is NeedInput
                                && final(self).full(final(remaining_input)@)
                        }
                    },
                    Err(e) => fails_at(c, e, len, out) && final(self).state == State::CodeLengths,
                }
            }),
    {
        let ghost c = self.decoding(remaining_input@, out, sum);
        let ghost input = remaining_input@;
        let ghost checksum = self.checksum;
        let total_lengths: usize = self.header.hlit + self.header.hdist;
        proof {
            lemma_reaches_self(c);
        }
        while self.header.num_lengths_read < total_lengths
            invariant
                self.bits.wf(),
                self.state == State::CodeLengths,
                self.block_wf(),
                self.checksum == checksum,
                total_lengths == self.header.hlit + self.header.hdist,
                suffix_of(remaining_input@, input),
                c == old(self).decoding(input, out, sum),
                input == old(remaining_input)@,
                checksum == old(self).checksum,
                out.len() <= len,
                reaches(c, self.decoding(remaining_input@, out, sum)),
                proceeds(c, self.decoding(remaining_input@, out, sum), len, true),
            decreases total_lengths - self.header.num_lengths_read,
        {
            let ghost d = self.decoding(remaining_input@, out, sum);
            let ghost before = remaining_input@;
            let read: Result<bool, DecompressionError> = self.read_code_length(
                remaining_input,
                Ghost(out),
                Ghost(sum),
            );
            proof {
                lemma_suffix_trans(remaining_input@, before, input);
                if !(step(d) is Next) {
                    lemma_read_stop(d, len);
                }
            }
            match read {
                Ok(true) => {
                    proof {
                        lemma_reaches_step(c, d, self.decoding(remaining_input@, out, sum));
                        lemma_read_step(d, self.decoding(remaining_input@, out, sum), len);
                    }
                },
                Ok(false) => {
                    return Ok(());
                },
                Err(e) => {
                    return Err(e);
                },
            }
        }
        let ghost d = self.decoding(remaining_input@, out, sum);
        let started: Result<(), DecompressionError> = self.start_compressed(
            Ghost(remaining_input@),
            Ghost(out),
            Ghost(sum),
        );
        proof {
            if started is Ok {
                lemma_reaches_step(c, d, self.decoding(remaining_input@, out, sum));
                lemma_read_step(d, self.decoding(remaining_input@, out, sum), len);
            } else {
                lemma_read_stop(d, len);
            }
        }
        started
    }

    /// What has been decoded is partly written and partly waits to be.
    proof fn lemma_reached(
        &self,
        input: Seq<u8>,
        out: Seq<u8>,
        sum: u32,
        part: Seq<u8>,
        bytes: Seq<u8>,
    )
        requires
            bytes == part + self.pending(out + part),
        ensures
            self.reached(input, out + part, adler_update(sum, part)) == self.decoding(
                input,
                out + bytes,
                adler_update(sum, bytes),
            ),
    {
        let pending = self.pending(out + part);
        assert(out + part + pending =~= out + bytes);
        lemma_adler_concat(sum, part, pending);
    }

    /// Reads a back reference whose length symbol comes next, if all of it is there, and writes
    /// as much of it as there is space for. Returns the new output index, or `None` if it is not
    /// there.
    #[verifier::spinoff_prover]
    #[verifier::rlimit(100)]
    fn read_back_reference(
        &mut self,
        symbol: usize,
        code_bits: u8,
        output: &mut [u8],
        output_index: usize,
        Ghost(input): Ghost<Seq<u8>>,
        Ghost(sum): Ghost<u32>,
    ) -> (res: Result<Option<usize>, DecompressionError>)
        requires
            old(self).bits.wf(),
            old(self).full(input),
            old(self).bits@.len() >= 15,
            old(self).state == State::CompressedData,
            old(self).block_wf(),
            old(self).idle(),
            257 <= symbol <= 285,
            symbol_at(
                old(self).header.code_lengths@.take(288),
                old(self).bits@ + byte_bits(input),
                symbol as int,
            ),
            code_bits == old(self).header.code_lengths@[symbol as int],
            output_index <= old(output)@.len(),
            zero_from(old(output)@, output_index as int),
        ensures
            final(self).bits.wf(),
            *final(self) == (Decompressor {
                bits: final(self).bits,
                queued_backref: final(self).queued_backref,
                ..*old(self)
            }),
            final(self).queue_wf(),
            ({
                let c = old(self).decoding(input, old(output)@.take(output_index as int), sum);
                match step(c) {
                    Step::Next(e) => match res {
                        Ok(Some(next)) => {
                            &&& appended(
                                old(output)@,
                                final(output)@,
                                output_index as int,
                                next as int,
                            )
                            &&& final(self).idle() || next == final(output)@.len()
                            &&& final(self).lookback() <= next
                            &&& final(self).reached(
                                input,
                                final(output)@.take(next as int),
                                adler_update(
                                    sum,
                                    final(output)@.subrange(output_index as int, next as int),
                                ),
                            ) == e
                        },
                        _ => false,
                    },
                    Step::Fail(e) => res == Err::<Option<usize>, DecompressionError>(e),
                    Step::NeedInput => {
                        &&& res == Ok::<Option<usize>, DecompressionError>(None)
                        &&& *final(self) == *old(self)
                        &&& final(output)@ == old(output)@
                    },
                    Step::Finished => false,
                }
            }),
            res is Err ==> *final(self) == *old(self) && final(output)@ == old(output)@,
            final(output)@.len() == old(output)@.len(),
            final(output)@.take(output_index as int) == old(output)@.take(output_index as int),
    {
        proof {
            reveal(compressed_step);
        }
        let ghost litlen = self.header.code_lengths@.take(288);
        let ghost dist = self.header.code_lengths@.skip(288);
        let ghost b = self.bits@ + byte_bits(input);
        let ghost out = output@.take(output_index as int);
        let ghost before = output@;
        let l: usize = symbol - 257;
        let nbits: u8 = self.bits.len();
        proof {
            lemma_decode_symbol(litlen, b, symbol as int);
            lemma_length_symbol(l as int);
            assert(litlen[symbol as int] <= 15);
        }
        let length_extra_bits: u8 = LEN_SYM_TO_LEN_EXTRA[l];
        let length_bits: u8 = code_bits + length_extra_bits;
        if nbits < length_bits + 28 {
            return Ok(None);
        }
        let bits: u64 = self.bits.peak_bits(length_bits + 28);
        let ghost n = (length_bits + 28) as nat;
        let ghost rest = b.skip(length_bits as int);
        proof {
            assert(self.bits@.take(n as int) =~= b.take(n as int));
            lemma_inner_field(bits, b, code_bits as nat, length_extra_bits as nat, n);
            lemma_value_bound(b.subrange(code_bits as int, length_bits as int));
            lemma2_to64();
        }
        let length_field: u64 = (bits >> code_bits) & ((1u64 << length_extra_bits) - 1);
        let length: usize = LEN_SYM_TO_LEN_BASE[l] + length_field as usize;
        let dist_window: u64 = bits >> length_bits;
        proof {
            lemma_field(bits, b, length_bits as nat, n);
            assert(low_bits(dist_window, 15) =~= low_bits(dist_window, 28).take(15));
            assert(low_bits(dist_window, 15) =~= rest.take(15));
            assert(rest =~= rest.take(15) + rest.skip(15));
        }
        let dist_symbol: usize = match self.dist.find(dist_window, Ghost(dist)) {
            Some(dist_symbol) => dist_symbol,
            None => {
                proof {
                    if let Some(d) = decode_symbol(dist, rest) {
                        assert(symbol_at(dist, rest, d));
                        if d < 30 {
                            let k = dist[d] as int;
                            assert(k <= 15);
                            assert(rest.take(15).take(k) =~= rest.take(k));
                            assert(symbol_at(dist, rest.take(15), d));
                        }
                    }
                }
                return Err(DecompressionError::InvalidDistanceCode);
            },
        };
        let ghost d = dist_symbol as int;
        proof {
            lemma_symbol_extend(dist, rest.take(15), rest.skip(15), d);
            lemma_decode_symbol(dist, rest, d);
            lemma_distance_symbol(d);
            assert(dist[d] <= 15);
        }
        let dist_code_bits: u8 = self.dist.lengths[dist_symbol];
        let dist_extra_bits: u8 = DIST_SYM_TO_DIST_EXTRA[dist_symbol];
        let dist_bits: u8 = dist_code_bits + dist_extra_bits;
        proof {
            lemma_inner_field(
                bits,
                b,
                (length_bits + dist_code_bits) as nat,
                dist_extra_bits as nat,
                n,
            );
            assert(b.subrange(length_bits + dist_code_bits, length_bits + dist_bits)
                =~= rest.subrange(dist_code_bits as int, dist_bits as int));
            lemma_value_bound(rest.subrange(dist_code_bits as int, dist_bits as int));
        }
        let dist_field: u64 = (bits >> (length_bits + dist_code_bits)) & ((1u64
            << dist_extra_bits) - 1);
        let distance: usize = DIST_SYM_TO_DIST_BASE[dist_symbol] as usize + dist_field as usize;
        if output_index == 0 {
            return Err(DecompressionError::InputStartsWithRun);
        }
        if distance > output_index {
            return Err(DecompressionError::DistanceTooFarBack);
        }
        let space: usize = output.len() - output_index;
        let copy_length: usize = if length < space {
            length
        } else {
            space
        };
        copy_back(output, output_index, distance, copy_length);
        self.bits.consume_bits(length_bits + dist_bits);
        let next: usize = output_index + copy_length;
        if copy_length < length {
            self.queued_backref = Some((distance, length - copy_length));
        }
        proof {
            let part = copied(out, distance as int, copy_length as nat);
            let bytes = copied(out, distance as int, length as nat);
            assert(output@.take(next as int) =~= out + part);
            assert(output@.subrange(output_index as int, next as int) =~= part);
            assert(output@.take(output_index as int) =~= before.take(output_index as int));
            lemma_copied_split(out, distance as int, length as nat, copy_length as nat);
            assert(self.pending(out + part) =~= copied(
                out + part,
                distance as int,
                (length - copy_length) as nat,
            ));
            self.lemma_reached(input, out, sum, part, bytes);
            assert(self.bits@ + byte_bits(input) =~= b.skip(length_bits + dist_bits));
        }
        Ok(Some(next))
    }

    /// Steps lead from `c` to where decoding is after output from `index` to `next` was written.
    spec fn wrote(
        &self,
        c: Config,
        input: Seq<u8>,
        before: Seq<u8>,
        after: Seq<u8>,
        index: int,
        next: int,
        sum: u32,
    ) -> bool {
        &&& appended(before, after, index, next)
        &&& self.idle() || next == after.len()
        &&& self.lookback() <= next
        &&& reaches(
            c,
            self.reached(input, after.take(next), adler_update(sum, after.subrange(index, next))),
        )
    }

    /// Writes a run of literals that comes next, if there is space for it or for the part of it
    /// that is not zeros. Returns the new output index, or `None` if there is no space.
    fn write_run(
        &mut self,
        data: [u8; 2],
        count: usize,
        bits: u8,
        output: &mut [u8],
        output_index: usize,
        Ghost(input): Ghost<Seq<u8>>,
        Ghost(sum): Ghost<u32>,
    ) -> (res: Option<usize>)
        requires
            old(self).bits.wf(),
            old(self).state == State::CompressedData,
            old(self).block_wf(),
            old(self).idle(),
            output_index <= old(output)@.len(),
            zero_from(old(output)@, output_index as int),
            1 <= count <= 13,
            0 < bits <= 12,
            bits <= old(self).bits@.len(),
            count == 1 ==> data@[1] == 0,
            literal_run(
                old(self).header.code_lengths@.take(288),
                old(self).bits@ + byte_bits(input),
                run_bytes(data@, count as nat),
                bits as int,
            ),
        ensures
            final(self).bits.wf(),
            *final(self) == (Decompressor {
                bits: final(self).bits,
                queued_rle: final(self).queued_rle,
                ..*old(self)
            }),
            final(self).queue_wf(),
            match res {
                Some(next) => {
                    let c = old(self).decoding(input, old(output)@.take(output_index as int), sum);
                    &&& final(self).bits@.len() < old(self).bits@.len()
                    &&& output_index + 2 <= old(output)@.len() || output_index + count == old(
                        output,
                    )@.len()
                    &&& final(self).reached(
                        input,
                        final(output)@.take(next as int),
                        adler_update(
                            sum,
                            final(output)@.subrange(output_index as int, next as int),
                        ),
                    ) == emit(
                        advance(c, c.phase, bits as int),
                        run_bytes(data@, count as nat),
                    )
                    &&& final(self).wrote(
                        c,
                        input,
                        old(output)@,
                        final(output)@,
                        output_index as int,
                        next as int,
                        sum,
                    )
                },
                None => {
                    &&& output_index + 2 > old(output)@.len()
                    &&& output_index + count != old(output)@.len()
                    &&& *final(self) == *old(self)
                    &&& final(output)@ == old(output)@
                },
            },
    {
        let ghost out = output@.take(output_index as int);
        let ghost before = output@;
        let ghost c = self.decoding(input, out, sum);
        let ghost bytes = run_bytes(data@, count as nat);
        proof {
            lemma_run_reaches(c, bytes, bits as int);
        }
        let space: usize = output.len() - output_index;
        if space >= 2 {
            output[output_index] = data[0];
            output[output_index + 1] = data[1];
        } else if space == count {
            output[output_index] = data[0];
        } else {
            return None;
        }
        let ghost b = self.bits@ + byte_bits(input);
        self.bits.consume_bits(bits);
        let written: usize = if count < space {
            count
        } else {
            space
        };
        let next: usize = output_index + written;
        if written < count {
            self.queued_rle = Some((0, count - written));
        }
        proof {
            let part = bytes.take(written as int);
            assert(output@.take(next as int) =~= out + part);
            assert(output@.subrange(output_index as int, next as int) =~= part);
            assert(output@.take(output_index as int) =~= before.take(output_index as int));
            assert(bytes =~= part + self.pending(out + part));
            self.lemma_reached(input, out, sum, part, bytes);
            assert(self.bits@ + byte_bits(input) =~= b.skip(bits as int));
        }
        Some(next)
    }

    /// Writes a literal that comes next.
    fn write_literal(
        &mut self,
        symbol: usize,
        bits: u8,
        output: &mut [u8],
        output_index: usize,
        Ghost(input): Ghost<Seq<u8>>,
        Ghost(sum): Ghost<u32>,
    )
        requires
            old(self).bits.wf(),
            old(self).state == State::CompressedData,
            old(self).block_wf(),
            old(self).idle(),
            output_index < old(output)@.len(),
            zero_from(old(output)@, output_index as int),
            symbol < 256,
            bits == old(self).header.code_lengths@[symbol as int],
            bits <= old(self).bits@.len(),
            symbol_at(
                old(self).header.code_lengths@.take(288),
                old(self).bits@ + byte_bits(input),
                symbol as int,
            ),
        ensures
            final(self).bits.wf(),
            *final(self) == (Decompressor { bits: final(self).bits, ..*old(self) }),
            final(self).bits@.len() < old(self).bits@.len(),
            final(self).wrote(
                old(self).decoding(input, old(output)@.take(output_index as int), sum),
                input,
                old(output)@,
                final(output)@,
                output_index as int,
                output_index + 1,
                sum,
            ),
            step(old(self).decoding(input, old(output)@.take(output_index as int), sum))
                == Step::Next(
                final(self).reached(
                    input,
                    final(output)@.take(output_index + 1),
                    adler_update(
                        sum,
                        final(output)@.subrange(output_index as int, output_index + 1),
                    ),
                ),
            ),
    {
        let ghost out = output@.take(output_index as int);
        let ghost before = output@;
        let ghost c = self.decoding(input, out, sum);
        let ghost b = self.bits@ + byte_bits(input);
        assert(self.header.code_lengths@.take(288)[symbol as int] <= 15);
        output[output_index] = symbol as u8;
        self.bits.consume_bits(bits);
        proof {
            let next = output_index + 1;
            let part = seq![symbol as u8];
            lemma_literal_step(c, symbol as u8);
            assert(output@.take(next) =~= out + part);
            assert(output@.subrange(output_index as int, next) =~= part);
            assert(output@.take(output_index as int) =~= before.take(output_index as int));
            assert(part =~= part + self.pending(out + part));
            self.lemma_reached(input, out, sum, part, part);
            assert(self.bits@ + byte_bits(input) =~= b.skip(bits as int));
        }
    }

    /// Leaves a block whose end comes next.
    fn end_block(
        &mut self,
        bits: u8,
        Ghost(input): Ghost<Seq<u8>>,
        Ghost(out): Ghost<Seq<u8>>,
        Ghost(sum): Ghost<u32>,
    )
        requires
            old(self).bits.wf(),
            old(self).state == State::CompressedData,
            old(self).block_wf(),
            old(self).idle(),
            old(self).bits@.len() >= 15,
            bits == old(self).header.code_lengths@[256],
            symbol_at(
                old(self).header.code_lengths@.take(288),
                old(self).bits@ + byte_bits(input),
                256,
            ),
        ensures
            final(self).bits.wf(),
            *final(self) == (Decompressor {
                bits: final(self).bits,
                state: final(self).state,
                ..*old(self)
            }),
            final(self).block_wf(),
            final(self).state == State::BlockHeader || final(self).state == State::Checksum,
            step(old(self).decoding(input, out, sum)) == Step::Next(
                final(self).decoding(input, out, sum),
            ),
    {
        proof {
            reveal(compressed_step);
        }
        let ghost b = self.bits@ + byte_bits(input);
        proof {
            assert(self.header.code_lengths@.take(288)[256] <= 15);
            lemma_decode_symbol(self.header.code_lengths@.take(288), b, 256);
        }
        self.bits.consume_bits(bits);
        self.state = if self.last_block {
            State::Checksum
        } else {
            State::BlockHeader
        };
        assert(self.bits@ + byte_bits(input) =~= b.skip(bits as int));
    }

    /// Decodes a run of literals or another symbol, if it is there and there is space for it.
    /// Returns the new output index, and whether decoding can go on.
    #[verifier::spinoff_prover]
    #[verifier::rlimit(100)]
    fn read_symbol(
        &mut self,
        remaining_input: &mut &[u8],
        output: &mut [u8],
        output_index: usize,
        Ghost(sum): Ghost<u32>,
    ) -> (res: Result<(usize, bool), DecompressionError>)
        requires
            old(self).bits.wf(),
            old(self).state == State::CompressedData,
            old(self).block_wf(),
            old(self).idle(),
            output_index <= old(output)@.len(),
            zero_from(old(output)@, output_index as int),
        ensures
            final(self).bits.wf(),
            final(self).block_wf(),
            final(self).queue_wf(),
            final(self).checksum == old(self).checksum,
            suffix_of(final(remaining_input)@, old(remaining_input)@),
            final(output)@.len() == old(output)@.len(),
            final(output)@.take(output_index as int) == old(output)@.take(output_index as int),
            ({
                let c = old(self).decoding(
                    old(remaining_input)@,
                    old(output)@.take(output_index as int),
                    sum,
                );
                match res {
                    Ok((next, more)) => {
                        &&& final(self).wrote(
                            c,
                            final(remaining_input)@,
                            old(output)@,
                            final(output)@,
                            output_index as int,
                            next as int,
                            sum,
                        )
                        &&& proceeds(
                            c,
                            final(self).reached(
                                final(remaining_input)@,
                                final(output)@.take(next as int),
                                adler_update(
                                    sum,
                                    final(output)@.subrange(output_index as int, next as int),
                                ),
                            ),
                            final(output)@.len(),
                            more || final(self).state != State::CompressedData,
                        )
                        &&& more ==> {
                            &&& final(self).state == State::CompressedData
                            &&& final(self).idle()
                            &&& final(self).bits@.len() + 8 * final(remaining_input)@.len()
                                < old(self).bits@.len() + 8 * old(remaining_input)@.len()
                        }
                        &&& !more ==> {
                            ||| final(self).state == State::BlockHeader
                            ||| final(self).state == State::Checksum
                            ||| final(self).state == State::CompressedData && next + 2
                                > final(output)@.len()
                            ||| final(self).state == State::CompressedData && final(self).full(
                                final(remaining_input)@,
                            ) && starved(
                                final(self).reached(
                                    final(remaining_input)@,
                                    final(output)@.take(next as int),
                                    adler_update(
                                        sum,
                                        final(output)@.subrange(output_index as int, next as int),
                                    ),
                                ),
                            )
                        }
                    },
                    Err(e) => {
                        &&& fails_with(c, e, final(output)@)
                        &&& final(self).state == State::CompressedData
                    },
                }
            }),
    {
        proof {
            reveal(compressed_step);
        }
        let ghost before = output@;
        let ghost litlen = self.header.code_lengths@.take(288);
        let ghost out = output@.take(output_index as int);
        let ghost c = self.decoding(remaining_input@, out, sum);
        let ghost b = c.bits;
        self.bits.fill_buffer(remaining_input);
        let ghost input = remaining_input@;
        proof {
            lemma_reaches_self(c);
            assert(self.decoding(input, out, sum) == c);
            assert(holds(before, c.out));
            self.lemma_idle_reached(input, output@, output_index as int, sum);
        }
        let nbits: u8 = self.bits.len();
        let ghost len = output@.len();
        if nbits < 15 {
            proof {
                lemma_read_stop(c, len);
            }
            return Ok((output_index, false));
        }
        let window: u64 = self.bits.peak_bits(15);
        proof {
            assert(self.bits@.take(15) =~= b.take(15));
            lemma_value_bound(b.take(15));
            lemma2_to64();
            assert(b =~= b.take(15) + b.skip(15));
            assert(b.take(15).take(12) =~= b.take(12));
        }
        match self.litlen.find(window, Ghost(litlen)) {
            Lookup::Literals { data, count, bits } => {
                proof {
                    lemma_run_extend(
                        litlen,
                        b.take(15),
                        b.skip(15),
                        run_bytes(data@, count as nat),
                        bits as int,
                    );
                }
                proof {
                    lemma_read_run(c, run_bytes(data@, count as nat), bits as int, len);
                }
                match self.write_run(
                    data,
                    count,
                    bits,
                    output,
                    output_index,
                    Ghost(input),
                    Ghost(sum),
                ) {
                    Some(next) => {
                        let more: bool = output.len() - output_index > 1
                            && self.queued_rle.is_none();
                        proof {
                            self.lemma_queued(
                                input,
                                output@,
                                output_index as int,
                                next as int,
                                sum,
                            );
                        }
                        Ok((next, more))
                    },
                    None => Ok((output_index, false)),
                }
            },
            Lookup::Symbol { symbol, bits } => {
                proof {
                    lemma_symbol_extend(litlen, b.take(15), b.skip(15), symbol as int);
                    lemma_decode_symbol(litlen, b, symbol as int);
                    assert(litlen[symbol as int] <= 15);
                }
                if symbol < 256 {
                    if output_index >= output.len() {
                        proof {
                            lemma_literal_step(c, symbol as u8);
                            lemma_read_stop(c, len);
                        }
                        return Ok((output_index, false));
                    }
                    self.write_literal(
                        symbol,
                        bits,
                        output,
                        output_index,
                        Ghost(input),
                        Ghost(sum),
                    );
                    proof {
                        let d = self.reached(
                            input,
                            output@.take(output_index + 1),
                            adler_update(
                                sum,
                                output@.subrange(output_index as int, output_index + 1),
                            ),
                        );
                        lemma_read_step(c, d, len);
                    }
                    Ok((output_index + 1, true))
                } else if symbol == 256 {
                    self.end_block(bits, Ghost(input), Ghost(out), Ghost(sum));
                    proof {
                        self.lemma_idle_reached(input, output@, output_index as int, sum);
                        lemma_reaches_step(c, c, self.decoding(input, out, sum));
                        lemma_read_step(c, self.decoding(input, out, sum), len);
                    }
                    Ok((output_index, false))
                } else if symbol > 285 {
                    proof {
                        lemma_read_stop(c, len);
                    }
                    Err(DecompressionError::InvalidLiteralLengthCode)
                } else {
                    let read: Result<Option<usize>, DecompressionError> = self.read_back_reference(
                        symbol,
                        bits,
                        output,
                        output_index,
                        Ghost(input),
                        Ghost(sum),
                    );
                    proof {
                        if !(step(c) is Next) {
                            lemma_read_stop(c, len);
                        }
                    }
                    match read {
                        Ok(Some(next)) => {
                            proof {
                                let d = self.reached(
                                    input,
                                    output@.take(next as int),
                                    adler_update(
                                        sum,
                                        output@.subrange(output_index as int, next as int),
                                    ),
                                );
                                lemma_reaches_step(c, c, d);
                                lemma_step_progress(c);
                                lemma_back_reference(c, d);
                                lemma_read_step(c, d, len);
                                self.lemma_queued(
                                    input,
                                    output@,
                                    output_index as int,
                                    next as int,
                                    sum,
                                );
                            }
                            Ok((next, self.queued_backref.is_none()))
                        },
                        Ok(None) => Ok((output_index, false)),
                        Err(e) => Err(e),
                    }
                }
            },
            Lookup::Invalid => {
                proof {
                    lemma_symbol_exists(litlen, b.take(15));
                    lemma_read_stop(c, len);
                }
                Err(DecompressionError::InvalidLiteralLengthCode)
            },
        }
    }

    /// What waits to be written does not fit.
    proof fn lemma_queued(&self, input: Seq<u8>, output: Seq<u8>, index: int, next: int, sum: u32)
        requires
            self.queue_wf(),
            0 <= index <= next <= output.len(),
            self.idle() || next == output.len(),
        ensures
            !self.idle() ==> {
                let d = self.reached(
                    input,
                    output.take(next),
                    adler_update(sum, output.subrange(index, next)),
                );
                d.out.len() > output.len() && proceeds(d, d, output.len(), false)
            },
    {
        if !self.idle() {
            lemma_read_stop(
                self.reached(
                    input,
                    output.take(next),
                    adler_update(sum, output.subrange(index, next)),
                ),
                output.len(),
            );
        }
    }

    /// Writing twice is writing.
    proof fn lemma_wrote_trans(
        &self,
        c: Config,
        mid: Self,
        mid_input: Seq<u8>,
        input: Seq<u8>,
        before: Seq<u8>,
        between: Seq<u8>,
        after: Seq<u8>,
        index: int,
        mid_index: int,
        next: int,
        sum: u32,
    )
        requires
            0 <= index,
            mid.idle(),
            mid.wrote(c, mid_input, before, between, index, mid_index, sum),
            self.wrote(
                mid.decoding(
                    mid_input,
                    between.take(mid_index),
                    adler_update(sum, between.subrange(index, mid_index)),
                ),
                input,
                between,
                after,
                mid_index,
                next,
                adler_update(sum, between.subrange(index, mid_index)),
            ),
        ensures
            self.wrote(c, input, before, after, index, next, sum),
    {
        let mid_sum = adler_update(sum, between.subrange(index, mid_index));
        lemma_appended(before, between, after, index, mid_index, next, sum);
        mid.lemma_idle_reached(mid_input, between, mid_index, mid_sum);
        lemma_reaches_trans(
            c,
            mid.decoding(mid_input, between.take(mid_index), mid_sum),
            self.reached(
                input,
                after.take(next),
                adler_update(mid_sum, after.subrange(mid_index, next)),
            ),
        );
    }

    /// Nothing has been written yet.
    proof fn lemma_wrote_nothing(&self, input: Seq<u8>, output: Seq<u8>, index: int, sum: u32)
        requires
            self.idle(),
            0 <= index <= output.len(),
            zero_from(output, index),
        ensures
            self.wrote(
                self.decoding(input, output.take(index), sum),
                input,
                output,
                output,
                index,
                index,
                sum,
            ),
    {
        self.lemma_idle_reached(input, output, index, sum);
        lemma_reaches_self(self.decoding(input, output.take(index), sum));
    }

    /// The main decoding loop: decodes the data of a block as far as it is there and there is
    /// space for it. Returns the new output index.
    fn read_compressed(
        &mut self,
        remaining_input: &mut &[u8],
        output: &mut [u8],
        output_index: usize,
        Ghost(sum): Ghost<u32>,
    ) -> (res: Result<usize, DecompressionError>)
        requires
            old(self).bits.wf(),
            old(self).state == State::CompressedData,
            old(self).block_wf(),
            old(self).idle(),
            output_index <= old(output)@.len(),
            zero_from(old(output)@, output_index as int),
        ensures
            final(self).bits.wf(),
            final(self).block_wf(),
            final(self).queue_wf(),
            final(self).checksum == old(self).checksum,
            suffix_of(final(remaining_input)@, old(remaining_input)@),
            final(output)@.len() == old(output)@.len(),
            final(output)@.take(output_index as int) == old(output)@.take(output_index as int),
            ({
                let c = old(self).decoding(
                    old(remaining_input)@,
                    old(output)@.take(output_index as int),
                    sum,
                );
                match res {
                    Ok(next) => {
                        &&& final(self).wrote(
                            c,
                            final(remaining_input)@,
                            old(output)@,
                            final(output)@,
                            output_index as int,
                            next as int,
                            sum,
                        )
                        &&& proceeds(
                            c,
                            final(self).reached(
                                final(remaining_input)@,
                                final(output)@.take(next as int),
                                adler_update(
                                    sum,
                                    final(output)@.subrange(output_index as int, next as int),
                                ),
                            ),
                            final(output)@.len(),
                            final(self).state != State::CompressedData,
                        )
                        &&& {
                            ||| final(self).state == State::BlockHeader
                            ||| final(self).state == State::Checksum
                            ||| final(self).state == State::CompressedData && next + 2
                                > final(output)@.len()
                            ||| final(self).state == State::CompressedData && final(self).full(
                                final(remaining_input)@,
                            ) && starved(
                                final(self).reached(
                                    final(remaining_input)@,
                                    final(output)@.take(next as int),
                                    adler_update(
                                        sum,
                                        final(output)@.subrange(output_index as int, next as int),
                                    ),
                                ),
                            )
                        }
                    },
                    Err(e) => {
                        &&& fails_with(c, e, final(output)@)
                        &&& final(self).state == State::CompressedData
                    },
                }
            }),
    {
        let ghost before = output@;
        let ghost c = self.decoding(remaining_input@, output@.take(output_index as int), sum);
        let mut index: usize = output_index;
        proof {
            self.lemma_wrote_nothing(remaining_input@, output@, output_index as int, sum);
            self.lemma_idle_reached(remaining_input@, output@, output_index as int, sum);
        }
        loop
            invariant
                c == old(self).decoding(
                    old(remaining_input)@,
                    old(output)@.take(output_index as int),
                    sum,
                ),
                before == old(output)@,
                self.bits.wf(),
                self.state == State::CompressedData,
                self.block_wf(),
                self.idle(),
                self.checksum == old(self).checksum,
                suffix_of(remaining_input@, old(remaining_input)@),
                self.wrote(
                    c,
                    remaining_input@,
                    before,
                    output@,
                    output_index as int,
                    index as int,
                    sum,
                ),
                proceeds(
                    c,
                    self.reached(
                        remaining_input@,
                        output@.take(index as int),
                        adler_update(sum, output@.subrange(output_index as int, index as int)),
                    ),
                    before.len(),
                    true,
                ),
            decreases self.bits@.len() + 8 * remaining_input@.len(),
        {
            let ghost mid = *self;
            let ghost mid_input = remaining_input@;
            let ghost between = output@;
            let ghost mid_index = index as int;
            let ghost mid_sum = adler_update(
                sum,
                between.subrange(output_index as int, mid_index),
            );
            let read: Result<(usize, bool), DecompressionError> = self.read_symbol(
                remaining_input,
                output,
                index,
                Ghost(mid_sum),
            );
            proof {
                lemma_suffix_trans(remaining_input@, mid_input, old(remaining_input)@);
                mid.lemma_idle_reached(mid_input, between, mid_index, mid_sum);
                assert(output@.take(output_index as int) =~= output@.take(mid_index).take(
                    output_index as int,
                ));
                assert(between.take(output_index as int) =~= between.take(mid_index).take(
                    output_index as int,
                ));
            }
            match read {
                Ok((next, more)) => {
                    proof {
                        self.lemma_wrote_trans(
                            c,
                            mid,
                            mid_input,
                            remaining_input@,
                            before,
                            between,
                            output@,
                            output_index as int,
                            mid_index,
                            next as int,
                            sum,
                        );
                        lemma_appended(
                            before,
                            between,
                            output@,
                            output_index as int,
                            mid_index,
                            next as int,
                            sum,
                        );
                    }
                    index = next;
                    if !more {
                        return Ok(index);
                    }
                },
                Err(e) => {
                    proof {
                        lemma_fails_with(
                            c,
                            mid.decoding(mid_input, between.take(mid_index), mid_sum),
                            e,
                            output@,
                        );
                    }
                    return Err(e);
                },
            }
        }
    }

    /// Writes the next byte of a stored block.
    fn write_stored(
        &mut self,
        byte: u8,
        output: &mut [u8],
        output_index: usize,
        Ghost(c): Ghost<Config>,
        Ghost(input): Ghost<Seq<u8>>,
        Ghost(sum): Ghost<u32>,
    )
        requires
            old(self).bits.wf(),
            old(self).bits@.len() % 8 == 0,
            old(self).state == State::UncompressedData,
            old(self).idle(),
            old(self).uncompressed_bytes_left > 0,
            output_index < old(output)@.len(),
            zero_from(old(output)@, output_index as int),
            c.phase == old(self).phase(),
            c.out == old(output)@.take(output_index as int),
            c.sum == sum,
            c.bits.len() >= 8,
            byte == value(c.bits.take(8)),
            old(self).bits@ + byte_bits(input) == c.bits.skip(8),
        ensures
            *final(self) == (Decompressor {
                uncompressed_bytes_left: (old(self).uncompressed_bytes_left - 1) as u16,
                ..*old(self)
            }),
            final(self).wrote(
                c,
                input,
                old(output)@,
                final(output)@,
                output_index as int,
                output_index + 1,
                sum,
            ),
            proceeds(
                c,
                final(self).reached(
                    input,
                    final(output)@.take(output_index + 1),
                    adler_update(
                        sum,
                        final(output)@.subrange(output_index as int, output_index + 1),
                    ),
                ),
                final(output)@.len(),
                true,
            ),
    {
        let ghost before = output@;
        output[output_index] = byte;
        self.uncompressed_bytes_left = self.uncompressed_bytes_left - 1;
        proof {
            let next = output_index + 1;
            let part = seq![byte];
            assert(output@.take(next) =~= c.out + part);
            assert(output@.subrange(output_index as int, next) =~= part);
            assert(output@.take(output_index as int) =~= before.take(output_index as int));
            assert(part =~= part + self.pending(c.out + part));
            self.lemma_reached(input, c.out, sum, part, part);
            lemma_reaches_self(c);
            let d = self.decoding(input, c.out + part, adler_update(sum, part));
            lemma_reaches_step(c, c, d);
            lemma_read_step(c, d, output@.len());
        }
    }

    /// Copies a stored block as far as it is there and there is space for it. Returns the new
    /// output index.
    fn read_stored(
        &mut self,
        remaining_input: &mut &[u8],
        output: &mut [u8],
        output_index: usize,
        Ghost(sum): Ghost<u32>,
    ) -> (next: usize)
        requires
            old(self).bits.wf(),
            old(self).state == State::UncompressedData,
            old(self).block_wf(),
            output_index <= old(output)@.len(),
            zero_from(old(output)@, output_index as int),
        ensures
            final(self).bits.wf(),
            final(self).block_wf(),
            final(self).idle(),
            final(self).checksum == old(self).checksum,
            suffix_of(final(remaining_input)@, old(remaining_input)@),
            final(self).wrote(
                old(self).decoding(
                    old(remaining_input)@,
                    old(output)@.take(output_index as int),
                    sum,
                ),
                final(remaining_input)@,
                old(output)@,
                final(output)@,
                output_index as int,
                next as int,
                sum,
            ),
            proceeds(
                old(self).decoding(
                    old(remaining_input)@,
                    old(output)@.take(output_index as int),
                    sum,
                ),
                final(self).reached(
                    final(remaining_input)@,
                    final(output)@.take(next as int),
                    adler_update(sum, final(output)@.subrange(output_index as int, next as int)),
                ),
                final(output)@.len(),
                final(self).state != State::UncompressedData,
            ),
            ({
                ||| final(self).state == State::BlockHeader
                ||| final(self).state == State::Checksum
                ||| final(self).state == State::UncompressedData && next == final(output)@.len()
                ||| final(self).state == State::UncompressedData && final(self).full(
                    final(remaining_input)@,
                ) && starved(
                    final(self).reached(
                        final(remaining_input)@,
                        final(output)@.take(next as int),
                        adler_update(
                            sum,
                            final(output)@.subrange(output_index as int, next as int),
                        ),
                    ),
                )
            }),
    {
        let ghost before = output@;
        let ghost c = self.decoding(remaining_input@, output@.take(output_index as int), sum);
        let mut index: usize = output_index;
        proof {
            self.lemma_wrote_nothing(remaining_input@, output@, output_index as int, sum);
            self.lemma_idle_reached(remaining_input@, output@, output_index as int, sum);
        }
        // Drain any bytes from our buffer.
        while self.bits.len() > 0 && self.uncompressed_bytes_left > 0 && index < output.len()
            invariant
                self.bits.wf(),
                self.bits@.len() % 8 == 0,
                self.state == State::UncompressedData,
                self.idle(),
                self.checksum == old(self).checksum,
                remaining_input@ == old(remaining_input)@,
                before.len() == output@.len(),
                self.wrote(
                    c,
                    remaining_input@,
                    before,
                    output@,
                    output_index as int,
                    index as int,
                    sum,
                ),
                proceeds(
                    c,
                    self.reached(
                        remaining_input@,
                        output@.take(index as int),
                        adler_update(sum, output@.subrange(output_index as int, index as int)),
                    ),
                    before.len(),
                    true,
                ),
            decreases self.uncompressed_bytes_left,
        {
            let ghost mid = *self;
            let ghost between = output@;
            let ghost mid_sum = adler_update(
                sum,
                between.subrange(output_index as int, index as int),
            );
            let ghost mid_c = self.decoding(remaining_input@, output@.take(index as int), mid_sum);
            proof {
                self.lemma_idle_reached(remaining_input@, output@, index as int, mid_sum);
            }
            let byte: u64 = self.bits.peak_bits(8);
            proof {
                assert(self.bits@.take(8) =~= mid_c.bits.take(8));
                lemma_value_bound(mid_c.bits.take(8));
                lemma2_to64();
            }
            self.bits.consume_bits(8);
            assert(self.bits@ + byte_bits(remaining_input@) =~= mid_c.bits.skip(8));
            self.write_stored(
                byte as u8,
                output,
                index,
                Ghost(mid_c),
                Ghost(remaining_input@),
                Ghost(mid_sum),
            );
            proof {
                self.lemma_wrote_trans(
                    c,
                    mid,
                    remaining_input@,
                    remaining_input@,
                    before,
                    between,
                    output@,
                    output_index as int,
                    index as int,
                    index + 1,
                    sum,
                );
                lemma_appended(
                    before,
                    between,
                    output@,
                    output_index as int,
                    index as int,
                    index + 1,
                    sum,
                );
            }
            index = index + 1;
        }
        // Copy subsequent bytes directly from the input.
        while self.uncompressed_bytes_left > 0 && remaining_input.len() > 0 && index < output.len()
            invariant
                self.bits.wf(),
                self.bits@.len() % 8 == 0,
                self.state == State::UncompressedData,
                self.idle(),
                self.checksum == old(self).checksum,
                self.bits@.len() == 0 || self.uncompressed_bytes_left == 0 || index
                    >= output@.len(),
                suffix_of(remaining_input@, old(remaining_input)@),
                before.len() == output@.len(),
                self.wrote(
                    c,
                    remaining_input@,
                    before,
                    output@,
                    output_index as int,
                    index as int,
                    sum,
                ),
                proceeds(
                    c,
                    self.reached(
                        remaining_input@,
                        output@.take(index as int),
                        adler_update(sum, output@.subrange(output_index as int, index as int)),
                    ),
                    before.len(),
                    true,
                ),
            decreases self.uncompressed_bytes_left,
        {
            let ghost mid = *self;
            let ghost mid_input = remaining_input@;
            let ghost between = output@;
            let ghost mid_sum = adler_update(
                sum,
                between.subrange(output_index as int, index as int),
            );
            let ghost mid_c = self.decoding(remaining_input@, output@.take(index as int), mid_sum);
            proof {
                self.lemma_idle_reached(remaining_input@, output@, index as int, mid_sum);
            }
            let byte: u8 = remaining_input[0];
            *remaining_input = vstd::slice::slice_subrange(
                *remaining_input,
                1,
                remaining_input.len(),
            );
            proof {
                lemma_first_byte(mid_input);
                assert(mid_c.bits =~= byte_bits(mid_input));
                assert(remaining_input@ =~= mid_input.skip(1));
                assert(self.bits@ + byte_bits(remaining_input@) =~= mid_c.bits.skip(8));
                lemma_suffix_trans(remaining_input@, mid_input, old(remaining_input)@);
            }
            self.write_stored(
                byte,
                output,
                index,
                Ghost(mid_c),
                Ghost(remaining_input@),
                Ghost(mid_sum),
            );
            proof {
                self.lemma_wrote_trans(
                    c,
                    mid,
                    mid_input,
                    remaining_input@,
                    before,
                    between,
                    output@,
                    output_index as int,
                    index as int,
                    index + 1,
                    sum,
                );
                lemma_appended(
                    before,
                    between,
                    output@,
                    output_index as int,
                    index as int,
                    index + 1,
                    sum,
                );
            }
            index = index + 1;
        }
        let ghost out = output@.take(index as int);
        let ghost out_sum = adler_update(sum, output@.subrange(output_index as int, index as int));
        let ghost d = self.decoding(remaining_input@, out, out_sum);
        proof {
            self.lemma_idle_reached(remaining_input@, output@, index as int, out_sum);
        }
        if self.uncompressed_bytes_left == 0 {
            self.state = if self.last_block {
                State::Checksum
            } else {
                State::BlockHeader
            };
            proof {
                lemma_reaches_step(c, d, self.decoding(remaining_input@, out, out_sum));
                lemma_read_step(d, self.decoding(remaining_input@, out, out_sum), output@.len());
                self.lemma_idle_reached(remaining_input@, output@, index as int, out_sum);
            }
        } else {
            proof {
                lemma_read_stop(d, output@.len());
            }
        }
        index
    }

    /// Writes what waits to be written, as far as there is space for it. Returns the new output
    /// index.
    #[verifier::spinoff_prover]
    #[verifier::rlimit(60)]
    fn write_pending(
        &mut self,
        output: &mut [u8],
        output_index: usize,
        Ghost(input): Ghost<Seq<u8>>,
        Ghost(sum): Ghost<u32>,
    ) -> (next: usize)
        requires
            old(self).queue_wf(),
            old(self).lookback() <= output_index <= old(output)@.len(),
            zero_from(old(output)@, output_index as int),
        ensures
            *final(self) == (Decompressor {
                queued_rle: final(self).queued_rle,
                queued_backref: final(self).queued_backref,
                ..*old(self)
            }),
            final(self).queue_wf(),
            old(self).idle() ==> final(self).idle() && next == output_index,
            final(self).wrote(
                old(self).reached(input, old(output)@.take(output_index as int), sum),
                input,
                old(output)@,
                final(output)@,
                output_index as int,
                next as int,
                sum,
            ),
            final(self).reached(
                input,
                final(output)@.take(next as int),
                adler_update(sum, final(output)@.subrange(output_index as int, next as int)),
            ) == old(self).reached(input, old(output)@.take(output_index as int), sum),
    {
        let ghost c = self.reached(input, output@.take(output_index as int), sum);
        let ghost before = output@;
        let ghost out = output@.take(output_index as int);
        let ghost bytes = self.pending(out);
        let space: usize = output.len() - output_index;
        let mut n: usize = 0;
        let ghost mut part = Seq::<u8>::empty();
        if let Some((data, len)) = self.queued_rle {
            n = if len < space {
                len
            } else {
                space
            };
            fill(output, output_index, data, n);
            self.queued_rle = if n < len {
                Some((data, len - n))
            } else {
                None
            };
            proof {
                part = repeated(data, n as nat);
                assert(bytes =~= part + self.pending(out + part));
            }
        } else if let Some((dist, len)) = self.queued_backref {
            n = if len < space {
                len
            } else {
                space
            };
            copy_back(output, output_index, dist, n);
            self.queued_backref = if n < len {
                Some((dist, len - n))
            } else {
                None
            };
            proof {
                lemma_copied_split(out, dist as int, len as nat, n as nat);
                part = copied(out, dist as int, n as nat);
                assert(self.pending(out + part) =~= copied(
                    out + part,
                    dist as int,
                    (len - n) as nat,
                ));
                assert(bytes == part + self.pending(out + part));
            }
        } else {
            assert(bytes =~= part + self.pending(out + part));
            assert(before =~= written(before, output_index as int, part));
        }
        let next: usize = output_index + n;
        proof {
            assert(output@.subrange(output_index as int, next as int) =~= part);
            assert(output@.take(next as int) =~= out + part);
            assert(output@.take(output_index as int) =~= before.take(output_index as int));
            self.lemma_reached(input, out, sum, part, bytes);
            lemma_reaches_self(c);
        }
        next
    }

    /// Reads the zlib header, if it is there.
    fn read_zlib_header(
        &mut self,
        remaining_input: &mut &[u8],
        Ghost(out): Ghost<Seq<u8>>,
        Ghost(sum): Ghost<u32>,
    ) -> (res: Result<(), DecompressionError>)
        requires
            old(self).bits.wf(),
            old(self).state == State::ZlibHeader,
            old(self).block_wf(),
        ensures
            *final(self) == (Decompressor { state: final(self).state, ..*old(self) }),
            final(self).block_wf(),
            suffix_of(final(remaining_input)@, old(remaining_input)@),
            ({
                let c = old(self).decoding(old(remaining_input)@, out, sum);
                let d = final(self).decoding(final(remaining_input)@, out, sum);
                match step(c) {
                    Step::Next(e) => res is Ok && d == e && final(self).state
                        == State::BlockHeader,
                    Step::Fail(e) => res == Err::<(), DecompressionError>(e) && final(self).state
                        == State::ZlibHeader,
                    Step::NeedInput => res is Ok && d == c && final(self).state
                        == State::ZlibHeader && final(remaining_input)@ == old(remaining_input)@,
                    Step::Finished => false,
                }
            }),
    {
        let ghost input = remaining_input@;
        let ghost b = self.bits@ + byte_bits(input);
        assert(b =~= byte_bits(input));
        if remaining_input.len() < 2 {
            return Ok(());
        }
        let cmf: u8 = remaining_input[0];
        let flg: u8 = remaining_input[1];
        proof {
            lemma_first_byte(input);
            lemma_first_byte(input.skip(1));
            assert(b.subrange(8, 16) =~= byte_bits(input.skip(1)).take(8));
            assert(b.skip(16) =~= byte_bits(input.skip(1)).skip(8));
            assert(input.skip(1).skip(1) =~= input.skip(2));
            assert((cmf & 0x0f) == cmf % 16 && ((cmf & 0xf0) > 0x70 <==> cmf / 16 > 7) && ((flg & 0x20)
                != 0 <==> (flg / 32) % 2 != 0)) by (bit_vector);
        }
        if cmf & 0x0f != 0x08 || (cmf & 0xf0) > 0x70 || flg & 0x20 != 0 || (256 * (cmf as u16)
            + flg as u16) % 31 != 0 {
            return Err(DecompressionError::BadZlibHeader);
        }
        *remaining_input = vstd::slice::slice_subrange(*remaining_input, 2, remaining_input.len());
        proof {
            assert(remaining_input@ =~= input.skip(2));
            assert(self.bits@ + byte_bits(remaining_input@) =~= b.skip(16));
        }
        self.state = State::BlockHeader;
        Ok(())
    }

    /// Reads the checksum, if it is there, and compares it with that of the output.
    #[verifier::rlimit(30)]
    fn read_checksum(
        &mut self,
        remaining_input: &mut &[u8],
        sum: u32,
        Ghost(out): Ghost<Seq<u8>>,
    ) -> (res: Result<(), DecompressionError>)
        requires
            old(self).bits.wf(),
            old(self).state == State::Checksum,
            old(self).block_wf(),
        ensures
            final(self).bits.wf(),
            *final(self) == (Decompressor {
                state: final(self).state,
                bits: final(self).bits,
                ..*old(self)
            }),
            final(self).block_wf(),
            suffix_of(final(remaining_input)@, old(remaining_input)@),
            ({
                let c = old(self).decoding(old(remaining_input)@, out, sum);
                let d = final(self).decoding(final(remaining_input)@, out, sum);
                match step(c) {
                    Step::Next(e) => res is Ok && d == e && final(self).state == State::Done,
                    Step::Fail(e) => res == Err::<(), DecompressionError>(e) && final(self).state
                        == State::Checksum,
                    Step::NeedInput => res is Ok && d == c && final(self).state == State::Checksum
                        && final(self).full(final(remaining_input)@),
                    Step::Finished => false,
                }
            }),
    {
        let ghost b = self.bits@ + byte_bits(remaining_input@);
        self.bits.fill_buffer(remaining_input);
        let nbits: u8 = self.bits.len();
        let pad: u8 = nbits % 8;
        assert(b.len() % 8 == pad as int);
        if nbits < 32 + pad {
            return Ok(());
        }
        let bits: u64 = self.bits.peak_bits(pad + 32);
        proof {
            let n = (pad + 32) as nat;
            assert(self.bits@.take(n as int) =~= b.take(n as int));
            lemma_inner_field(bits, b, pad as nat, 8, n);
            lemma_inner_field(bits, b, (pad + 8) as nat, 8, n);
            lemma_inner_field(bits, b, (pad + 16) as nat, 8, n);
            lemma_inner_field(bits, b, (pad + 24) as nat, 8, n);
            lemma_value_bound(b.subrange(pad as int, pad + 8));
            lemma_value_bound(b.subrange(pad + 8, pad + 16));
            lemma_value_bound(b.subrange(pad + 16, pad + 24));
            lemma_value_bound(b.subrange(pad + 24, pad + 32));
            lemma2_to64();
            assert(((1u64 << 8) - 1) as u64 == 0xff) by (bit_vector);
        }
        // The most significant byte comes first.
        let stored: u64 = 0x100_0000 * ((bits >> pad) & 0xff) + 0x1_0000 * ((bits >> (pad + 8))
            & 0xff) + 0x100 * ((bits >> (pad + 16)) & 0xff) + ((bits >> (pad + 24)) & 0xff);
        if stored != sum as u64 {
            return Err(DecompressionError::WrongChecksum);
        }
        self.bits.consume_bits(pad + 32);
        assert(self.bits@ + byte_bits(remaining_input@) =~= b.skip(pad + 32));
        self.state = State::Done;
        Ok(())
    }

    /// Goes on in the current state. Returns the new output index.
    fn advance_state(
        &mut self,
        remaining_input: &mut &[u8],
        output: &mut [u8],
        output_index: usize,
        Ghost(sum): Ghost<u32>,
    ) -> (res: Result<usize, DecompressionError>)
        requires
            old(self).bits.wf(),
            old(self).block_wf(),
            old(self).idle(),
            old(self).state != State::Done,
            old(self).state == State::Checksum ==> sum == old(self).checksum,
            output_index <= old(output)@.len(),
            zero_from(old(output)@, output_index as int),
        ensures
            final(self).bits.wf(),
            final(self).block_wf(),
            final(self).queue_wf(),
            final(self).checksum == old(self).checksum,
            suffix_of(final(remaining_input)@, old(remaining_input)@),
            final(output)@.len() == old(output)@.len(),
            final(output)@.take(output_index as int) == old(output)@.take(output_index as int),
            ({
                let c = old(self).decoding(
                    old(remaining_input)@,
                    old(output)@.take(output_index as int),
                    sum,
                );
                match res {
                    Ok(next) => {
                        &&& final(self).wrote(
                            c,
                            final(remaining_input)@,
                            old(output)@,
                            final(output)@,
                            output_index as int,
                            next as int,
                            sum,
                        )
                        &&& final(self).state == State::ZlibHeader ==> {
                            &&& old(self).state == State::ZlibHeader
                            &&& final(remaining_input)@ == old(remaining_input)@
                            &&& next == output_index
                        }
                        &&& proceeds(
                            c,
                            final(self).reached(
                                final(remaining_input)@,
                                final(output)@.take(next as int),
                                adler_update(
                                    sum,
                                    final(output)@.subrange(output_index as int, next as int),
                                ),
                            ),
                            final(output)@.len(),
                            final(self).state != old(self).state,
                        )
                        &&& {
                            ||| final(self).state != old(self).state && final(self).idle()
                            ||| final(self).state == old(self).state && next + 2
                                > final(output)@.len()
                            ||| final(self).state == old(self).state && (final(self).full(
                                final(remaining_input)@,
                            ) || final(self).state == State::ZlibHeader) && starved(
                                final(self).reached(
                                    final(remaining_input)@,
                                    final(output)@.take(next as int),
                                    adler_update(
                                        sum,
                                        final(output)@.subrange(output_index as int, next as int),
                                    ),
                                ),
                            )
                        }
                    },
                    Err(e) => {
                        &&& fails_with(c, e, final(output)@)
                        &&& final(self).state == old(self).state
                    },
                }
            }),
    {
        let ghost out = output@.take(output_index as int);
        let ghost c = self.decoding(remaining_input@, out, sum);
        proof {
            lemma_reaches_self(c);
            assert(holds(output@, out));
        }
        let read: Result<(), DecompressionError> = match self.state {
            State::ZlibHeader => self.read_zlib_header(remaining_input, Ghost(out), Ghost(sum)),
            State::BlockHeader => self.read_block_header(remaining_input, Ghost(out), Ghost(sum)),
            State::CodeLengths => self.read_code_lengths(
                remaining_input,
                Ghost(out),
                Ghost(output@.len()),
                Ghost(sum),
            ),
            State::CompressedData => {
                return self.read_compressed(remaining_input, output, output_index, Ghost(sum));
            },
            State::UncompressedData => {
                return Ok(self.read_stored(remaining_input, output, output_index, Ghost(sum)));
            },
            _ => self.read_checksum(remaining_input, self.checksum, Ghost(out)),
        };
        proof {
            if !(c.phase is CodeLengths) && !(step(c) is Next) {
                lemma_read_stop(c, output@.len());
            }
        }
        match read {
            Ok(()) => {
                proof {
                    let d = self.decoding(remaining_input@, out, sum);
                    self.lemma_idle_reached(remaining_input@, output@, output_index as int, sum);
                    if let Step::Next(e) = step(c) {
                        lemma_reaches_step(c, c, e);
                        if !(c.phase is CodeLengths) {
                            lemma_no_output(c, e);
                            lemma_read_step(c, e, output@.len());
                        }
                    }
                    assert(reaches(c, d));
                }
                Ok(output_index)
            },
            Err(e) => Err(e),
        }
    }

    /// Create a new decompressor.
    pub fn new() -> (res: Self)
        ensures
            res.wf(),
            res.lookback() == 0,
            forall|out: Seq<u8>| #[trigger] res.pending(out) == Seq::<u8>::empty(),
            forall|input: Seq<u8>, out: Seq<u8>| #[trigger]
                res.config(input, out) == (Config { out, ..start(input) }),
            forall|input: Seq<u8>| #[trigger]
                res.config(input, Seq::empty()) == start(input),
    {
        let res = Decompressor {
            litlen: LitLenTable::new(),
            dist: DistanceCode::new(),
            header: BlockHeader {
                hlit: 0,
                hdist: 0,
                num_lengths_read: 0,
                clcl: Ghost(Seq::empty()),
                table: [0; 128],
                code_lengths: [0; 320],
            },
            uncompressed_bytes_left: 0,
            bits: BitBuffer::new(),
            queued_rle: None,
            queued_backref: None,
            last_block: false,
            state: State::ZlibHeader,
            checksum: ADLER_INIT,
        };
        assert forall|input: Seq<u8>, out: Seq<u8>| #[trigger]
            res.config(input, out) == (Config { out, ..start(input) }) by {
            assert(res.config(input, out) =~= (Config { out, ..start(input) }));
        }
        res
    }

    /// Decompresses a chunk of data.
    ///
    /// Returns the number of bytes read from `input` and the number of bytes written to `output`,
    /// or an error if the deflate stream is not valid. `input` is the compressed data. `output`
    /// is the buffer to write the decompressed data to, from `output_position` on; what it holds
    /// before that is the output so far, and what it holds after that has to be zeros.
    /// `end_of_input` indicates whether more data may be available in the future.
    ///
    /// Decoding goes on until the end of the stream, until more input is needed, which is an error
    /// at the end of the input, or until output comes that does not fit in `output`. Where exactly
    /// it stops is [`read_end`]: with one byte of `output` left it may already stop, and when
    /// `output` is full it still reads what gives no output. Decoded bytes wait to be written by
    /// the next call only when `output` is full. An error comes only when all output before it has
    /// been written.
    #[verifier::rlimit(50)]
    pub fn read(
        &mut self,
        input: &[u8],
        output: &mut [u8],
        output_position: usize,
        end_of_input: bool,
    ) -> (res: Result<(usize, usize), DecompressionError>)
        requires
            old(self).wf(),
            old(self).phase() is Done || {
                &&& output_position + 2 <= old(output)@.len()
                &&& zero_from(old(output)@, output_position as int)
                &&& old(self).lookback() <= output_position
            },
        ensures
            final(self).wf(),
            final(output)@.len() == old(output)@.len(),
            final(output)@.take(output_position as int) == old(output)@.take(
                output_position as int,
            ),
            old(self).phase() is Done ==> {
                &&& res == Ok::<(usize, usize), DecompressionError>((0, 0))
                &&& *final(self) == *old(self)
                &&& final(output)@ == old(output)@
            },
            !(old(self).phase() is Done) ==> match res {
                Ok((consumed, produced)) => {
                    let next = output_position + produced;
                    let c = old(self).config(input@, old(output)@.take(output_position as int));
                    let d = final(self).config(
                        input@.skip(consumed as int),
                        final(output)@.take(next),
                    );
                    &&& consumed <= input@.len()
                    &&& final(self).buffered().len() <= 64
                    &&& next <= final(output)@.len()
                    &&& zero_from(final(output)@, next)
                    &&& forall|i: int|
                        next <= i < final(output)@.len() ==> #[trigger] final(output)@[i] == 0
                    &&& final(self).lookback() <= next
                    &&& reaches(c, d)
                    &&& d == read_end(c, final(output)@.len())
                    &&& final(self).pending(final(output)@.take(next)).len() == 0 || next
                        == final(output)@.len()
                    &&& d.phase is ZlibHeader ==> consumed == 0 && produced == 0
                    &&& {
                        ||| d.phase is Done
                        ||| next + 2 > final(output)@.len()
                        ||| !end_of_input && starved(d) && (final(self).buffered().len() >= 56
                            || consumed == input@.len() || d.phase is ZlibHeader)
                    }
                },
                Err(e) => {
                    let c = old(self).config(input@, old(output)@.take(output_position as int));
                    &&& decode(c) == Err::<Seq<u8>, DecompressionError>(e)
                    &&& !(final(self).phase() is Done)
                    &&& e is InsufficientInput ==> end_of_input && runs_short(c, final(output)@)
                    &&& !(e is InsufficientInput) ==> fails_with(c, e, final(output)@)
                },
            },
    {
        if self.state == State::Done {
            return Ok((0, 0));
        }
        let ghost before = output@;
        let ghost c = self.config(input@, before.take(output_position as int));
        let ghost sum = self.checksum;
        let ghost position = output_position as int;
        let mut remaining_input: &[u8] = input;
        let mut output_index: usize = self.write_pending(
            output,
            output_position,
            Ghost(input@),
            Ghost(sum),
        );

        // What has been written up to here is in the checksum.
        let mut summed: usize = output_position;

        // Main decoding state machine.
        let mut changed: bool = self.queued_rle.is_none() && self.queued_backref.is_none();
        proof {
            self.lemma_queued(input@, output@, position, output_index as int, sum);
        }
        while changed && self.state != State::Done
            invariant
                self.bits.wf(),
                self.block_wf(),
                self.queue_wf(),
                position <= summed <= output_index,
                self.checksum == adler_update(sum, output@.subrange(position, summed as int)),
                valid_sum(self.checksum),
                sum == old(self).checksum,
                before == old(output)@,
                position == output_position,
                c == old(self).config(input@, before.take(position)),
                changed ==> self.idle(),
                self.state == State::ZlibHeader ==> remaining_input@ == input@ && output_index
                    == position,
                suffix_of(remaining_input@, input@),
                output@.len() == before.len(),
                output@.take(position) == before.take(position),
                self.wrote(
                    c,
                    remaining_input@,
                    before,
                    output@,
                    position,
                    output_index as int,
                    sum,
                ),
                proceeds(
                    c,
                    self.reached(
                        remaining_input@,
                        output@.take(output_index as int),
                        adler_update(sum, output@.subrange(position, output_index as int)),
                    ),
                    output@.len(),
                    changed,
                ),
                changed || output_index + 2 > output@.len() || (starved(
                    self.reached(
                        remaining_input@,
                        output@.take(output_index as int),
                        adler_update(sum, output@.subrange(position, output_index as int)),
                    ),
                ) && (self.full(remaining_input@) || self.state == State::ZlibHeader)),
            decreases
                    self.bits@.len() + 8 * remaining_input@.len(),
                    rank(self.phase()),
                    if changed {
                        1int
                    } else {
                        0
                    },
        {
            let ghost mid = *self;
            let ghost mid_input = remaining_input@;
            let ghost between = output@;
            let ghost mid_index = output_index as int;
            let ghost mid_sum = adler_update(sum, between.subrange(position, mid_index));
            let last_state: State = self.state;
            if let State::Checksum = self.state {
                self.add_to_checksum(output, summed, output_index, Ghost(position), Ghost(sum));
                summed = output_index;
            }
            let read: Result<usize, DecompressionError> = self.advance_state(
                &mut remaining_input,
                output,
                output_index,
                Ghost(mid_sum),
            );
            proof {
                lemma_suffix_trans(remaining_input@, mid_input, input@);
                mid.lemma_idle_reached(mid_input, between, mid_index, mid_sum);
                assert(output@.take(position) =~= output@.take(mid_index).take(position));
                assert(between.take(position) =~= between.take(mid_index).take(position));
                assert(output@.subrange(position, summed as int) =~= output@.take(
                    mid_index,
                ).subrange(position, summed as int));
                assert(between.subrange(position, summed as int) =~= between.take(
                    mid_index,
                ).subrange(position, summed as int));
            }
            match read {
                Ok(next) => {
                    proof {
                        self.lemma_wrote_trans(
                            c,
                            mid,
                            mid_input,
                            remaining_input@,
                            before,
                            between,
                            output@,
                            position,
                            mid_index,
                            next as int,
                            sum,
                        );
                        lemma_appended(
                            before,
                            between,
                            output@,
                            position,
                            mid_index,
                            next as int,
                            sum,
                        );
                        let mid_c = mid.decoding(mid_input, between.take(mid_index), mid_sum);
                        let next_c = self.reached(
                            remaining_input@,
                            output@.take(next as int),
                            adler_update(mid_sum, output@.subrange(mid_index, next as int)),
                        );
                        lemma_reaches_progress(mid_c, next_c);
                        assert(mid_c.bits.len() == mid.bits@.len() + 8 * mid_input.len());
                        assert(next_c.bits.len() == self.bits@.len() + 8 * remaining_input@.len());
                        assert(mid_c.phase == mid.phase() && next_c.phase == self.phase());
                        assert(self.state != mid.state ==> self.phase() != mid.phase());
                    }
                    output_index = next;
                    changed = self.state != last_state;
                },
                Err(e) => {
                    proof {
                        lemma_fails_with(
                            c,
                            mid.decoding(mid_input, between.take(mid_index), mid_sum),
                            e,
                            output@,
                        );
                        lemma_fails_decode(c, e);
                    }
                    return Err(e);
                },
            }
        }
        self.add_to_checksum(output, summed, output_index, Ghost(position), Ghost(sum));
        let consumed: usize = input.len() - remaining_input.len();
        let ghost d = self.config(remaining_input@, output@.take(output_index as int));
        proof {
            assert(input@.skip(consumed as int) =~= remaining_input@);
            self.bits.lemma_len();
            assert(reaches(c, d));
            if d.phase is Done {
                lemma_read_stop(d, output@.len());
            }
        }
        if self.state == State::Done || !end_of_input || output.len() - output_index <= 1 {
            Ok((consumed, output_index - output_position))
        } else {
            proof {
                law_decode_resumes(c, d);
                assert(d.out =~= output@.take(output_index as int));
                assert(runs_short(c, output@));
            }
            Err(DecompressionError::InsufficientInput)
        }
    }

    /// Brings the checksum from what has been written up to `summed` to what has been written up
    /// to `output_index`.
    fn add_to_checksum(
        &mut self,
        output: &[u8],
        summed: usize,
        output_index: usize,
        Ghost(position): Ghost<int>,
        Ghost(sum): Ghost<u32>,
    )
        requires
            0 <= position <= summed <= output_index <= output@.len(),
            valid_sum(old(self).checksum),
            old(self).checksum == adler_update(sum, output@.subrange(position, summed as int)),
        ensures
            *final(self) == (Decompressor { checksum: final(self).checksum, ..*old(self) }),
            valid_sum(final(self).checksum),
            final(self).checksum == adler_update(
                sum,
                output@.subrange(position, output_index as int),
            ),
    {
        let written: &[u8] = vstd::slice::slice_subrange(output, summed, output_index);
        proof {
            lemma_adler_valid(self.checksum, written@);
            lemma_adler_concat(sum, output@.subrange(position, summed as int), written@);
            assert(output@.subrange(position, output_index as int) =~= output@.subrange(
                position,
                summed as int,
            ) + written@);
        }
        self.checksum = update_checksum(self.checksum, written);
    }

    /// Returns true if the decompressor has finished decompressing the input.
    pub fn done(&self) -> (res: bool)
        ensures
            res == (self.phase() is Done),
    {
        self.state == State::Done
    }

    /// When decompression is finished, what has been written is what the stream decodes to.
    pub proof fn law_finished(&self, input: Seq<u8>, out: Seq<u8>)
        requires
            self.wf(),
            self.phase() is Done,
        ensures
            decode(self.config(input, out)) == Ok::<Seq<u8>, DecompressionError>(out),
    {
        assert(out + self.pending(out) =~= out);
    }

    /// Input can be handed over in parts: when `self` became `after` by reading from `first`, all
    /// of `first` and `second` decodes to the same as what is left of both does afterwards.
    pub proof fn law_input_in_parts(
        &self,
        after: &Self,
        first: Seq<u8>,
        second: Seq<u8>,
        consumed: int,
        out: Seq<u8>,
        next_out: Seq<u8>,
    )
        requires
            self.wf(),
            0 <= consumed <= first.len(),
            reaches(self.config(first, out), after.config(first.skip(consumed), next_out)),
        ensures
            reaches(
                self.config(first + second, out),
                after.config(first.skip(consumed) + second, next_out),
            ),
            decode(self.config(first + second, out)) == decode(
                after.config(first.skip(consumed) + second, next_out),
            ),
    {
        let c = self.config(first, out);
        let d = after.config(first.skip(consumed), next_out);
        let more = byte_bits(second);
        lemma_byte_bits_concat(first, second);
        lemma_byte_bits_concat(first.skip(consumed), second);
        assert(extended(c, more).bits =~= self.config(first + second, out).bits);
        assert(extended(d, more).bits =~= after.config(
            first.skip(consumed) + second,
            next_out,
        ).bits);
        law_more_input(c, d, second);
        law_decode_resumes(extended(c, more), extended(d, more));
    }

    /// When nothing waits to be written.
    proof fn lemma_idle_reached(&self, input: Seq<u8>, output: Seq<u8>, index: int, sum: u32)
        requires
            self.idle(),
            0 <= index <= output.len(),
        ensures
            self.reached(
                input,
                output.take(index),
                adler_update(sum, output.subrange(index, index)),
            ) == self.decoding(input, output.take(index), sum),
            self.reached(input, output.take(index), sum) == self.decoding(
                input,
                output.take(index),
                sum,
            ),
    {
        assert(output.subrange(index, index) =~= Seq::<u8>::empty());
        assert(output.take(index) + Seq::<u8>::empty() =~= output.take(index));
    }

    /// Builds the tables for the codes with the lengths of the block header.
    fn build_tables(&mut self) -> (res: Result<(), DecompressionError>)
        requires
            valid_lengths(old(self).header.code_lengths@),
        ensures
            *final(self) == (Decompressor {
                litlen: final(self).litlen,
                dist: final(self).dist,
                ..*old(self)
            }),
            ({
                let litlen = old(self).header.code_lengths@.take(288);
                let dist = old(self).header.code_lengths@.skip(288);
                if !complete(litlen) {
                    res == Err::<(), DecompressionError>(
                        DecompressionError::BadLiteralLengthHuffmanTree,
                    )
                } else if !valid_distance_code(dist) {
                    res == Err::<(), DecompressionError>(
                        DecompressionError::BadDistanceHuffmanTree,
                    )
                } else {
                    res is Ok && final(self).litlen.matches(litlen) && final(self).dist.matches(
                        dist,
                    )
                }
            }),
    {
        let ghost all = self.header.code_lengths@;
        proof {
            assert forall|i: int| 0 <= i < 288 implies #[trigger] all.take(288)[i] <= 15 by {
                assert(all[i] <= 15);
            }
            assert forall|i: int| 0 <= i < 32 implies #[trigger] all.skip(288)[i] <= 15 by {
                assert(all[i + 288] <= 15);
            }
        }
        // Build the literal/length code table.
        let lengths: &[u8] = vstd::slice::slice_subrange(&self.header.code_lengths, 0, 288);
        assert(lengths@ =~= all.take(288));
        let codes: Vec<u16> = match compute_codes(lengths) {
            Some(codes) => codes,
            None => {
                return Err(DecompressionError::BadLiteralLengthHuffmanTree);
            },
        };
        self.litlen.build(lengths, &codes);

        // Build the distance code table.
        let lengths: &[u8] = vstd::slice::slice_subrange(&self.header.code_lengths, 288, 320);
        assert(lengths@ =~= all.skip(288));
        if self.dist.build(lengths) {
            Ok(())
        } else {
            Err(DecompressionError::BadDistanceHuffmanTree)
        }
    }
}

/// Decompresses the given input. Returns an error if the input is invalid.
///
/// Bytes after the end of the stream are ignored.
#[verifier::rlimit(30)]
pub fn decompress_to_vec(input: &[u8]) -> (res: Result<Vec<u8>, DecompressionError>)
    ensures
        match res {
            Ok(output) => decode(start(input@)) == Ok::<Seq<u8>, DecompressionError>(output@),
            Err(e) => decode(start(input@)) == Err::<Seq<u8>, DecompressionError>(e),
        },
        forall|out: Seq<u8>| #[trigger]
            accepted(input@, out) <==> (res matches Ok(output) && output@ == out),
{
    let mut decoder: Decompressor = Decompressor::new();
    let mut output: Vec<u8> = vec![0; 1024];
    let mut input_index: usize = 0;
    let mut output_index: usize = 0;
    proof {
        assert(input@.skip(0) =~= input@);
        assert(output@.take(0) =~= Seq::<u8>::empty());
    }
    while !decoder.done()
        invariant
            decoder.wf(),
            input_index <= input@.len(),
            output_index + 1024 <= output@.len(),
            zero_from(output@, output_index as int),
            decoder.lookback() <= output_index,
            decode(start(input@)) == decode(
                decoder.config(
                    input@.skip(input_index as int),
                    output@.take(output_index as int),
                ),
            ),
        decreases
                decoder.config(
                    input@.skip(input_index as int),
                    output@.take(output_index as int),
                ).bits.len(),
                rank(decoder.phase()),
    {
        let ghost c = decoder.config(
            input@.skip(input_index as int),
            output@.take(output_index as int),
        );
        let ghost rest = input@.skip(input_index as int);
        assert(c.out.len() <= output_index + 258);
        let remaining_input: &[u8] = vstd::slice::slice_subrange(input, input_index, input.len());
        assert(remaining_input@ =~= rest);
        let (consumed, produced): (usize, usize) = match decoder.read(
            remaining_input,
            output.as_mut_slice(),
            output_index,
            true,
        ) {
            Ok(read) => read,
            Err(e) => {
                proof {
                    lemma_accepted(input@);
                }
                return Err(e);
            },
        };
        assert(output.len() == output@.len());
        input_index = input_index + consumed;
        output_index = output_index + produced;
        let ghost out = output@.take(output_index as int);
        let ghost d = decoder.config(rest.skip(consumed as int), out);
        proof {
            assert(rest.skip(consumed as int) =~= input@.skip(input_index as int));
            law_decode_resumes(c, d);
            lemma_reaches_progress(c, d);
            assert(d.phase is Done || d.out.len() > c.out.len());
        }
        output.resize(output_index, 0);
        output.extend_from_slice(&[0; 32768]);
        assert(output@.take(output_index as int) =~= out);
        assert(output.len() == output_index + 32768);
    }
    let ghost out = output@.take(output_index as int);
    output.resize(output_index, 0);
    proof {
        assert(out + decoder.pending(out) =~= output@);
        lemma_accepted(input@);
    }
    Ok(output)
}

} // verus!
