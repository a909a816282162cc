//! How the parts of a stream are answered: what is accepted, and which error is reported for what
//! is not.
//!
//! Each law takes a state before some part of a stream, says what that part is in terms of what was
//! written, and gives the only step that is taken.

use crate::bits::value;
use crate::encoding::{
    clcl_bits, code_word, distance_bits, distance_symbol, field, item_bits, item_extra, item_lens,
    item_symbol, law_distance_found, lemma_clcl_read, lemma_code_word, lemma_dist_code_fits,
    lemma_field_value, lemma_litlen_code_fits, lemma_order_place, lemma_valid_codes, sum_bits,
    valid_clcl_code, valid_codes, LengthItem,
};
use crate::error::DecompressionError;
use crate::format::{
    block_header_step, clcl_lengths, code_lengths_step, compressed_step, emit, padded, starved,
    step, Config, Phase, Step,
};
use crate::huffman::{decode_symbol, symbol_at, valid_lengths};
use crate::laws::valid;
use crate::parsing::lemma_symbol_word;
use crate::rules::{kraft_sum, lemma_complete_kraft, lemma_distance_lengths, only_symbol};
use crate::tables::{
    fixed_dist_lengths, fixed_litlen_lengths, lemma_distance_symbol, CLCL_ORDER,
    DIST_SYM_TO_DIST_BASE, DIST_SYM_TO_DIST_EXTRA, LEN_SYM_TO_LEN_EXTRA,
};
use vstd::arithmetic::power2::{lemma2_to64, pow2};
use vstd::prelude::*;

verus! {

/// The zlib header: it is accepted for the deflate method, each window size up to 32 KiB and no
/// preset dictionary, if its value is a multiple of 31, and for nothing else.
pub proof fn law_zlib_header(c: Config, cmf: u8, flg: u8, rest: Seq<bool>)
    requires
        c.phase is ZlibHeader,
        c.bits == field(cmf as nat, 8) + field(flg as nat, 8) + rest,
    ensures
        step(c) == if cmf % 16 == 8 && cmf < 0x80 && flg % 64 < 32 && (256 * cmf + flg) % 31 == 0 {
            Step::Next(Config { phase: Phase::BlockHeader, bits: rest, ..c })
        } else {
            Step::Fail(DecompressionError::BadZlibHeader)
        },
{
    lemma2_to64();
    lemma_field_value(cmf as nat, 8);
    lemma_field_value(flg as nat, 8);
    assert(c.bits.take(8) =~= field(cmf as nat, 8));
    assert(c.bits.subrange(8, 16) =~= field(flg as nat, 8));
    assert(c.bits.skip(16) =~= rest);
}

/// The kinds of blocks: there is none with the number three, and one with the number one has the
/// fixed codes.
pub proof fn law_block_kind(c: Config, last: bool, kind: nat, rest: Seq<bool>)
    requires
        c.phase is BlockHeader,
        kind == 1 || kind == 3,
        c.bits == seq![last] + field(kind, 2) + rest,
    ensures
        step(c) == if kind == 1 {
            Step::Next(
                Config {
                    phase: Phase::Compressed {
                        last,
                        litlen: fixed_litlen_lengths(),
                        dist: fixed_dist_lengths(),
                    },
                    bits: rest,
                    ..c
                },
            )
        } else {
            Step::Fail(DecompressionError::InvalidBlockType)
        },
{
    reveal(block_header_step);
    lemma2_to64();
    lemma_field_value(kind, 2);
    assert(c.bits.subrange(1, 3) =~= field(kind, 2));
    assert(c.bits.skip(3) =~= rest);
}

/// The header of a stored block: whatever the padding is, it is accepted if the second number is
/// the complement of the first, and then that many bytes follow.
#[verifier::rlimit(30)]
pub proof fn law_stored_header(
    c: Config,
    last: bool,
    pad: Seq<bool>,
    len: u16,
    nlen: u16,
    rest: Seq<bool>,
)
    requires
        c.phase is BlockHeader,
        pad.len() < 8,
        rest.len() % 8 == 0,
        c.bits == seq![last] + field(0, 2) + pad + field(len as nat, 16) + field(nlen as nat, 16)
            + rest,
    ensures
        step(c) == if len + nlen == 0xffff {
            Step::Next(Config { phase: Phase::Stored { last, left: len as nat }, bits: rest, ..c })
        } else {
            Step::Fail(DecompressionError::InvalidUncompressedBlockLength)
        },
{
    reveal(block_header_step);
    lemma2_to64();
    lemma_field_value(0, 2);
    lemma_field_value(len as nat, 16);
    lemma_field_value(nlen as nat, 16);
    let b = c.bits;
    let p = pad.len() as int;
    assert((b.len() - 3) % 8 == p);
    assert(b.subrange(1, 3) =~= field(0, 2));
    assert(b.subrange(3 + p, 19 + p) =~= field(len as nat, 16));
    assert(b.subrange(19 + p, 35 + p) =~= field(nlen as nat, 16));
    assert(b.skip(35 + p) =~= rest);
}

/// A stored byte is copied as it is.
pub proof fn law_stored_byte(c: Config, last: bool, left: nat, byte: u8, rest: Seq<bool>)
    requires
        c.phase == (Phase::Stored { last, left }),
        left > 0,
        c.bits == field(byte as nat, 8) + rest,
    ensures
        step(c) == Step::Next(
            emit(
                Config { phase: Phase::Stored { last, left: (left - 1) as nat }, bits: rest, ..c },
                seq![byte],
            ),
        ),
{
    lemma2_to64();
    lemma_field_value(byte as nat, 8);
    assert(c.bits.take(8) =~= field(byte as nat, 8));
    assert(c.bits.skip(8) =~= rest);
}

/// The numbers at the beginning of a block with its own codes: up to 286 literal/length symbols and
/// 30 distance symbols are accepted, and any code length code whose code words take up all bit
/// sequences.
#[verifier::spinoff_prover]
#[verifier::rlimit(40)]
pub proof fn law_dynamic_header(
    c: Config,
    last: bool,
    hlit: nat,
    hdist: nat,
    hclen: nat,
    clcl: Seq<u8>,
    rest: Seq<bool>,
)
    requires
        c.phase is BlockHeader,
        257 <= hlit <= 288,
        1 <= hdist <= 32,
        4 <= hclen <= 19,
        clcl.len() == 19,
        forall|i: int| 0 <= i < 19 ==> #[trigger] clcl[i] <= 7,
        forall|k: int| hclen <= k < 19 ==> clcl[#[trigger] CLCL_ORDER[k] as int] == 0,
        c.bits == seq![last] + field(2, 2) + field((hlit - 257) as nat, 5) + field(
            (hdist - 1) as nat,
            5,
        ) + field((hclen - 4) as nat, 4) + clcl_bits(clcl, hclen as int) + rest,
    ensures
        step(c) == if hlit > 286 {
            Step::Fail(DecompressionError::InvalidHlit)
        } else if hdist > 30 {
            Step::Fail(DecompressionError::InvalidHdist)
        } else if kraft_sum(clcl) != 0x8000 {
            Step::Fail(DecompressionError::BadCodeLengthHuffmanTree)
        } else {
            Step::Next(
                Config {
                    phase: Phase::CodeLengths { last, hlit, hdist, clcl, lens: Seq::empty() },
                    bits: rest,
                    ..c
                },
            )
        },
{
    reveal(block_header_step);
    let f0 = field(2, 2);
    let f1 = field((hlit - 257) as nat, 5);
    let f2 = field((hdist - 1) as nat, 5);
    let f3 = field((hclen - 4) as nat, 4);
    let w = clcl_bits(clcl, hclen as int);
    lemma2_to64();
    lemma_field_value(2, 2);
    lemma_field_value((hlit - 257) as nat, 5);
    lemma_field_value((hdist - 1) as nat, 5);
    lemma_field_value((hclen - 4) as nat, 4);
    lemma_clcl_read(clcl, hclen as int, rest);
    let b = c.bits;
    assert(b.subrange(1, 3) =~= f0);
    assert(b.subrange(3, 8) =~= f1);
    assert(b.subrange(8, 13) =~= f2);
    assert(b.subrange(13, 17) =~= f3);
    assert(b.skip(17) =~= w + rest);
    assert(b.skip(17 + 3 * hclen as int) =~= rest);
    let read = clcl_lengths(b.skip(17), hclen as int);
    assert forall|i: int| 0 <= i < 19 implies read[i] == clcl[i] by {
        let k = lemma_order_place(i);
        assert(read[CLCL_ORDER[k] as int] == read[i]);
    }
    assert(read =~= clcl);
    lemma_complete_kraft(clcl);
}

/// A piece of the code lengths: a length, the one before it three to six times, or three to 138
/// zeros. It is refused when there is no length before it to repeat, and when it goes past the
/// number of symbols.
#[verifier::spinoff_prover]
#[verifier::rlimit(40)]
pub proof fn law_code_length(
    c: Config,
    last: bool,
    hlit: nat,
    hdist: nat,
    clcl: Seq<u8>,
    lens: Seq<u8>,
    item: LengthItem,
    rest: Seq<bool>,
)
    requires
        c.phase == (Phase::CodeLengths { last, hlit, hdist, clcl, lens }),
        valid_clcl_code(clcl),
        lens.len() < hlit + hdist,
        match item {
            LengthItem::Length(length) => length <= 15,
            LengthItem::Repeat(count) => 3 <= count <= 6,
            LengthItem::Zeros(count) => 3 <= count <= 138,
        },
        clcl[item_symbol(item)] > 0,
        c.bits == item_bits(clcl, item) + rest,
        c.bits.len() >= 7,
    ensures
        step(c) == if (item is Repeat && lens.len() == 0) || lens.len() + item_lens(
            item,
            lens,
        ).len() > hlit + hdist {
            Step::Fail(DecompressionError::InvalidCodeLengthRepeat)
        } else {
            Step::Next(
                Config {
                    phase: Phase::CodeLengths {
                        last,
                        hlit,
                        hdist,
                        clcl,
                        lens: lens + item_lens(item, lens),
                    },
                    bits: rest,
                    ..c
                },
            )
        },
{
    reveal(code_lengths_step);
    let symbol = item_symbol(item);
    let n = clcl[symbol] as int;
    let w = code_word(clcl, symbol);
    let f = item_extra(item);
    lemma_complete_kraft(clcl);
    lemma_litlen_code_fits(clcl, symbol);
    lemma_code_word(clcl, symbol, f + rest);
    assert(c.bits =~= w + (f + rest));
    lemma2_to64();
    match item {
        LengthItem::Length(length) => {
            assert(f + rest =~= rest);
            assert(lens.push(length) =~= lens + item_lens(item, lens));
        },
        LengthItem::Repeat(count) => {
            lemma_field_value((count - 3) as nat, 2);
            assert(c.bits.subrange(n, n + 2) =~= f);
            assert(c.bits.skip(n + 2) =~= rest);
            assert(lens + Seq::new(count, |i: int| lens.last()) =~= lens + item_lens(item, lens));
        },
        LengthItem::Zeros(count) => {
            let (base, extra) = if count <= 10 {
                (3nat, 3nat)
            } else {
                (11nat, 7nat)
            };
            lemma_field_value((count - base) as nat, extra);
            assert(c.bits.subrange(n, n + extra) =~= f);
            assert(c.bits.skip(n + extra) =~= rest);
            assert(lens + Seq::new(count, |i: int| 0u8) =~= lens + item_lens(item, lens));
        },
    }
}

/// The codes of a block: the literal/length code is accepted if its Kraft sum is one, and the
/// distance code if its Kraft sum is one or it has at most one code word, for whichever symbol.
/// Symbols without a length have no code word.
pub proof fn law_block_codes(
    c: Config,
    last: bool,
    hlit: nat,
    hdist: nat,
    clcl: Seq<u8>,
    lens: Seq<u8>,
    litlen: Seq<u8>,
    dist: Seq<u8>,
)
    requires
        c.phase == (Phase::CodeLengths { last, hlit, hdist, clcl, lens }),
        hlit <= 288,
        hdist <= 32,
        lens.len() == hlit + hdist,
        forall|i: int| 0 <= i < lens.len() ==> #[trigger] lens[i] <= 15,
        litlen.len() == 288,
        dist.len() == 32,
        forall|i: int|
            0 <= i < 288 ==> #[trigger] litlen[i] == if i < hlit {
                lens[i]
            } else {
                0
            },
        forall|i: int|
            0 <= i < 32 ==> #[trigger] dist[i] == if i < hdist {
                lens[hlit + i]
            } else {
                0
            },
    ensures
        step(c) == if kraft_sum(litlen) != 0x8000 {
            Step::Fail(DecompressionError::BadLiteralLengthHuffmanTree)
        } else if kraft_sum(dist) != 0x8000 && !exists|k: int| only_symbol(dist, k) {
            Step::Fail(DecompressionError::BadDistanceHuffmanTree)
        } else {
            Step::Next(Config { phase: Phase::Compressed { last, litlen, dist }, ..c })
        },
{
    reveal(code_lengths_step);
    assert(padded(lens.take(hlit as int), 288) =~= litlen);
    assert(padded(lens.skip(hlit as int), 32) =~= dist);
    assert(valid_lengths(litlen));
    assert(valid_lengths(dist));
    lemma_complete_kraft(litlen);
    lemma_distance_lengths(dist);
}

/// A literal is read as soon as its code word is there.
pub proof fn law_literal(
    c: Config,
    last: bool,
    litlen: Seq<u8>,
    dist: Seq<u8>,
    byte: u8,
    rest: Seq<bool>,
)
    requires
        c.phase == (Phase::Compressed { last, litlen, dist }),
        valid_codes(litlen, dist),
        litlen[byte as int] > 0,
        c.bits == code_word(litlen, byte as int) + rest,
    ensures
        step(c) == Step::Next(emit(Config { bits: rest, ..c }, seq![byte])),
{
    reveal(compressed_step);
    lemma_valid_codes(litlen, dist);
    lemma_litlen_code_fits(litlen, byte as int);
    lemma_code_word(litlen, byte as int, rest);
}

/// The end of a block leads to the next block, or after the last one to the checksum, and the
/// symbols 286 and 287 are refused.
pub proof fn law_other_symbol(
    c: Config,
    last: bool,
    litlen: Seq<u8>,
    dist: Seq<u8>,
    symbol: int,
    rest: Seq<bool>,
)
    requires
        c.phase == (Phase::Compressed { last, litlen, dist }),
        valid_codes(litlen, dist),
        symbol == 256 || symbol == 286 || symbol == 287,
        litlen[symbol] > 0,
        c.bits == code_word(litlen, symbol) + rest,
        c.bits.len() >= 15,
    ensures
        step(c) == if symbol == 256 {
            Step::Next(
                Config {
                    phase: if last {
                        Phase::Checksum
                    } else {
                        Phase::BlockHeader
                    },
                    bits: rest,
                    ..c
                },
            )
        } else {
            Step::Fail(DecompressionError::InvalidLiteralLengthCode)
        },
{
    reveal(compressed_step);
    lemma_valid_codes(litlen, dist);
    lemma_litlen_code_fits(litlen, symbol);
    lemma_code_word(litlen, symbol, rest);
}

/// Where the distance of a back reference begins.
proof fn lemma_at_distance(
    c: Config,
    last: bool,
    litlen: Seq<u8>,
    dist: Seq<u8>,
    l: int,
    extra: nat,
    rest: Seq<bool>,
)
    requires
        c.phase == (Phase::Compressed { last, litlen, dist }),
        valid_codes(litlen, dist),
        0 <= l < 29,
        litlen[l + 257] > 0,
        extra < pow2(LEN_SYM_TO_LEN_EXTRA[l] as nat),
        c.bits == code_word(litlen, l + 257) + (field(extra, LEN_SYM_TO_LEN_EXTRA[l] as nat)
            + rest),
    ensures
        decode_symbol(litlen, c.bits) == Some(l + 257),
        c.bits.skip(litlen[l + 257] + LEN_SYM_TO_LEN_EXTRA[l]) == rest,
        c.bits.len() == litlen[l + 257] + LEN_SYM_TO_LEN_EXTRA[l] + rest.len(),
{
    lemma_valid_codes(litlen, dist);
    let f = field(extra, LEN_SYM_TO_LEN_EXTRA[l] as nat);
    lemma_field_value(extra, LEN_SYM_TO_LEN_EXTRA[l] as nat);
    lemma_litlen_code_fits(litlen, l + 257);
    lemma_code_word(litlen, l + 257, f + rest);
    assert(c.bits.skip(litlen[l + 257] + LEN_SYM_TO_LEN_EXTRA[l]) =~= rest);
}

/// A back reference whose distance is not the code word of one of the 30 distance symbols is
/// refused.
pub proof fn law_no_distance(
    c: Config,
    last: bool,
    litlen: Seq<u8>,
    dist: Seq<u8>,
    l: int,
    extra: nat,
    rest: Seq<bool>,
)
    requires
        c.phase == (Phase::Compressed { last, litlen, dist }),
        valid_codes(litlen, dist),
        0 <= l < 29,
        litlen[l + 257] > 0,
        extra < pow2(LEN_SYM_TO_LEN_EXTRA[l] as nat),
        c.bits == code_word(litlen, l + 257) + (field(extra, LEN_SYM_TO_LEN_EXTRA[l] as nat)
            + rest),
        rest.len() >= 28,
        forall|i: int|
            0 <= i < 30 && dist[i] > 0 ==> rest.take(dist[i] as int) != #[trigger] code_word(
                dist,
                i,
            ),
    ensures
        step(c) == Step::Fail(DecompressionError::InvalidDistanceCode),
{
    reveal(compressed_step);
    lemma_at_distance(c, last, litlen, dist, l, extra, rest);
    if let Some(d) = decode_symbol(dist, rest) {
        assert(symbol_at(dist, rest, d));
        if d < 30 {
            lemma_symbol_word(dist, rest, d);
        }
    }
}

/// A back reference to before the beginning of the output is refused. When there is no output yet,
/// the error says so.
#[verifier::rlimit(40)]
pub proof fn law_too_far(
    c: Config,
    last: bool,
    litlen: Seq<u8>,
    dist: Seq<u8>,
    l: int,
    extra: nat,
    distance: nat,
    rest: Seq<bool>,
)
    requires
        c.phase == (Phase::Compressed { last, litlen, dist }),
        valid_codes(litlen, dist),
        0 <= l < 29,
        litlen[l + 257] > 0,
        extra < pow2(LEN_SYM_TO_LEN_EXTRA[l] as nat),
        1 <= distance <= 32768,
        dist[distance_symbol(distance)] > 0,
        c.bits == code_word(litlen, l + 257) + (field(extra, LEN_SYM_TO_LEN_EXTRA[l] as nat) + (
        distance_bits(dist, distance) + rest)),
        distance_bits(dist, distance).len() + rest.len() >= 28,
        distance > c.out.len(),
    ensures
        step(c) == Step::Fail(
            if c.out.len() == 0 {
                DecompressionError::InputStartsWithRun
            } else {
                DecompressionError::DistanceTooFarBack
            },
        ),
{
    reveal(compressed_step);
    let at = distance_bits(dist, distance) + rest;
    lemma_at_distance(c, last, litlen, dist, l, extra, at);
    lemma_valid_codes(litlen, dist);
    let d = distance_symbol(distance);
    law_distance_found(distance);
    let low = (distance - DIST_SYM_TO_DIST_BASE[d]) as nat;
    let f = field(low, DIST_SYM_TO_DIST_EXTRA[d] as nat);
    lemma_field_value(low, DIST_SYM_TO_DIST_EXTRA[d] as nat);
    lemma_dist_code_fits(dist, d);
    lemma_code_word(dist, d, f + rest);
    assert(at =~= code_word(dist, d) + (f + rest));
    let k = dist[d] as int;
    assert(at.subrange(k, k + DIST_SYM_TO_DIST_EXTRA[d]) =~= f);
}

/// The checksum: the stream ends if the number in the four bytes after the last block, the most
/// significant one first, is the checksum of the output, all 32 bits of it. Any other number is
/// refused.
#[verifier::spinoff_prover]
#[verifier::rlimit(60)]
pub proof fn law_sum_compared(c: Config, pad: Seq<bool>, sum: u32, rest: Seq<bool>)
    requires
        c.phase is Checksum,
        pad.len() < 8,
        rest.len() % 8 == 0,
        c.bits == pad + sum_bits(sum) + rest,
    ensures
        step(c) == if sum == c.sum {
            Step::Next(Config { phase: Phase::Done, bits: rest, ..c })
        } else {
            Step::Fail(DecompressionError::WrongChecksum)
        },
{
    reveal(sum_bits);
    let b = c.bits;
    let p = pad.len() as int;
    lemma2_to64();
    let f0 = field((sum / 0x100_0000) as nat, 8);
    let f1 = field((sum / 0x1_0000 % 0x100) as nat, 8);
    let f2 = field((sum / 0x100 % 0x100) as nat, 8);
    let f3 = field((sum % 0x100) as nat, 8);
    lemma_field_value((sum / 0x100_0000) as nat, 8);
    lemma_field_value((sum / 0x1_0000 % 0x100) as nat, 8);
    lemma_field_value((sum / 0x100 % 0x100) as nat, 8);
    lemma_field_value((sum % 0x100) as nat, 8);
    assert(b.len() % 8 == p);
    assert(b.subrange(p, p + 8) =~= f0);
    assert(b.subrange(p + 8, p + 16) =~= f1);
    assert(b.subrange(p + 16, p + 24) =~= f2);
    assert(b.subrange(p + 24, p + 32) =~= f3);
    assert(b.skip(p + 32) =~= rest);
}

/// A distance code with a single code word is accepted whichever of the 30 symbols it is for, and
/// so is one without any.
pub proof fn law_single_distance(
    c: Config,
    last: bool,
    hlit: nat,
    hdist: nat,
    clcl: Seq<u8>,
    lens: Seq<u8>,
    litlen: Seq<u8>,
    dist: Seq<u8>,
    k: int,
)
    requires
        c.phase == (Phase::CodeLengths { last, hlit, hdist, clcl, lens }),
        hlit <= 288,
        hdist <= 32,
        lens.len() == hlit + hdist,
        forall|i: int| 0 <= i < lens.len() ==> #[trigger] lens[i] <= 15,
        litlen == lens.take(hlit as int) + Seq::new((288 - hlit) as nat, |i: int| 0u8),
        dist == lens.skip(hlit as int) + Seq::new((32 - hdist) as nat, |i: int| 0u8),
        kraft_sum(litlen) == 0x8000,
        0 <= k < 30,
        forall|i: int| 0 <= i < 32 && i != k ==> #[trigger] dist[i] == 0,
    ensures
        step(c) == Step::Next(Config { phase: Phase::Compressed { last, litlen, dist }, ..c }),
{
    assert(only_symbol(dist, k));
    law_block_codes(c, last, hlit, hdist, clcl, lens, litlen, dist);
}

/// A distance code with several code words is refused unless its Kraft sum is one.
pub proof fn law_several_distances(
    c: Config,
    last: bool,
    hlit: nat,
    hdist: nat,
    clcl: Seq<u8>,
    lens: Seq<u8>,
    litlen: Seq<u8>,
    dist: Seq<u8>,
    j: int,
    k: int,
)
    requires
        c.phase == (Phase::CodeLengths { last, hlit, hdist, clcl, lens }),
        hlit <= 288,
        hdist <= 32,
        lens.len() == hlit + hdist,
        forall|i: int| 0 <= i < lens.len() ==> #[trigger] lens[i] <= 15,
        litlen == lens.take(hlit as int) + Seq::new((288 - hlit) as nat, |i: int| 0u8),
        dist == lens.skip(hlit as int) + Seq::new((32 - hdist) as nat, |i: int| 0u8),
        kraft_sum(litlen) == 0x8000,
        kraft_sum(dist) != 0x8000,
        0 <= j < k < 32,
        dist[j] > 0,
        dist[k] > 0,
    ensures
        step(c) == Step::Fail(DecompressionError::BadDistanceHuffmanTree),
{
    assert forall|i: int| !only_symbol(dist, i) by {
        if only_symbol(dist, i) {
            assert(dist[j] == 0 || dist[k] == 0);
        }
    }
    law_block_codes(c, last, hlit, hdist, clcl, lens, litlen, dist);
}

/// The number in some bits, the lowest one first, when there are four of them.
pub open spec fn four_bits(bits: Seq<bool>) -> int {
    (if bits[0] {
        1int
    } else {
        0
    }) + (if bits[1] {
        2int
    } else {
        0
    }) + (if bits[2] {
        4int
    } else {
        0
    }) + (if bits[3] {
        8int
    } else {
        0
    })
}

/// When more input is needed: for the two bytes of the zlib header; for the three bits that a block
/// begins with, the four bytes of the numbers of a stored block, and the numbers that a block with
/// its own codes begins with; for seven bits of the code lengths, and the extra bits of a
/// repetition; for 15 bits of compressed data, unless they begin with a literal, and for 28 bits of
/// a distance; for a stored byte; and for the four bytes of the checksum. Decoding also stops with
/// less than 15 bits of compressed data left.
#[verifier::rlimit(40)]
pub proof fn law_waits(c: Config)
    requires
        valid(c),
    ensures
        c.phase is ZlibHeader ==> (step(c) is NeedInput <==> c.bits.len() < 16),
        c.phase is BlockHeader ==> (step(c) is NeedInput <==> {
            let b = c.bits;
            ||| b.len() < 3
            ||| !b[1] && !b[2] && (b.len() - 3) / 8 < 4
            ||| !b[1] && b[2] && (b.len() < 17 || b.len() < 29 + 3 * four_bits(b.subrange(13, 17)))
        }),
        c.phase matches Phase::CodeLengths { last, hlit, hdist, clcl, lens } ==> (step(
            c,
        ) is NeedInput <==> lens.len() < hlit + hdist && (c.bits.len() < 7 || (decode_symbol(
            clcl,
            c.bits,
        ) matches Some(s) && s >= 16 && c.bits.len() < clcl[s] + if s == 16 {
            2int
        } else if s == 17 {
            3
        } else {
            7
        }))),
        c.phase is Compressed ==> (starved(c) <==> step(c) is NeedInput || c.bits.len() < 15),
        c.phase matches Phase::Compressed { last, litlen, dist } ==> {
            &&& step(c) is NeedInput ==> c.bits.len() < 15 || (decode_symbol(
                litlen,
                c.bits,
            ) matches Some(s) && 257 <= s <= 285 && c.bits.len() < litlen[s]
                + LEN_SYM_TO_LEN_EXTRA[s - 257] + 28)
            &&& c.bits.len() < 15 && !(decode_symbol(litlen, c.bits) matches Some(s) && s < 256)
                ==> step(c) is NeedInput
            &&& (decode_symbol(litlen, c.bits) matches Some(s) && 257 <= s <= 285 && c.bits.len()
                < litlen[s] + LEN_SYM_TO_LEN_EXTRA[s - 257] + 28) ==> step(c) is NeedInput
        },
        c.phase matches Phase::Stored { last, left } ==> (step(c) is NeedInput <==> left > 0
            && c.bits.len() < 8),
        c.phase is Checksum ==> (step(c) is NeedInput <==> c.bits.len() / 8 < 4),
        c.phase is Done ==> step(c) is Finished,
        !(c.phase is Compressed) ==> (starved(c) <==> step(c) is NeedInput),
{
    reveal(code_lengths_step);
    reveal(compressed_step);
    match c.phase {
        Phase::BlockHeader => {
            reveal(block_header_step);
            let b = c.bits;
            if b.len() >= 3 {
                let kind = b.subrange(1, 3);
                reveal_with_fuel(value, 3);
                assert(kind.drop_first().drop_first() =~= Seq::<bool>::empty());
                assert(kind.drop_first()[0] == b[2]);
                if b.len() >= 17 {
                    lemma_four_bits(b.subrange(13, 17));
                }
            }
        },
        Phase::Compressed { last, litlen, dist } => {
            if let Some(s) = decode_symbol(litlen, c.bits) {
                assert(symbol_at(litlen, c.bits, s));
                if 257 <= s <= 285 {
                    let rest = c.bits.skip(litlen[s] + LEN_SYM_TO_LEN_EXTRA[s - 257]);
                    if let Some(d) = decode_symbol(dist, rest) {
                        assert(symbol_at(dist, rest, d));
                        if d < 30 {
                            lemma_distance_symbol(d);
                        }
                    }
                }
            }
        },
        _ => {},
    }
}

proof fn lemma_four_bits(bits: Seq<bool>)
    requires
        bits.len() == 4,
    ensures
        value(bits) == four_bits(bits),
{
    reveal_with_fuel(value, 5);
    let b1 = bits.drop_first();
    let b2 = b1.drop_first();
    let b3 = b2.drop_first();
    assert(b1[0] == bits[1] && b2[0] == bits[2] && b3[0] == bits[3]);
    assert(b3.drop_first() =~= Seq::<bool>::empty());
}

} // verus!
