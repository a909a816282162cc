//! Streams that decode are ones that a compressor may have written.
//!
//! Each function here takes a state from which decoding succeeds and finds what was written there.
use crate::adler::adler32;
use crate::bits::{
    byte_bits, code_value, lemma_byte_bits_concat, lemma_byte_high, lemma_low_bits_value,
    lemma_value_bound, low_bits, value,
};
use crate::encoding::{
    block_bits, block_ok, block_out, blocks_bits, blocks_ok, blocks_out, body_bits, clcl_bits,
    code_word, data_bits, distance_bits, distance_symbol, encode, field, header_bits, header_dist,
    header_litlen, item_bits, item_extra, item_lens, item_ok, items_bits, items_lens, items_ok,
    law_distance_found, law_round_trip, lemma_order, lemma_packed, lemma_stream_len, length_symbol,
    packed, pad_bits, padding, spelled, stream_bits, sum_bits, token_bits, token_bytes, token_ok,
    tokens_bits, tokens_ok, tokens_out, valid_clcl_code, valid_codes, Block, CodeHeader, LengthItem,
    Token,
};
use crate::error::DecompressionError;
use crate::format::{
    advance, after_block, block_header_step, clcl_lengths, code_lengths_step, compressed_step,
    copied, decode, lemma_reaches_self, lemma_reaches_step, lemma_reaches_trans,
    lemma_step_progress, padded, rank, reaches, start, starved, step, Config, Phase, Step,
};
use crate::huffman::{decode_symbol, symbol_at, valid_lengths};
use crate::laws::{law_checksum, law_trailing_data};
use crate::rules::{
    copied_on, law_copy, lemma_code_number, lemma_complete_kraft, lemma_distance_lengths,
};
use crate::tables::{
    fixed_dist_lengths, fixed_litlen_lengths, law_length_tables, lemma_distance_symbol,
    lemma_length_symbol, CLCL_ORDER, DIST_SYM_TO_DIST_BASE, DIST_SYM_TO_DIST_EXTRA,
    LEN_SYM_TO_LEN_BASE, LEN_SYM_TO_LEN_EXTRA,
};
use vstd::arithmetic::div_mod::lemma_fundamental_div_mod_converse;
use vstd::arithmetic::power2::{lemma2_to64, pow2};
use vstd::prelude::*;

verus! {

/// Bits are the code word that spells their number.
proof fn lemma_spelled_bits(bits: Seq<bool>)
    ensures
        spelled(code_value(bits), bits.len()) == bits,
    decreases bits.len(),
{
    if bits.len() > 0 {
        lemma_spelled_bits(bits.drop_last());
        assert(bits =~= bits.drop_last().push(bits.last()));
    } else {
        assert(bits =~= Seq::<bool>::empty());
    }
}

/// Bits are the field that holds their number.
proof fn lemma_field_bits(bits: Seq<bool>)
    ensures
        field(value(bits), bits.len()) == bits,
    decreases bits.len(),
{
    if bits.len() > 0 {
        lemma_field_bits(bits.drop_first());
        assert(bits =~= seq![bits[0]] + bits.drop_first());
    } else {
        assert(bits =~= Seq::<bool>::empty());
    }
}

/// What is decoded as a symbol is its code word.
pub proof fn lemma_symbol_word(lens: Seq<u8>, bits: Seq<bool>, i: int)
    requires
        symbol_at(lens, bits, i),
    ensures
        bits.take(lens[i] as int) == code_word(lens, i),
        bits == code_word(lens, i) + bits.skip(lens[i] as int),
{
    let w = bits.take(lens[i] as int);
    lemma_code_number(lens, i);
    lemma_spelled_bits(w);
    assert(bits =~= w + bits.skip(lens[i] as int));
}

/// The distances of different symbols are different.
proof fn lemma_distance_unique(distance: nat, s: int)
    requires
        1 <= distance <= 32768,
        0 <= s < 30,
        DIST_SYM_TO_DIST_BASE[s] <= distance < DIST_SYM_TO_DIST_BASE[s] + pow2(
            DIST_SYM_TO_DIST_EXTRA[s] as nat,
        ),
    ensures
        distance_symbol(distance) == s,
{
    law_distance_found(distance);
    let t = distance_symbol(distance);
    if s < t {
        lemma_distance_order(s, t);
    } else if t < s {
        lemma_distance_order(t, s);
    }
}

proof fn lemma_distance_order(s: int, t: int)
    requires
        0 <= s < t < 30,
    ensures
        DIST_SYM_TO_DIST_BASE[s] + pow2(DIST_SYM_TO_DIST_EXTRA[s] as nat)
            <= DIST_SYM_TO_DIST_BASE[t],
    decreases t,
{
    lemma2_to64();
    if s < t - 1 {
        lemma_distance_order(s, t - 1);
    }
}

/// From a state that decodes there is a step, and the next state decodes to the same.
proof fn lemma_goes_on(c: Config) -> (d: Config)
    requires
        decode(c) is Ok,
        !(c.phase is Done),
    ensures
        !starved(c),
        step(c) == Step::Next(d),
        decode(d) == decode(c),
        reaches(c, d),
        d.bits.len() < c.bits.len() || (d.bits.len() == c.bits.len() && rank(d.phase) < rank(
            c.phase,
        )),
{
    lemma_step_progress(c);
    lemma_reaches_self(c);
    let d = step(c)->Next_0;
    lemma_reaches_step(c, c, d);
    d
}

/// Taking more bits is taking some and then more.
proof fn lemma_cut(bits: Seq<bool>, i: int, j: int)
    requires
        0 <= i <= j <= bits.len(),
    ensures
        bits.take(j) == bits.take(i) + bits.subrange(i, j),
        bits == bits.take(j) + bits.skip(j),
{
    assert(bits.take(j) =~= bits.take(i) + bits.subrange(i, j));
    assert(bits =~= bits.take(j) + bits.skip(j));
}

/// How three parts are put together does not matter.
proof fn lemma_join(a: Seq<bool>, b: Seq<bool>, c: Seq<bool>)
    ensures
        a + b + c == a + (b + c),
{
    assert(a + b + c =~= a + (b + c));
}

/// The padding is as long as the bits that are left go beyond whole bytes.
proof fn lemma_padding(position: nat, left: nat)
    requires
        (position + left) % 8 == 0,
    ensures
        padding(position) == left % 8,
{
}

/// All of the padding is taken.
proof fn lemma_pad_bits(pad: Seq<bool>)
    ensures
        pad_bits(pad, pad.len()) == pad,
{
    assert(pad_bits(pad, pad.len()) =~= pad);
}

/// Finds the distance of a back reference.
proof fn parse_distance(dist: Seq<u8>, rest: Seq<bool>, s: int) -> (distance: nat)
    requires
        0 <= s < 30,
        symbol_at(dist, rest, s),
        rest.len() >= dist[s] + DIST_SYM_TO_DIST_EXTRA[s],
    ensures
        ({
            let k = dist[s] as int;
            let e = k + DIST_SYM_TO_DIST_EXTRA[s];
            &&& distance == DIST_SYM_TO_DIST_BASE[s] + value(rest.subrange(k, e))
            &&& 1 <= distance <= 32768
            &&& distance_symbol(distance) == s
            &&& rest == distance_bits(dist, distance) + rest.skip(e)
        }),
{
    let k = dist[s] as int;
    let e = k + DIST_SYM_TO_DIST_EXTRA[s];
    let extra = rest.subrange(k, e);
    let distance = DIST_SYM_TO_DIST_BASE[s] as nat + value(extra);
    lemma_value_bound(extra);
    lemma_distance_symbol(s);
    lemma2_to64();
    assert(DIST_SYM_TO_DIST_BASE[s] + pow2(DIST_SYM_TO_DIST_EXTRA[s] as nat) <= 32769) by {
        if s < 29 {
            lemma_distance_order(s, 29);
        }
    }
    lemma_distance_unique(distance, s);
    lemma_symbol_word(dist, rest, s);
    lemma_field_bits(extra);
    assert(rest =~= code_word(dist, s) + extra + rest.skip(e));
    distance
}

/// Finds the token that a step reads.
#[verifier::spinoff_prover]
#[verifier::rlimit(60)]
proof fn parse_token(
    c: Config,
    last: bool,
    litlen: Seq<u8>,
    dist: Seq<u8>,
    d: Config,
) -> (token: Token)
    requires
        c.phase == (Phase::Compressed { last, litlen, dist }),
        step(c) == Step::Next(d),
        d.phase is Compressed,
    ensures
        token_ok(litlen, dist, token, c.out.len()),
        c.bits == token_bits(litlen, dist, token) + d.bits,
        d.out == c.out + token_bytes(token, c.out),
        d.phase == c.phase,
{
    reveal(compressed_step);
    let b = c.bits;
    let symbol = decode_symbol(litlen, b)->Some_0;
    assert(symbol_at(litlen, b, symbol));
    lemma_symbol_word(litlen, b, symbol);
    if symbol < 256 {
        Token::Literal(symbol as u8)
    } else {
        let l = symbol - 257;
        let n = litlen[symbol] as int;
        let m = n + LEN_SYM_TO_LEN_EXTRA[l];
        let extra = b.subrange(n, m);
        let rest = b.skip(m);
        let s = decode_symbol(dist, rest)->Some_0;
        assert(symbol_at(dist, rest, s));
        let distance = parse_distance(dist, rest, s);
        let e = dist[s] + DIST_SYM_TO_DIST_EXTRA[s];
        let length = LEN_SYM_TO_LEN_BASE[l] as nat + value(extra);
        lemma_value_bound(extra);
        lemma_field_bits(extra);
        lemma_length_symbol(l);
        lemma2_to64();
        law_copy(c.out, distance as int, length);
        assert((c.out + copied(c.out, distance as int, length)).skip(c.out.len() as int) =~= copied(
            c.out,
            distance as int,
            length,
        ));
        let word = code_word(litlen, symbol);
        let back = distance_bits(dist, distance);
        lemma_cut(b, n, m);
        lemma_join(word + extra, back, rest.skip(e));
        lemma_join(word, extra, back);
        assert(b.skip(m + e) =~= rest.skip(e));
        if l == 27 && value(extra) == 31 {
            Token::Long { distance }
        } else {
            reveal(length_symbol);
            law_length_tables(l, value(extra) as int);
            Token::Match { length, distance }
        }
    }
}

/// `next` is the output `out` and from there on repeats itself at the given distance.
pub open spec fn repeats(out: Seq<u8>, next: Seq<u8>, distance: int) -> bool {
    &&& out.len() <= next.len()
    &&& next.take(out.len() as int) == out
    &&& forall|k: int| out.len() <= k < next.len() ==> #[trigger] next[k] == next[k - distance]
}

/// What a symbol of compressed data does to the output: nothing, or it appends a byte, or it
/// appends 3 to 258 bytes, each of which is the one at some distance before it.
pub proof fn law_symbol_output(c: Config, d: Config)
    requires
        c.phase is Compressed,
        step(c) == Step::Next(d),
    ensures
        ({
            ||| d.out == c.out
            ||| exists|byte: u8| d.out == #[trigger] c.out.push(byte)
            ||| 3 <= d.out.len() - c.out.len() <= 258 && exists|distance: int|
                1 <= distance <= 32768 && distance <= c.out.len() && #[trigger] repeats(
                    c.out,
                    d.out,
                    distance,
                )
        }),
{
    let last = c.phase->Compressed_last;
    let litlen = c.phase->Compressed_litlen;
    let dist = c.phase->Compressed_dist;
    if d.phase is Compressed {
        match parse_token(c, last, litlen, dist, d) {
            Token::Literal(byte) => {
                assert(d.out =~= c.out.push(byte));
            },
            Token::Match { length, distance } => {
                lemma_repeats(c.out, d.out, distance as int, length);
            },
            Token::Long { distance } => {
                lemma_repeats(c.out, d.out, distance as int, 258);
            },
        }
    } else {
        reveal(compressed_step);
    }
}

proof fn lemma_repeats(out: Seq<u8>, next: Seq<u8>, distance: int, length: nat)
    requires
        1 <= distance <= out.len(),
        next == out + copied_on(out, distance, length).skip(out.len() as int),
    ensures
        repeats(out, next, distance),
        next.len() == out.len() + length,
{
    law_copy(out, distance, length);
    let all = copied_on(out, distance, length);
    assert(all =~= all.take(out.len() as int) + all.skip(out.len() as int));
}

/// Finds the data of a block.
proof fn parse_data(c: Config, last: bool, litlen: Seq<u8>, dist: Seq<u8>) -> (res: (
    Seq<Token>,
    Config,
))
    requires
        c.phase == (Phase::Compressed { last, litlen, dist }),
        litlen.len() == 288,
        decode(c) is Ok,
    ensures
        ({
            let (tokens, d) = res;
            &&& litlen[256] > 0
            &&& tokens_ok(litlen, dist, tokens, c.out)
            &&& c.bits == data_bits(litlen, dist, tokens) + d.bits
            &&& d.phase == after_block(last)
            &&& d.out == tokens_out(tokens, c.out)
            &&& decode(d) == decode(c)
            &&& reaches(c, d)
            &&& d.bits.len() < c.bits.len()
        }),
    decreases c.bits.len(),
{
    let e = lemma_goes_on(c);
    if e.phase is Compressed {
        let token = parse_token(c, last, litlen, dist, e);
        let (more, d) = parse_data(e, last, litlen, dist);
        let tokens = seq![token] + more;
        assert(tokens.drop_first() =~= more);
        let first = token_bits(litlen, dist, token);
        let others = tokens_bits(litlen, dist, more);
        lemma_join(first, data_bits(litlen, dist, more), d.bits);
        lemma_join(first, others, code_word(litlen, 256));
        lemma_reaches_trans(c, e, d);
        (tokens, d)
    } else {
        reveal(compressed_step);
        let symbol = decode_symbol(litlen, c.bits)->Some_0;
        assert(symbol_at(litlen, c.bits, symbol));
        lemma_symbol_word(litlen, c.bits, symbol);
        let tokens = Seq::<Token>::empty();
        assert(c.bits =~= data_bits(litlen, dist, tokens) + e.bits);
        (tokens, e)
    }
}

/// Finds the piece of the code lengths that a step reads.
#[verifier::spinoff_prover]
#[verifier::rlimit(60)]
proof fn parse_item(
    c: Config,
    last: bool,
    hlit: nat,
    hdist: nat,
    clcl: Seq<u8>,
    lens: Seq<u8>,
    d: Config,
) -> (item: LengthItem)
    requires
        c.phase == (Phase::CodeLengths { last, hlit, hdist, clcl, lens }),
        clcl.len() == 19,
        step(c) == Step::Next(d),
        lens.len() < hlit + hdist,
        valid_lengths(lens),
    ensures
        item_ok(clcl, item, lens.len()),
        c.bits == item_bits(clcl, item) + d.bits,
        d == (Config {
            phase: Phase::CodeLengths {
                last,
                hlit,
                hdist,
                clcl,
                lens: lens + item_lens(item, lens),
            },
            bits: d.bits,
            ..c
        }),
        lens.len() + item_lens(item, lens).len() <= hlit + hdist,
        valid_lengths(lens + item_lens(item, lens)),
{
    reveal(code_lengths_step);
    let b = c.bits;
    let symbol = decode_symbol(clcl, b)->Some_0;
    assert(symbol_at(clcl, b, symbol));
    lemma_symbol_word(clcl, b, symbol);
    let n = clcl[symbol] as int;
    if symbol < 16 {
        let item = LengthItem::Length(symbol as u8);
        assert(item_bits(clcl, item) =~= code_word(clcl, symbol));
        assert(lens.push(symbol as u8) =~= lens + item_lens(item, lens));
        item
    } else {
        let m = n + if symbol == 16 {
            2int
        } else if symbol == 17 {
            3
        } else {
            7
        };
        let extra = b.subrange(n, m);
        lemma_value_bound(extra);
        lemma_field_bits(extra);
        lemma2_to64();
        let base = if symbol == 18 {
            11nat
        } else {
            3
        };
        let count = base + value(extra);
        let item = if symbol == 16 {
            LengthItem::Repeat(count)
        } else {
            LengthItem::Zeros(count)
        };
        assert(item_extra(item) == extra);
        assert(b =~= code_word(clcl, symbol) + extra + b.skip(m));
        let length = if symbol == 16 {
            lens.last()
        } else {
            0u8
        };
        assert(lens + Seq::new(count, |i: int| length) =~= lens + item_lens(item, lens));
        assert(symbol == 16 ==> lens[lens.len() - 1] <= 15);
        item
    }
}

/// Finds the code lengths of a block.
#[verifier::spinoff_prover]
#[verifier::rlimit(60)]
proof fn parse_items(
    c: Config,
    last: bool,
    hlit: nat,
    hdist: nat,
    clcl: Seq<u8>,
    lens: Seq<u8>,
) -> (res: (Seq<LengthItem>, Config))
    requires
        c.phase == (Phase::CodeLengths { last, hlit, hdist, clcl, lens }),
        clcl.len() == 19,
        lens.len() <= hlit + hdist,
        valid_lengths(lens),
        decode(c) is Ok,
    ensures
        ({
            let (items, d) = res;
            let all = items_lens(items, lens);
            let litlen = padded(all.take(hlit as int), 288);
            let dist = padded(all.skip(hlit as int), 32);
            &&& items_ok(clcl, items, lens)
            &&& all.len() == hlit + hdist
            &&& valid_lengths(all)
            &&& c.bits == items_bits(clcl, items) + d.bits
            &&& d == (Config {
                phase: Phase::Compressed { last, litlen, dist },
                bits: d.bits,
                ..c
            })
            &&& crate::huffman::complete(litlen)
            &&& crate::format::valid_distance_code(dist)
            &&& decode(d) == decode(c)
            &&& reaches(c, d)
            &&& d.bits.len() <= c.bits.len()
        }),
    decreases c.bits.len(), rank(c.phase),
{
    let e = lemma_goes_on(c);
    if lens.len() == hlit + hdist {
        reveal(code_lengths_step);
        let items = Seq::<LengthItem>::empty();
        assert(c.bits =~= items_bits(clcl, items) + e.bits);
        (items, e)
    } else {
        let item = parse_item(c, last, hlit, hdist, clcl, lens, e);
        let next = lens + item_lens(item, lens);
        let (more, d) = parse_items(e, last, hlit, hdist, clcl, next);
        let items = seq![item] + more;
        assert(items.drop_first() =~= more);
        lemma_join(item_bits(clcl, item), items_bits(clcl, more), d.bits);
        lemma_reaches_trans(c, e, d);
        (items, d)
    }
}

/// The bytes that deliver eight bits.
proof fn lemma_one_byte(bits: Seq<bool>)
    requires
        bits.len() == 8,
    ensures
        byte_bits(seq![value(bits) as u8]) == bits,
{
    lemma_packed(bits);
    assert(bits.subrange(0, 8) =~= bits);
    assert(packed(bits) =~= seq![value(bits) as u8]);
}

/// Finds the bytes of a stored block.
proof fn parse_stored(c: Config, last: bool, left: nat) -> (res: (Seq<u8>, Config))
    requires
        c.phase == (Phase::Stored { last, left }),
        decode(c) is Ok,
    ensures
        ({
            let (data, d) = res;
            &&& data.len() == left
            &&& c.bits == byte_bits(data) + d.bits
            &&& d.phase == after_block(last)
            &&& d.out == c.out + data
            &&& decode(d) == decode(c)
            &&& reaches(c, d)
        }),
    decreases left,
{
    let e = lemma_goes_on(c);
    if left == 0 {
        let data = Seq::<u8>::empty();
        assert(c.bits =~= byte_bits(data) + e.bits);
        assert(c.out + data =~= e.out);
        (data, e)
    } else {
        let first = c.bits.take(8);
        let byte = seq![value(first) as u8];
        let (more, d) = parse_stored(e, last, (left - 1) as nat);
        let data = byte + more;
        lemma_one_byte(first);
        lemma_byte_bits_concat(byte, more);
        assert(c.bits =~= first + c.bits.skip(8));
        assert(c.bits =~= byte_bits(data) + d.bits);
        assert(c.out + byte + more =~= c.out + data);
        lemma_reaches_trans(c, e, d);
        (data, d)
    }
}

/// The lengths of a code length code are those that were written.
proof fn lemma_clcl_written(bits: Seq<bool>, n: int)
    requires
        0 <= n <= 19,
        3 * n <= bits.len(),
    ensures
        clcl_lengths(bits, n).len() == 19,
        forall|i: int| 0 <= i < 19 ==> #[trigger] clcl_lengths(bits, n)[i] <= 7,
        forall|k: int|
            n <= k < 19 ==> clcl_lengths(bits, n)[#[trigger] CLCL_ORDER[k] as int] == 0,
    decreases n,
{
    if n > 0 {
        lemma_clcl_written(bits, n - 1);
        lemma_value_bound(bits.subrange(3 * (n - 1), 3 * n));
        lemma2_to64();
        assert forall|k: int| n <= k < 19 implies clcl_lengths(bits, n)[#[trigger] CLCL_ORDER[k] as int]
            == 0 by {
            lemma_order(k, n - 1);
        }
    }
}

proof fn lemma_clcl_fields(bits: Seq<bool>, clcl: Seq<u8>, n: int, m: int)
    requires
        0 <= m <= n <= 19,
        3 * n <= bits.len(),
        clcl == clcl_lengths(bits, n),
    ensures
        clcl_bits(clcl, m) == bits.take(3 * m),
    decreases m,
{
    if m > 0 {
        lemma_clcl_fields(bits, clcl, n, m - 1);
        let f = bits.subrange(3 * (m - 1), 3 * m);
        lemma_clcl_kept(bits, n, m);
        lemma_value_bound(f);
        lemma2_to64();
        lemma_field_bits(f);
        assert(bits.take(3 * m) =~= bits.take(3 * (m - 1)) + f);
    } else {
        assert(bits.take(0) =~= Seq::<bool>::empty());
    }
}

proof fn lemma_clcl_kept(bits: Seq<bool>, n: int, m: int)
    requires
        1 <= m <= n <= 19,
        3 * n <= bits.len(),
    ensures
        clcl_lengths(bits, n)[CLCL_ORDER[m - 1] as int] == value(
            bits.subrange(3 * (m - 1), 3 * m),
        ) as u8,
    decreases n,
{
    lemma_order(m - 1, n - 1);
    lemma_clcl_written(bits, n - 1);
    if m < n {
        lemma_clcl_kept(bits, n - 1, m);
    }
}

/// The codes of a block are those of its lengths.
proof fn lemma_header_codes(header: CodeHeader)
    requires
        257 <= header.hlit <= 286,
        1 <= header.hdist <= 30,
        ({
            let lens = items_lens(header.items, Seq::empty());
            let litlen = padded(lens.take(header.hlit as int), 288);
            let dist = padded(lens.skip(header.hlit as int), 32);
            &&& lens.len() == header.hlit + header.hdist
            &&& valid_lengths(lens)
            &&& crate::huffman::complete(litlen)
            &&& crate::format::valid_distance_code(dist)
        }),
    ensures
        ({
            let lens = items_lens(header.items, Seq::empty());
            &&& header_litlen(header) == padded(lens.take(header.hlit as int), 288)
            &&& header_dist(header) == padded(lens.skip(header.hlit as int), 32)
            &&& valid_codes(header_litlen(header), header_dist(header))
        }),
{
    let lens = items_lens(header.items, Seq::empty());
    let hlit = header.hlit as int;
    let litlen = padded(lens.take(hlit), 288);
    let dist = padded(lens.skip(hlit), 32);
    assert(litlen =~= header_litlen(header));
    assert(dist =~= header_dist(header));
    assert forall|i: int| 0 <= i < 288 implies #[trigger] litlen[i] <= 15 by {
        assert(i < hlit ==> lens[i] <= 15);
    }
    assert forall|i: int| 0 <= i < 32 implies #[trigger] dist[i] <= 15 by {
        assert(i < header.hdist ==> lens[hlit + i] <= 15);
    }
    lemma_complete_kraft(litlen);
    lemma_distance_lengths(dist);
}

/// How the numbers that a block with codes of its own begins with were written.
#[verifier::spinoff_prover]
#[verifier::rlimit(30)]
proof fn lemma_counts_written(b: Seq<bool>, hclen: int)
    requires
        4 <= hclen <= 19,
        b.len() >= 17 + 3 * hclen,
        value(b.subrange(1, 3)) == 2,
    ensures
        ({
            let clcl = clcl_lengths(b.skip(17), hclen);
            b == seq![b[0]] + field(2, 2) + (field(value(b.subrange(3, 8)), 5) + field(
                value(b.subrange(8, 13)),
                5,
            ) + field(value(b.subrange(13, 17)), 4) + clcl_bits(clcl, hclen)) + b.skip(
                17 + 3 * hclen,
            )
        }),
{
    let rest = b.skip(17);
    let clcl = clcl_lengths(rest, hclen);
    let w = clcl_bits(clcl, hclen);
    lemma_clcl_fields(rest, clcl, hclen, hclen);
    lemma_cut(rest, 0, 3 * hclen);
    assert(rest.skip(3 * hclen) =~= b.skip(17 + 3 * hclen));
    lemma_numbers_written(b);
    lemma_cut(b, 0, 17);
    let head = seq![b[0]] + field(2, 2);
    let numbers = field(value(b.subrange(3, 8)), 5) + field(value(b.subrange(8, 13)), 5) + field(
        value(b.subrange(13, 17)),
        4,
    );
    lemma_join(head, numbers, w);
    lemma_join(head + numbers, w, rest.skip(3 * hclen));
}

/// How those of a fixed length were written.
#[verifier::spinoff_prover]
#[verifier::rlimit(30)]
proof fn lemma_numbers_written(b: Seq<bool>)
    requires
        b.len() >= 17,
        value(b.subrange(1, 3)) == 2,
    ensures
        b.take(17) == seq![b[0]] + field(2, 2) + (field(value(b.subrange(3, 8)), 5) + field(
            value(b.subrange(8, 13)),
            5,
        ) + field(value(b.subrange(13, 17)), 4)),
{
    let f0 = b.subrange(1, 3);
    let f1 = b.subrange(3, 8);
    let f2 = b.subrange(8, 13);
    let f3 = b.subrange(13, 17);
    lemma_field_bits(f0);
    lemma_field_bits(f1);
    lemma_field_bits(f2);
    lemma_field_bits(f3);
    lemma_cut(b, 1, 3);
    lemma_cut(b, 3, 8);
    lemma_cut(b, 8, 13);
    lemma_cut(b, 13, 17);
    assert(b.take(1) =~= seq![b[0]]);
    let head = seq![b[0]] + f0;
    lemma_join(head, f1, f2);
    lemma_join(head, f1 + f2, f3);
}

/// Finds a block with codes of its own.
#[verifier::spinoff_prover]
#[verifier::rlimit(80)]
proof fn parse_header(c: Config) -> (res: (CodeHeader, Config))
    requires
        c.phase is BlockHeader,
        decode(c) is Ok,
        value(c.bits.subrange(1, 3)) == 2,
    ensures
        ({
            let (header, d) = res;
            &&& 257 <= header.hlit <= 286
            &&& 1 <= header.hdist <= 30
            &&& 4 <= header.hclen <= 19
            &&& valid_clcl_code(header.clcl)
            &&& forall|i: int| 0 <= i < 19 ==> #[trigger] header.clcl[i] <= 7
            &&& forall|k: int|
                header.hclen <= k < 19 ==> header.clcl[#[trigger] CLCL_ORDER[k] as int] == 0
            &&& items_ok(header.clcl, header.items, Seq::empty())
            &&& items_lens(header.items, Seq::empty()).len() == header.hlit + header.hdist
            &&& valid_codes(header_litlen(header), header_dist(header))
            &&& c.bits.len() >= 3
            &&& c.bits == seq![c.bits[0]] + field(2, 2) + header_bits(header) + d.bits
            &&& d == (Config {
                phase: Phase::Compressed {
                    last: c.bits[0],
                    litlen: header_litlen(header),
                    dist: header_dist(header),
                },
                bits: d.bits,
                ..c
            })
            &&& decode(d) == decode(c)
            &&& reaches(c, d)
            &&& d.bits.len() < c.bits.len()
        }),
{
    let e = lemma_goes_on(c);
    let b = c.bits;
    let last = b[0];
    let hlit = value(b.subrange(3, 8)) + 257;
    let hdist = value(b.subrange(8, 13)) + 1;
    let hclen = value(b.subrange(13, 17)) + 4;
    let clcl = clcl_lengths(b.skip(17), hclen as int);
    let none = Seq::<u8>::empty();
    assert(b.len() >= 17 + 3 * hclen && hlit <= 286 && hdist <= 30 && crate::huffman::complete(clcl)
        && e == advance(
        c,
        Phase::CodeLengths { last, hlit, hdist, clcl, lens: none },
        (17 + 3 * hclen) as int,
    )) by {
        reveal(block_header_step);
    }
    lemma_value_bound(b.subrange(13, 17));
    lemma2_to64();
    lemma_clcl_written(b.skip(17), hclen as int);
    lemma_complete_kraft(clcl);
    let (items, d) = parse_items(e, last, hlit, hdist, clcl, none);
    let header = CodeHeader { hlit, hdist, hclen, clcl, items };
    lemma_header_codes(header);
    lemma_reaches_trans(c, e, d);
    lemma_counts_written(b, hclen as int);
    let head = seq![last] + field(2, 2);
    let counts = field((hlit - 257) as nat, 5) + field((hdist - 1) as nat, 5) + field(
        (hclen - 4) as nat,
        4,
    ) + clcl_bits(clcl, hclen as int);
    let written = items_bits(clcl, items);
    lemma_join(head + counts, written, d.bits);
    lemma_join(head, counts, written);
    (header, d)
}

/// The first bits of a block.
proof fn lemma_block_start(c: Config) -> (kind: nat)
    requires
        c.phase is BlockHeader,
        decode(c) is Ok,
    ensures
        c.bits.len() >= 3,
        kind <= 2,
        kind == value(c.bits.subrange(1, 3)),
        c.bits == seq![c.bits[0]] + field(kind, 2) + c.bits.skip(3),
{
    reveal(block_header_step);
    let d = lemma_goes_on(c);
    let b = c.bits;
    let f = b.subrange(1, 3);
    lemma_value_bound(f);
    lemma2_to64();
    lemma_field_bits(f);
    assert(b =~= seq![b[0]] + f + b.skip(3));
    value(f)
}

/// Finds the header of a stored block, which is `pad` bits longer than its parts.
#[verifier::spinoff_prover]
#[verifier::rlimit(30)]
proof fn parse_stored_header(c: Config, pad: int) -> (d: Config)
    requires
        c.phase is BlockHeader,
        decode(c) is Ok,
        value(c.bits.subrange(1, 3)) == 0,
        pad == (c.bits.len() - 3) % 8,
    ensures
        c.bits.len() >= 35 + pad,
        ({
            let len = value(c.bits.subrange(3 + pad, 19 + pad));
            let nlen = value(c.bits.subrange(19 + pad, 35 + pad));
            &&& len + nlen == 0xffff
            &&& d == advance(c, Phase::Stored { last: c.bits[0], left: len }, 35 + pad)
        }),
        decode(d) == decode(c),
        reaches(c, d),
{
    reveal(block_header_step);
    lemma_goes_on(c)
}

/// How the header of a stored block was written.
#[verifier::spinoff_prover]
#[verifier::rlimit(30)]
proof fn lemma_stored_written(b: Seq<bool>, pad: int)
    requires
        0 <= pad,
        b.len() >= 35 + pad,
        value(b.subrange(1, 3)) == 0,
    ensures
        ({
            let len = value(b.subrange(3 + pad, 19 + pad));
            let nlen = value(b.subrange(19 + pad, 35 + pad));
            b == seq![b[0]] + field(0, 2) + b.subrange(3, 3 + pad) + field(len, 16) + field(
                nlen,
                16,
            ) + b.skip(35 + pad)
        }),
{
    lemma_cut(b, 1, 3);
    lemma_cut(b, 3, 3 + pad);
    lemma_cut(b, 3 + pad, 19 + pad);
    lemma_cut(b, 19 + pad, 35 + pad);
    assert(b.take(1) =~= seq![b[0]]);
    lemma_field_bits(b.subrange(1, 3));
    lemma_field_bits(b.subrange(3 + pad, 19 + pad));
    lemma_field_bits(b.subrange(19 + pad, 35 + pad));
}

/// Finds a stored block.
#[verifier::spinoff_prover]
#[verifier::rlimit(60)]
proof fn parse_stored_block(c: Config, position: nat) -> (res: (Block, Config))
    requires
        c.phase is BlockHeader,
        decode(c) is Ok,
        (position + c.bits.len()) % 8 == 0,
        value(c.bits.subrange(1, 3)) == 0,
    ensures
        ({
            let (block, d) = res;
            &&& block_ok(block, c.out)
            &&& c.bits == block_bits(block, c.bits[0], position) + d.bits
            &&& d.phase == after_block(c.bits[0])
            &&& d.out == block_out(block, c.out)
            &&& decode(d) == decode(c)
            &&& reaches(c, d)
            &&& d.bits.len() < c.bits.len()
        }),
{
    let b = c.bits;
    let last = b[0];
    let pad = (b.len() - 3) % 8;
    let e = parse_stored_header(c, pad);
    let len = value(b.subrange(3 + pad, 19 + pad));
    let nlen = value(b.subrange(19 + pad, 35 + pad));
    lemma_stored_written(b, pad);
    let (data, d) = parse_stored(e, last, len);
    let bits = b.subrange(3, 3 + pad);
    lemma_padding(position + 3, (b.len() - 3) as nat);
    lemma_pad_bits(bits);
    let block = Block::Stored(data, bits);
    let head = seq![last] + field(0, 2) + bits + field(len, 16) + field(nlen, 16);
    assert(block_bits(block, last, position) == head + byte_bits(data)) by {
        reveal(block_bits);
    }
    lemma_join(head, byte_bits(data), d.bits);
    lemma_reaches_trans(c, e, d);
    (block, d)
}

/// Finds a block.
#[verifier::spinoff_prover]
#[verifier::rlimit(60)]
proof fn parse_block(c: Config, position: nat) -> (res: (Block, bool, Config))
    requires
        c.phase is BlockHeader,
        decode(c) is Ok,
        (position + c.bits.len()) % 8 == 0,
    ensures
        ({
            let (block, last, d) = res;
            &&& block_ok(block, c.out)
            &&& c.bits == block_bits(block, last, position) + d.bits
            &&& d.phase == after_block(last)
            &&& d.out == block_out(block, c.out)
            &&& decode(d) == decode(c)
            &&& reaches(c, d)
            &&& d.bits.len() < c.bits.len()
        }),
{
    let kind = lemma_block_start(c);
    let b = c.bits;
    let last = b[0];
    if kind == 0 {
        let (block, d) = parse_stored_block(c, position);
        (block, last, d)
    } else if kind == 1 {
        let e = lemma_goes_on(c);
        let litlen = fixed_litlen_lengths();
        let dist = fixed_dist_lengths();
        assert(e == advance(c, Phase::Compressed { last, litlen, dist }, 3)) by {
            reveal(block_header_step);
        }
        let (tokens, d) = parse_data(e, last, litlen, dist);
        let block = Block::Fixed(tokens);
        let head = seq![last] + field(1, 2);
        let data = data_bits(litlen, dist, tokens);
        assert(block_bits(block, last, position) == head + data) by {
            reveal(block_bits);
        }
        lemma_join(head, data, d.bits);
        lemma_reaches_trans(c, e, d);
        (block, last, d)
    } else {
        let (header, f) = parse_header(c);
        let litlen = header_litlen(header);
        let dist = header_dist(header);
        let (tokens, d) = parse_data(f, last, litlen, dist);
        let block = Block::Dynamic(header, tokens);
        let head = seq![last] + field(2, 2) + header_bits(header);
        let data = data_bits(litlen, dist, tokens);
        assert(block_bits(block, last, position) == head + data) by {
            reveal(block_bits);
        }
        lemma_join(head, data, d.bits);
        lemma_reaches_trans(c, f, d);
        (block, last, d)
    }
}

/// Finds the blocks of a stream.
#[verifier::spinoff_prover]
#[verifier::rlimit(60)]
proof fn parse_blocks(c: Config, position: nat) -> (res: (Seq<Block>, Config))
    requires
        c.phase is BlockHeader,
        decode(c) is Ok,
        (position + c.bits.len()) % 8 == 0,
    ensures
        ({
            let (blocks, d) = res;
            &&& blocks.len() > 0
            &&& blocks_ok(blocks, c.out)
            &&& c.bits == blocks_bits(blocks, position) + d.bits
            &&& d.phase is Checksum
            &&& d.out == blocks_out(blocks, c.out)
            &&& decode(d) == decode(c)
            &&& reaches(c, d)
        }),
    decreases c.bits.len(),
{
    let (block, last, e) = parse_block(c, position);
    let first = block_bits(block, last, position);
    if last {
        let blocks = seq![block];
        assert(blocks.drop_first() =~= Seq::<Block>::empty());
        reveal_with_fuel(blocks_bits, 2);
        reveal_with_fuel(blocks_ok, 2);
        reveal_with_fuel(blocks_out, 2);
        assert(c.bits =~= blocks_bits(blocks, position) + e.bits);
        (blocks, e)
    } else {
        let (more, d) = parse_blocks(e, position + first.len());
        let blocks = seq![block] + more;
        assert(blocks.drop_first() =~= more);
        lemma_join(first, blocks_bits(more, position + first.len()), d.bits);
        lemma_reaches_trans(c, e, d);
        (blocks, d)
    }
}

/// The bytes of a number.
proof fn lemma_digits(a: nat, b: nat, c: nat, d: nat)
    requires
        a < 256,
        b < 256,
        c < 256,
        d < 256,
    ensures
        ({
            let sum = 0x100_0000 * a + 0x1_0000 * b + 0x100 * c + d;
            &&& sum / 0x100_0000 == a
            &&& sum / 0x1_0000 % 0x100 == b
            &&& sum / 0x100 % 0x100 == c
            &&& sum % 0x100 == d
        }),
{
    let sum = (0x100_0000 * a + 0x1_0000 * b + 0x100 * c + d) as int;
    let high = (0x100 * a + b) as int;
    let upper = 0x100 * high + c;
    lemma_fundamental_div_mod_converse(sum, 0x100, upper, d as int);
    lemma_fundamental_div_mod_converse(sum, 0x1_0000, high, (0x100 * c + d) as int);
    lemma_fundamental_div_mod_converse(
        sum,
        0x100_0000,
        a as int,
        (0x1_0000 * b + 0x100 * c + d) as int,
    );
    lemma_fundamental_div_mod_converse(upper, 0x100, high, c as int);
    lemma_fundamental_div_mod_converse(high, 0x100, a as int, b as int);
}

/// Finds the checksum of a stream.
#[verifier::spinoff_prover]
#[verifier::rlimit(40)]
proof fn parse_sum(c: Config) -> (res: (Seq<bool>, Config))
    requires
        c.phase is Checksum,
        decode(c) is Ok,
    ensures
        ({
            let (pad, d) = res;
            &&& pad.len() == c.bits.len() % 8
            &&& c.bits == pad + sum_bits(c.sum) + d.bits
            &&& d.phase is Done
            &&& d.out == c.out
            &&& decode(c) == Ok::<Seq<u8>, DecompressionError>(c.out)
        }),
{
    let d = lemma_goes_on(c);
    let b = c.bits;
    let p = b.len() as int % 8;
    let pad = b.take(p);
    let f0 = b.subrange(p, p + 8);
    let f1 = b.subrange(p + 8, p + 16);
    let f2 = b.subrange(p + 16, p + 24);
    let f3 = b.subrange(p + 24, p + 32);
    lemma2_to64();
    lemma_value_bound(f0);
    lemma_value_bound(f1);
    lemma_value_bound(f2);
    lemma_value_bound(f3);
    lemma_field_bits(f0);
    lemma_field_bits(f1);
    lemma_field_bits(f2);
    lemma_field_bits(f3);
    let sum = c.sum;
    lemma_digits(value(f0), value(f1), value(f2), value(f3));
    let digits = f0 + f1 + f2 + f3;
    assert(sum_bits(sum) == digits) by {
        reveal(sum_bits);
    }
    assert(b =~= pad + digits + d.bits);
    (pad, d)
}

/// Finds the zlib header.
proof fn parse_zlib(c: Config) -> (res: (u8, u8, Config))
    requires
        c.phase is ZlibHeader,
        decode(c) is Ok,
    ensures
        ({
            let (cmf, flg, d) = res;
            &&& cmf % 16 == 8
            &&& 0 <= cmf / 16 <= 7
            &&& flg % 64 < 32
            &&& (256 * cmf + flg) % 31 == 0
            &&& c.bits == field(cmf as nat, 8) + field(flg as nat, 8) + d.bits
            &&& d == (Config { phase: Phase::BlockHeader, bits: d.bits, ..c })
            &&& c.bits.len() == 16 + d.bits.len()
            &&& decode(d) == decode(c)
            &&& reaches(c, d)
        }),
{
    let d = lemma_goes_on(c);
    let b = c.bits;
    let f0 = b.take(8);
    let f1 = b.subrange(8, 16);
    lemma_value_bound(f0);
    lemma_value_bound(f1);
    lemma2_to64();
    lemma_field_bits(f0);
    lemma_field_bits(f1);
    assert(b =~= f0 + f1 + d.bits);
    (value(f0) as u8, value(f1) as u8, d)
}

/// Finds the blocks and the checksum of a stream.
#[verifier::spinoff_prover]
#[verifier::rlimit(60)]
proof fn parse_body(input: Seq<u8>, c: Config) -> (res: (Seq<Block>, Seq<bool>, Config))
    requires
        reaches(start(input), c),
        c.phase is BlockHeader,
        c.out == Seq::<u8>::empty(),
        c.bits.len() % 8 == 0,
        decode(c) is Ok,
    ensures
        ({
            let (blocks, pad, d) = res;
            &&& blocks.len() > 0
            &&& blocks_ok(blocks, Seq::empty())
            &&& c.bits == body_bits(blocks, pad) + d.bits
            &&& decode(c) == Ok::<Seq<u8>, DecompressionError>(blocks_out(blocks, Seq::empty()))
        }),
{
    let (blocks, e) = parse_blocks(c, 16);
    lemma_reaches_trans(start(input), c, e);
    law_checksum(input, e);
    let (pad, d) = parse_sum(e);
    let body = blocks_bits(blocks, 16);
    assert(c.bits.len() == body.len() + e.bits.len());
    lemma_padding(16 + body.len(), e.bits.len());
    lemma_pad_bits(pad);
    let sum = sum_bits(adler32(blocks_out(blocks, Seq::empty())));
    lemma_join(body, pad, sum);
    lemma_join(body, pad + sum, d.bits);
    (blocks, pad, d)
}

/// The parts of a zlib stream and what follows it.
pub struct Stream {
    pub cmf: u8,
    pub flg: u8,
    pub blocks: Seq<Block>,
    /// The bits up to the byte boundary before the checksum.
    pub pad: Seq<bool>,
    /// The bytes after the end of the stream.
    pub more: Seq<u8>,
}

/// Bytes are packed again from their bits.
proof fn lemma_repacked(bytes: Seq<u8>, n: int)
    requires
        0 <= n <= bytes.len(),
    ensures
        packed(byte_bits(bytes).take(8 * n)) == bytes.take(n),
{
    let bits = byte_bits(bytes).take(8 * n);
    assert forall|i: int| 0 <= i < n implies #[trigger] packed(bits)[i] == bytes[i] by {
        let x = bytes[i] as u64;
        lemma_byte_high(x);
        lemma_low_bits_value(x, 8);
        assert(bits.subrange(8 * i, 8 * i + 8) =~= low_bits(x, 8));
    }
    assert(packed(bits) =~= bytes.take(n));
}

/// `input` begins with the stream `s`, which stands for `out`: a header of the deflate method with
/// a window of up to 32 KiB and without a preset dictionary, whose value is a multiple of 31;
/// blocks that the format allows, which stand for `out`; and the Adler-32 checksum of `out`.
pub open spec fn stands_for(s: Stream, input: Seq<u8>, out: Seq<u8>) -> bool {
    &&& s.cmf % 16 == 8
    &&& 0 <= s.cmf / 16 <= 7
    &&& s.flg % 64 < 32
    &&& (256 * s.cmf + s.flg) % 31 == 0
    &&& s.blocks.len() > 0
    &&& blocks_ok(s.blocks, Seq::empty())
    &&& out == blocks_out(s.blocks, Seq::empty())
    &&& input == encode(s.cmf, s.flg, s.blocks, s.pad) + s.more
}

/// `input` begins with a stream that stands for `out`.
#[verifier::opaque]
pub open spec fn accepted(input: Seq<u8>, out: Seq<u8>) -> bool {
    exists|s: Stream| stands_for(s, input, out)
}

/// Finds the stream that an input begins with.
#[verifier::rlimit(40)]
proof fn lemma_written(input: Seq<u8>, out: Seq<u8>) -> (s: Stream)
    requires
        decode(start(input)) == Ok::<Seq<u8>, DecompressionError>(out),
    ensures
        stands_for(s, input, out),
{
    let c = start(input);
    let (cmf, flg, e) = parse_zlib(c);
    assert(e.out =~= Seq::<u8>::empty());
    let (blocks, pad, d) = parse_body(input, e);
    let all = stream_bits(cmf, flg, blocks, pad);
    lemma_join(
        field(cmf as nat, 8) + field(flg as nat, 8),
        body_bits(blocks, pad),
        d.bits,
    );
    lemma_stream_len(cmf, flg, blocks, pad);
    let n = all.len() as int / 8;
    lemma_repacked(input, n);
    assert(c.bits.take(8 * n) =~= all);
    let more = input.skip(n);
    assert(input =~= input.take(n) + more);
    Stream { cmf, flg, blocks, pad, more }
}

/// Exactly the streams that a compressor may write are accepted, and they give the data that they
/// stand for: `input` decodes to `out` if and only if it begins with a stream that stands for
/// `out`.
pub proof fn law_accepted(input: Seq<u8>, out: Seq<u8>)
    ensures
        decode(start(input)) == Ok::<Seq<u8>, DecompressionError>(out) <==> accepted(input, out),
{
    reveal(accepted);
    if decode(start(input)) == Ok::<Seq<u8>, DecompressionError>(out) {
        let s = lemma_written(input, out);
        assert(stands_for(s, input, out));
    }
    if accepted(input, out) {
        let s = choose|s: Stream| stands_for(s, input, out);
        law_round_trip(s.cmf, s.flg, s.blocks, s.pad);
        law_trailing_data(encode(s.cmf, s.flg, s.blocks, s.pad), s.more);
    }
}

/// What the result of decoding says of all outputs.
pub proof fn lemma_accepted(input: Seq<u8>)
    ensures
        forall|out: Seq<u8>| #[trigger]
            accepted(input, out) <==> decode(start(input)) == Ok::<Seq<u8>, DecompressionError>(
                out,
            ),
{
    assert forall|out: Seq<u8>| #[trigger]
        accepted(input, out) <==> decode(start(input)) == Ok::<Seq<u8>, DecompressionError>(
            out,
        ) by {
        law_accepted(input, out);
    }
}

} // verus!
