//! Encoding: how a compressor writes data, and that decoding gives it back.
//!
//! These are mathematical functions only. They say which streams are encodings of some data, with
//! all the freedom that the format leaves to a compressor: how to divide the data into blocks, what
//! codes a block has, and which parts are written as back references.
use crate::adler::adler32;
use crate::bits::{
    byte_bits, code_value, lemma_byte_bits_concat, lemma_byte_high, lemma_first_byte,
    lemma_low_bits_value, lemma_value_bound, low_bits, value,
};
use crate::distance_code::lemma_single_code;
use crate::error::DecompressionError;
use crate::format::{
    advance, after_block, block_header_step, clcl_lengths, code_lengths_step, compressed_step,
    copied, decode, emit, fails, law_decode_resumes, lemma_fails_decode, lemma_one_end,
    lemma_reaches_self, lemma_reaches_step, lemma_reaches_trans, padded, reaches, repeat_base,
    repeat_extra, start, step, valid_distance_code, valid_zlib_header, Config, Phase, Step,
};
use crate::huffman::{complete, decode_symbol, lemma_code_fits, lemma_decode_symbol, valid_lengths};
use crate::laws::{extended, law_checksum, law_more_input, law_outcomes, law_trailing_data};
use crate::refusal::law_sum_compared;
use crate::rules::{
    code_number, copied_on, distance_lengths, kraft_sum, law_copy, lemma_code_number,
    lemma_complete_kraft, lemma_distance_lengths,
};
use crate::tables::{
    fixed_dist_lengths, fixed_litlen_lengths, law_length_found, lemma_fixed_complete, CLCL_ORDER,
    DIST_SYM_TO_DIST_BASE, DIST_SYM_TO_DIST_EXTRA, LENGTH_TO_LEN_EXTRA, LENGTH_TO_SYMBOL,
    LEN_SYM_TO_LEN_BASE, LEN_SYM_TO_LEN_EXTRA,
};
use vstd::arithmetic::power2::{lemma2_to64, lemma_pow2_pos, lemma_pow2_unfold, pow2};
use vstd::prelude::*;

verus! {

/// The number `v` as a field of `n` bits.
pub open spec fn field(v: nat, n: nat) -> Seq<bool>
    decreases n,
{
    if n == 0 {
        Seq::empty()
    } else {
        seq![v % 2 == 1] + field(v / 2, (n - 1) as nat)
    }
}

/// The number `v` spelled as a code word of `n` bits.
pub open spec fn spelled(v: nat, n: nat) -> Seq<bool>
    decreases n,
{
    if n == 0 {
        Seq::empty()
    } else {
        spelled(v / 2, (n - 1) as nat).push(v % 2 == 1)
    }
}

/// The code word of a symbol.
pub open spec fn code_word(lens: Seq<u8>, i: int) -> Seq<bool> {
    spelled(code_number(lens, i), lens[i] as nat)
}

/// The bytes that deliver the given bits.
pub open spec fn packed(bits: Seq<bool>) -> Seq<u8> {
    Seq::new(bits.len() / 8, |i: int| value(bits.subrange(8 * i, 8 * i + 8)) as u8)
}

/// A field is read as the number that was written.
pub proof fn lemma_field_value(v: nat, n: nat)
    requires
        v < pow2(n),
    ensures
        field(v, n).len() == n,
        value(field(v, n)) == v,
    decreases n,
{
    if n == 0 {
        lemma2_to64();
    } else {
        lemma_pow2_unfold(n);
        lemma_field_value(v / 2, (n - 1) as nat);
        assert(field(v, n).drop_first() =~= field(v / 2, (n - 1) as nat));
    }
}

proof fn lemma_spelled_value(v: nat, n: nat)
    requires
        v < pow2(n),
    ensures
        spelled(v, n).len() == n,
        code_value(spelled(v, n)) == v,
    decreases n,
{
    if n == 0 {
        lemma2_to64();
    } else {
        lemma_pow2_unfold(n);
        lemma_spelled_value(v / 2, (n - 1) as nat);
        assert(spelled(v, n).drop_last() =~= spelled(v / 2, (n - 1) as nat));
    }
}

/// A code word is decoded as its symbol.
pub proof fn lemma_code_word(lens: Seq<u8>, i: int, rest: Seq<bool>)
    requires
        0 <= i < lens.len(),
        lens[i] > 0,
        code_number(lens, i) < pow2(lens[i] as nat),
    ensures
        code_word(lens, i).len() == lens[i],
        decode_symbol(lens, code_word(lens, i) + rest) == Some(i),
        (code_word(lens, i) + rest).skip(lens[i] as int) == rest,
{
    lemma_code_number(lens, i);
    lemma_spelled_value(code_number(lens, i), lens[i] as nat);
    let w = code_word(lens, i);
    assert((w + rest).take(lens[i] as int) =~= w);
    lemma_decode_symbol(lens, w + rest, i);
    assert((w + rest).skip(lens[i] as int) =~= rest);
}

proof fn lemma_value_injective(a: Seq<bool>, b: Seq<bool>)
    requires
        a.len() == b.len(),
        value(a) == value(b),
    ensures
        a == b,
    decreases a.len(),
{
    if a.len() > 0 {
        lemma_value_injective(a.drop_first(), b.drop_first());
        assert(a =~= seq![a[0]] + a.drop_first());
        assert(b =~= seq![b[0]] + b.drop_first());
    } else {
        assert(a =~= b);
    }
}

/// The packed bytes deliver the bits that were packed.
pub proof fn lemma_packed(bits: Seq<bool>)
    requires
        bits.len() % 8 == 0,
    ensures
        byte_bits(packed(bits)) == bits,
{
    assert forall|k: int| 0 <= k < bits.len() implies #[trigger] byte_bits(packed(bits))[k]
        == bits[k] by {
        let i = k / 8;
        let sub = bits.subrange(8 * i, 8 * i + 8);
        lemma_value_bound(sub);
        lemma2_to64();
        let x = value(sub) as u64;
        lemma_byte_high(x);
        lemma_low_bits_value(x, 8);
        lemma_value_injective(low_bits(x, 8), sub);
        assert(low_bits(x, 8)[k % 8] == sub[k % 8]);
    }
    assert(byte_bits(packed(bits)) =~= bits);
}

/// The symbol of a length.
#[verifier::opaque]
pub open spec fn length_symbol(length: nat) -> int {
    LENGTH_TO_SYMBOL[length - 3] as int
}

/// The largest symbol up to `d` that stands for no distance beyond the given one.
pub open spec fn distance_symbol_upto(distance: nat, d: int) -> int
    decreases d,
{
    if d <= 0 || DIST_SYM_TO_DIST_BASE[d] <= distance {
        d
    } else {
        distance_symbol_upto(distance, d - 1)
    }
}

/// The symbol of a distance.
#[verifier::opaque]
pub open spec fn distance_symbol(distance: nat) -> int {
    distance_symbol_upto(distance, 29)
}

proof fn lemma_distance_upto(distance: nat, d: int)
    requires
        1 <= distance,
        0 <= d < 30,
        distance < DIST_SYM_TO_DIST_BASE[d] + pow2(DIST_SYM_TO_DIST_EXTRA[d] as nat),
    ensures
        ({
            let s = distance_symbol_upto(distance, d);
            &&& 0 <= s < 30
            &&& DIST_SYM_TO_DIST_BASE[s] <= distance < DIST_SYM_TO_DIST_BASE[s] + pow2(
                DIST_SYM_TO_DIST_EXTRA[s] as nat,
            )
        }),
    decreases d,
{
    lemma2_to64();
    if d > 0 && DIST_SYM_TO_DIST_BASE[d] > distance {
        assert(DIST_SYM_TO_DIST_BASE[d] == DIST_SYM_TO_DIST_BASE[d - 1] + pow2(
            DIST_SYM_TO_DIST_EXTRA[d - 1] as nat,
        ));
        lemma_distance_upto(distance, d - 1);
    }
}

/// Each distance has a symbol and extra bits that stand for it.
pub proof fn law_distance_found(distance: nat)
    requires
        1 <= distance <= 32768,
    ensures
        ({
            let s = distance_symbol(distance);
            &&& 0 <= s < 30
            &&& DIST_SYM_TO_DIST_BASE[s] <= distance < DIST_SYM_TO_DIST_BASE[s] + pow2(
                DIST_SYM_TO_DIST_EXTRA[s] as nat,
            )
        }),
{
    reveal(distance_symbol);
    lemma2_to64();
    lemma_distance_upto(distance, 29);
}

/// A length is its symbol and extra bits.
proof fn lemma_length_parts(length: nat)
    requires
        3 <= length <= 258,
    ensures
        ({
            let l = length_symbol(length) - 257;
            &&& 0 <= l < 29
            &&& LEN_SYM_TO_LEN_BASE[l] <= length < LEN_SYM_TO_LEN_BASE[l] + pow2(
                LEN_SYM_TO_LEN_EXTRA[l] as nat,
            )
        }),
{
    reveal(length_symbol);
    law_length_found(length as int);
}

/// Where the parts of a back reference stand.
proof fn lemma_match_layout(
    w1: Seq<bool>,
    f1: Seq<bool>,
    w2: Seq<bool>,
    f2: Seq<bool>,
    rest: Seq<bool>,
)
    ensures
        ({
            let b = w1 + (f1 + (w2 + f2)) + rest;
            let n = w1.len() as int;
            let m = n + f1.len();
            let k = w2.len() as int;
            let e = k + f2.len();
            &&& b == w1 + (f1 + (w2 + (f2 + rest)))
            &&& b.subrange(n, m) == f1
            &&& b.skip(m) == w2 + (f2 + rest)
            &&& b.skip(m).subrange(k, e) == f2
            &&& b.skip(m + e) == rest
            &&& b.len() == m + e + rest.len()
        }),
{
    let b = w1 + (f1 + (w2 + f2)) + rest;
    let n = w1.len() as int;
    let m = n + f1.len();
    let k = w2.len() as int;
    let e = k + f2.len();
    assert(b =~= w1 + (f1 + (w2 + (f2 + rest))));
    assert(b.subrange(n, m) =~= f1);
    assert(b.skip(m) =~= w2 + (f2 + rest));
    assert(b.skip(m).subrange(k, e) =~= f2);
    assert(b.skip(m + e) =~= rest);
}

/// A piece of compressed data.
pub enum Token {
    /// A byte as it is.
    Literal(u8),
    /// `length` bytes of the output from `distance` bytes back.
    Match { length: nat, distance: nat },
    /// 258 bytes of the output from `distance` bytes back, written as the last of the lengths from
    /// 227 on.
    Long { distance: nat },
}

/// The codes of a block are ones that the format allows: code words have up to 15 bits, those of
/// the literal/length code take up all bit sequences, and so do those of the distance code, unless
/// it has no more than one code word.
pub open spec fn valid_codes(litlen: Seq<u8>, dist: Seq<u8>) -> bool {
    &&& litlen.len() == 288
    &&& forall|i: int| 0 <= i < 288 ==> #[trigger] litlen[i] <= 15
    &&& kraft_sum(litlen) == 0x8000
    &&& dist.len() == 32
    &&& forall|i: int| 0 <= i < 32 ==> #[trigger] dist[i] <= 15
    &&& distance_lengths(dist)
}

/// Such codes are ones that the decoder accepts.
pub proof fn lemma_valid_codes(litlen: Seq<u8>, dist: Seq<u8>)
    requires
        valid_codes(litlen, dist),
    ensures
        valid_lengths(litlen),
        complete(litlen),
        valid_lengths(dist),
        valid_distance_code(dist),
{
    lemma_complete_kraft(litlen);
    lemma_distance_lengths(dist);
}

/// A token can be written in the given codes, when `n` bytes of output come before it.
pub open spec fn token_ok(litlen: Seq<u8>, dist: Seq<u8>, token: Token, n: nat) -> bool {
    match token {
        Token::Literal(byte) => litlen[byte as int] > 0,
        Token::Match { length, distance } => {
            &&& 3 <= length <= 258
            &&& 1 <= distance <= 32768
            &&& distance <= n
            &&& litlen[length_symbol(length)] > 0
            &&& dist[distance_symbol(distance)] > 0
        },
        Token::Long { distance } => {
            &&& 1 <= distance <= 32768
            &&& distance <= n
            &&& litlen[284] > 0
            &&& dist[distance_symbol(distance)] > 0
        },
    }
}

/// How the distance of a back reference is written.
pub open spec fn distance_bits(dist: Seq<u8>, distance: nat) -> Seq<bool> {
    let d = distance_symbol(distance);
    code_word(dist, d) + field(
        (distance - DIST_SYM_TO_DIST_BASE[d]) as nat,
        DIST_SYM_TO_DIST_EXTRA[d] as nat,
    )
}

/// How a token is written.
pub open spec fn token_bits(litlen: Seq<u8>, dist: Seq<u8>, token: Token) -> Seq<bool> {
    match token {
        Token::Literal(byte) => code_word(litlen, byte as int),
        Token::Match { length, distance } => {
            let l = length_symbol(length);
            code_word(litlen, l) + (field(
                (length - LEN_SYM_TO_LEN_BASE[l - 257]) as nat,
                LEN_SYM_TO_LEN_EXTRA[l - 257] as nat,
            ) + distance_bits(dist, distance))
        },
        Token::Long { distance } => code_word(litlen, 284) + (field(31, 5) + distance_bits(
            dist,
            distance,
        )),
    }
}

/// What a token stands for after the output `out`.
pub open spec fn token_bytes(token: Token, out: Seq<u8>) -> Seq<u8> {
    match token {
        Token::Literal(byte) => seq![byte],
        Token::Match { length, distance } => copied_on(out, distance as int, length).skip(
            out.len() as int,
        ),
        Token::Long { distance } => copied_on(out, distance as int, 258).skip(out.len() as int),
    }
}

/// The code words of a distance code fit in their lengths.
pub proof fn lemma_dist_code_fits(dist: Seq<u8>, i: int)
    requires
        valid_lengths(dist),
        valid_distance_code(dist),
        0 <= i < dist.len(),
        dist[i] > 0,
    ensures
        code_number(dist, i) < pow2(dist[i] as nat),
{
    lemma_code_number(dist, i);
    if complete(dist) {
        lemma_code_fits(dist, i);
    } else {
        lemma_single_code(dist, i, dist.len() as int);
        lemma_pow2_pos(dist[i] as nat);
    }
}

/// A back reference with the given length symbol and extra bits is read back.
#[verifier::spinoff_prover]
#[verifier::rlimit(60)]
proof fn lemma_match_read(
    c: Config,
    last: bool,
    litlen: Seq<u8>,
    dist: Seq<u8>,
    l: int,
    extra: nat,
    distance: nat,
    rest: Seq<bool>,
)
    requires
        c.phase == (Phase::Compressed { last, litlen, dist }),
        valid_codes(litlen, dist),
        0 <= l < 29,
        extra < pow2(LEN_SYM_TO_LEN_EXTRA[l] as nat),
        litlen[l + 257] > 0,
        1 <= distance <= 32768,
        distance <= c.out.len(),
        dist[distance_symbol(distance)] > 0,
        c.bits == code_word(litlen, l + 257) + (field(extra, LEN_SYM_TO_LEN_EXTRA[l] as nat)
            + distance_bits(dist, distance)) + rest,
        rest.len() >= 28,
    ensures
        step(c) == Step::Next(
            emit(
                Config { bits: rest, ..c },
                copied(c.out, distance as int, LEN_SYM_TO_LEN_BASE[l] as nat + extra),
            ),
        ),
{
    reveal(compressed_step);
    lemma_valid_codes(litlen, dist);
    let d = distance_symbol(distance);
    law_distance_found(distance);
    let distance_field = (distance - DIST_SYM_TO_DIST_BASE[d]) as nat;
    let f1 = field(extra, LEN_SYM_TO_LEN_EXTRA[l] as nat);
    let f2 = field(distance_field, DIST_SYM_TO_DIST_EXTRA[d] as nat);
    lemma_field_value(extra, LEN_SYM_TO_LEN_EXTRA[l] as nat);
    lemma_field_value(distance_field, DIST_SYM_TO_DIST_EXTRA[d] as nat);
    let w1 = code_word(litlen, l + 257);
    let w2 = code_word(dist, d);
    lemma_litlen_code_fits(litlen, l + 257);
    lemma_dist_code_fits(dist, d);
    lemma_code_word(litlen, l + 257, f1 + (w2 + (f2 + rest)));
    lemma_code_word(dist, d, f2 + rest);
    lemma_match_layout(w1, f1, w2, f2, rest);
}

/// The code words of a complete code fit in their lengths.
pub proof fn lemma_litlen_code_fits(lens: Seq<u8>, i: int)
    requires
        valid_lengths(lens),
        complete(lens),
        0 <= i < lens.len(),
        lens[i] > 0,
    ensures
        code_number(lens, i) < pow2(lens[i] as nat),
{
    lemma_code_number(lens, i);
    lemma_code_fits(lens, i);
}

/// A token is read back: decoding one that comes next takes its bits and appends its bytes.
#[verifier::spinoff_prover]
#[verifier::rlimit(60)]
pub proof fn law_token_read(
    c: Config,
    last: bool,
    litlen: Seq<u8>,
    dist: Seq<u8>,
    token: Token,
    rest: Seq<bool>,
)
    requires
        c.phase == (Phase::Compressed { last, litlen, dist }),
        valid_codes(litlen, dist),
        token_ok(litlen, dist, token, c.out.len()),
        c.bits == token_bits(litlen, dist, token) + rest,
        rest.len() >= 28,
    ensures
        step(c) == Step::Next(emit(Config { bits: rest, ..c }, token_bytes(token, c.out))),
{
    lemma_valid_codes(litlen, dist);
    match token {
        Token::Literal(byte) => {
            reveal(compressed_step);
            lemma_litlen_code_fits(litlen, byte as int);
            lemma_code_word(litlen, byte as int, rest);
        },
        Token::Match { length, distance } => {
            let l = length_symbol(length) - 257;
            lemma_length_parts(length);
            let extra = (length - LEN_SYM_TO_LEN_BASE[l]) as nat;
            lemma_match_read(c, last, litlen, dist, l, extra, distance, rest);
            lemma_copied_bytes(c.out, distance as int, length);
        },
        Token::Long { distance } => {
            lemma2_to64();
            lemma_match_read(c, last, litlen, dist, 27, 31, distance, rest);
            lemma_copied_bytes(c.out, distance as int, 258);
        },
    }
}

/// The bytes of a copy.
proof fn lemma_copied_bytes(out: Seq<u8>, distance: int, length: nat)
    requires
        1 <= distance <= out.len(),
    ensures
        copied_on(out, distance, length).skip(out.len() as int) == copied(out, distance, length),
{
    law_copy(out, distance, length);
    assert((out + copied(out, distance, length)).skip(out.len() as int) =~= copied(
        out,
        distance,
        length,
    ));
}

/// Every length is read back: the symbol and the extra bits that the tables give for a length from
/// 3 to 258, followed by those of a distance, decode to exactly that many bytes.
pub proof fn law_length_read(
    c: Config,
    last: bool,
    litlen: Seq<u8>,
    dist: Seq<u8>,
    length: nat,
    distance: nat,
    rest: Seq<bool>,
)
    requires
        c.phase == (Phase::Compressed { last, litlen, dist }),
        valid_codes(litlen, dist),
        3 <= length <= 258,
        1 <= distance <= 32768,
        distance <= c.out.len(),
        litlen[LENGTH_TO_SYMBOL[length - 3] as int] > 0,
        dist[distance_symbol(distance)] > 0,
        ({
            let l = LENGTH_TO_SYMBOL[length - 3] as int;
            let d = distance_symbol(distance);
            c.bits == code_word(litlen, l) + (field(
                (length - LEN_SYM_TO_LEN_BASE[l - 257]) as nat,
                LENGTH_TO_LEN_EXTRA[length - 3] as nat,
            ) + (code_word(dist, d) + field(
                (distance - DIST_SYM_TO_DIST_BASE[d]) as nat,
                DIST_SYM_TO_DIST_EXTRA[d] as nat,
            ))) + rest
        }),
        rest.len() >= 28,
    ensures
        LENGTH_TO_LEN_EXTRA[length - 3] == LEN_SYM_TO_LEN_EXTRA[LENGTH_TO_SYMBOL[length - 3] - 257],
        step(c) == Step::Next(
            emit(Config { bits: rest, ..c }, copied(c.out, distance as int, length)),
        ),
        step(c) matches Step::Next(d) && {
            &&& d.bits == rest
            &&& d.out.len() == c.out.len() + length
            &&& d.out.take(c.out.len() as int) == c.out
            &&& forall|k: int|
                c.out.len() <= k < d.out.len() ==> #[trigger] d.out[k] == d.out[k - distance]
        },
{
    reveal(length_symbol);
    law_length_found(length as int);
    law_token_read(c, last, litlen, dist, Token::Match { length, distance }, rest);
    lemma_copied_bytes(c.out, distance as int, length);
    law_copy(c.out, distance as int, length);
}

/// How tokens are written.
pub open spec fn tokens_bits(litlen: Seq<u8>, dist: Seq<u8>, tokens: Seq<Token>) -> Seq<bool>
    decreases tokens.len(),
{
    if tokens.len() == 0 {
        Seq::empty()
    } else {
        token_bits(litlen, dist, tokens[0]) + tokens_bits(litlen, dist, tokens.drop_first())
    }
}

/// The output `out` and what the tokens append to it.
pub open spec fn tokens_out(tokens: Seq<Token>, out: Seq<u8>) -> Seq<u8>
    decreases tokens.len(),
{
    if tokens.len() == 0 {
        out
    } else {
        tokens_out(tokens.drop_first(), out + token_bytes(tokens[0], out))
    }
}

/// The tokens can be written in the given codes after the output `out`.
pub open spec fn tokens_ok(
    litlen: Seq<u8>,
    dist: Seq<u8>,
    tokens: Seq<Token>,
    out: Seq<u8>,
) -> bool
    decreases tokens.len(),
{
    tokens.len() == 0 || {
        &&& token_ok(litlen, dist, tokens[0], out.len())
        &&& tokens_ok(litlen, dist, tokens.drop_first(), out + token_bytes(tokens[0], out))
    }
}

/// Decoding tokens that come next.
proof fn lemma_tokens_reach(
    c: Config,
    last: bool,
    litlen: Seq<u8>,
    dist: Seq<u8>,
    tokens: Seq<Token>,
    rest: Seq<bool>,
) -> (d: Config)
    requires
        c.phase == (Phase::Compressed { last, litlen, dist }),
        valid_codes(litlen, dist),
        tokens_ok(litlen, dist, tokens, c.out),
        c.bits == tokens_bits(litlen, dist, tokens) + rest,
        rest.len() >= 28,
    ensures
        reaches(c, d),
        d.phase == c.phase,
        d.bits == rest,
        d.out == tokens_out(tokens, c.out),
    decreases tokens.len(),
{
    lemma_reaches_self(c);
    if tokens.len() == 0 {
        assert(c.bits =~= rest);
        c
    } else {
        let more = tokens_bits(litlen, dist, tokens.drop_first()) + rest;
        assert(c.bits =~= token_bits(litlen, dist, tokens[0]) + more);
        law_token_read(c, last, litlen, dist, tokens[0], more);
        let e = emit(Config { bits: more, ..c }, token_bytes(tokens[0], c.out));
        lemma_reaches_step(c, c, e);
        let d = lemma_tokens_reach(e, last, litlen, dist, tokens.drop_first(), rest);
        lemma_reaches_trans(c, e, d);
        d
    }
}

/// The data of a block: tokens and the end of the block.
pub open spec fn data_bits(litlen: Seq<u8>, dist: Seq<u8>, tokens: Seq<Token>) -> Seq<bool> {
    tokens_bits(litlen, dist, tokens) + code_word(litlen, 256)
}

/// Decoding the data of a block.
proof fn lemma_data_reach(
    c: Config,
    last: bool,
    litlen: Seq<u8>,
    dist: Seq<u8>,
    tokens: Seq<Token>,
    rest: Seq<bool>,
) -> (d: Config)
    requires
        c.phase == (Phase::Compressed { last, litlen, dist }),
        valid_codes(litlen, dist),
        litlen[256] > 0,
        tokens_ok(litlen, dist, tokens, c.out),
        c.bits == data_bits(litlen, dist, tokens) + rest,
        rest.len() >= 32,
    ensures
        reaches(c, d),
        d.phase == after_block(last),
        d.bits == rest,
        d.out == tokens_out(tokens, c.out),
{
    reveal(compressed_step);
    lemma_valid_codes(litlen, dist);
    let more = code_word(litlen, 256) + rest;
    assert(c.bits =~= tokens_bits(litlen, dist, tokens) + more);
    let e = lemma_tokens_reach(c, last, litlen, dist, tokens, more);
    lemma_litlen_code_fits(litlen, 256);
    lemma_code_word(litlen, 256, rest);
    let d = Config { phase: after_block(last), bits: rest, ..e };
    lemma_reaches_step(c, e, d);
    d
}

/// A piece of the code lengths in the header of a block.
pub enum LengthItem {
    /// A length.
    Length(u8),
    /// The length before it again, 3 to 6 times.
    Repeat(nat),
    /// 3 to 138 zeros.
    Zeros(nat),
}

/// The symbol of a piece of the code lengths.
pub open spec fn item_symbol(item: LengthItem) -> int {
    match item {
        LengthItem::Length(length) => length as int,
        LengthItem::Repeat(_) => 16,
        LengthItem::Zeros(count) => if count <= 10 {
            17
        } else {
            18
        },
    }
}

/// A piece of the code lengths can be written in the code with lengths `clcl`, after `n` lengths.
pub open spec fn item_ok(clcl: Seq<u8>, item: LengthItem, n: nat) -> bool {
    &&& match item {
        LengthItem::Length(length) => length <= 15,
        LengthItem::Repeat(count) => 3 <= count <= 6 && n > 0,
        LengthItem::Zeros(count) => 3 <= count <= 138,
    }
    &&& clcl[item_symbol(item)] > 0
}

/// The extra bits of a piece of the code lengths.
pub open spec fn item_extra(item: LengthItem) -> Seq<bool> {
    match item {
        LengthItem::Length(_) => Seq::empty(),
        LengthItem::Repeat(count) => field((count - 3) as nat, 2),
        LengthItem::Zeros(count) => if count <= 10 {
            field((count - 3) as nat, 3)
        } else {
            field((count - 11) as nat, 7)
        },
    }
}

/// How a piece of the code lengths is written.
pub open spec fn item_bits(clcl: Seq<u8>, item: LengthItem) -> Seq<bool> {
    code_word(clcl, item_symbol(item)) + item_extra(item)
}

/// The code lengths that a piece of them stands for, after `lens`.
pub open spec fn item_lens(item: LengthItem, lens: Seq<u8>) -> Seq<u8> {
    match item {
        LengthItem::Length(length) => seq![length],
        LengthItem::Repeat(count) => Seq::new(count, |i: int| lens.last()),
        LengthItem::Zeros(count) => Seq::new(count, |i: int| 0u8),
    }
}

/// The code lengths `lens` and what the pieces append to them.
pub open spec fn items_lens(items: Seq<LengthItem>, lens: Seq<u8>) -> Seq<u8>
    decreases items.len(),
{
    if items.len() == 0 {
        lens
    } else {
        items_lens(items.drop_first(), lens + item_lens(items[0], lens))
    }
}

/// How the code lengths are written.
pub open spec fn items_bits(clcl: Seq<u8>, items: Seq<LengthItem>) -> Seq<bool>
    decreases items.len(),
{
    if items.len() == 0 {
        Seq::empty()
    } else {
        item_bits(clcl, items[0]) + items_bits(clcl, items.drop_first())
    }
}

/// The pieces can be written in the code with lengths `clcl` after `lens`.
pub open spec fn items_ok(clcl: Seq<u8>, items: Seq<LengthItem>, lens: Seq<u8>) -> bool
    decreases items.len(),
{
    items.len() == 0 || {
        &&& item_ok(clcl, items[0], lens.len())
        &&& items_ok(clcl, items.drop_first(), lens + item_lens(items[0], lens))
    }
}

/// The lengths of a code length code are ones that the format allows: its code words take up all
/// bit sequences.
pub open spec fn valid_clcl_code(clcl: Seq<u8>) -> bool {
    &&& clcl.len() == 19
    &&& forall|i: int| 0 <= i < 19 ==> #[trigger] clcl[i] <= 15
    &&& kraft_sum(clcl) == 0x8000
}

proof fn lemma_items_grow(items: Seq<LengthItem>, lens: Seq<u8>)
    ensures
        items_lens(items, lens).len() >= lens.len(),
    decreases items.len(),
{
    if items.len() > 0 {
        lemma_items_grow(items.drop_first(), lens + item_lens(items[0], lens));
    }
}

/// Decoding a piece of the code lengths that comes next.
#[verifier::rlimit(40)]
proof fn lemma_item_step(
    c: Config,
    last: bool,
    hlit: nat,
    hdist: nat,
    clcl: Seq<u8>,
    lens: Seq<u8>,
    item: LengthItem,
    rest: Seq<bool>,
)
    requires
        c.phase == (Phase::CodeLengths { last, hlit, hdist, clcl, lens }),
        valid_clcl_code(clcl),
        item_ok(clcl, item, lens.len()),
        lens.len() + item_lens(item, lens).len() <= hlit + hdist,
        c.bits == item_bits(clcl, item) + rest,
        rest.len() >= 7,
    ensures
        step(c) == Step::Next(
            Config {
                phase: Phase::CodeLengths {
                    last,
                    hlit,
                    hdist,
                    clcl,
                    lens: lens + item_lens(item, lens),
                },
                bits: rest,
                ..c
            },
        ),
{
    reveal(code_lengths_step);
    let symbol = item_symbol(item);
    let n = clcl[symbol] as int;
    let w = code_word(clcl, symbol);
    let f = item_extra(item);
    lemma_complete_kraft(clcl);
    lemma_litlen_code_fits(clcl, symbol);
    lemma_code_word(clcl, symbol, f + rest);
    assert(c.bits =~= w + (f + rest));
    match item {
        LengthItem::Length(length) => {
            assert(f + rest =~= rest);
            assert(lens.push(length) =~= lens + item_lens(item, lens));
        },
        LengthItem::Repeat(count) | LengthItem::Zeros(count) => {
            let extra = repeat_extra(symbol) as nat;
            lemma2_to64();
            lemma_field_value((count - repeat_base(symbol)) as nat, extra);
            let m = n + extra;
            assert(c.bits.subrange(n, m) =~= f);
            assert(c.bits.skip(m) =~= rest);
            let length = if symbol == 16 {
                lens.last()
            } else {
                0u8
            };
            assert(lens + Seq::new(count, |i: int| length) =~= lens + item_lens(item, lens));
        },
    }
}

/// Decoding the code lengths.
proof fn lemma_items_reach(
    c: Config,
    last: bool,
    hlit: nat,
    hdist: nat,
    clcl: Seq<u8>,
    lens: Seq<u8>,
    items: Seq<LengthItem>,
    rest: Seq<bool>,
) -> (d: Config)
    requires
        c.phase == (Phase::CodeLengths { last, hlit, hdist, clcl, lens }),
        valid_clcl_code(clcl),
        items_ok(clcl, items, lens),
        items_lens(items, lens).len() == hlit + hdist,
        c.bits == items_bits(clcl, items) + rest,
        rest.len() >= 7,
    ensures
        reaches(c, d),
        d == (Config {
            phase: Phase::CodeLengths { last, hlit, hdist, clcl, lens: items_lens(items, lens) },
            bits: rest,
            ..c
        }),
    decreases items.len(),
{
    lemma_reaches_self(c);
    if items.len() == 0 {
        assert(c.bits =~= rest);
        c
    } else {
        let more = items_bits(clcl, items.drop_first()) + rest;
        let next = lens + item_lens(items[0], lens);
        assert(c.bits =~= item_bits(clcl, items[0]) + more);
        lemma_items_grow(items.drop_first(), next);
        lemma_item_step(c, last, hlit, hdist, clcl, lens, items[0], more);
        let e = Config {
            phase: Phase::CodeLengths { last, hlit, hdist, clcl, lens: next },
            bits: more,
            ..c
        };
        lemma_reaches_step(c, c, e);
        let d = lemma_items_reach(e, last, hlit, hdist, clcl, next, items.drop_first(), rest);
        lemma_reaches_trans(c, e, d);
        d
    }
}

/// The header of a block with its own codes.
pub struct CodeHeader {
    /// The number of literal/length symbols.
    pub hlit: nat,
    /// The number of distance symbols.
    pub hdist: nat,
    /// How many lengths of the code length code are written.
    pub hclen: nat,
    /// The lengths of the code length code.
    pub clcl: Seq<u8>,
    /// The code lengths.
    pub items: Seq<LengthItem>,
}

/// The literal/length code lengths of a header.
pub open spec fn header_litlen(header: CodeHeader) -> Seq<u8> {
    items_lens(header.items, Seq::empty()).take(header.hlit as int) + Seq::new(
        (288 - header.hlit) as nat,
        |i: int| 0u8,
    )
}

/// The distance code lengths of a header.
pub open spec fn header_dist(header: CodeHeader) -> Seq<u8> {
    items_lens(header.items, Seq::empty()).skip(header.hlit as int) + Seq::new(
        (32 - header.hdist) as nat,
        |i: int| 0u8,
    )
}

/// The header is one that the format allows.
pub open spec fn header_ok(header: CodeHeader) -> bool {
    &&& 257 <= header.hlit <= 286
    &&& 1 <= header.hdist <= 30
    &&& 4 <= header.hclen <= 19
    &&& valid_clcl_code(header.clcl)
    &&& forall|i: int| 0 <= i < 19 ==> #[trigger] header.clcl[i] <= 7
    &&& forall|k: int|
        header.hclen <= k < 19 ==> header.clcl[#[trigger] CLCL_ORDER[k] as int] == 0
    &&& items_ok(header.clcl, header.items, Seq::empty())
    &&& items_lens(header.items, Seq::empty()).len() == header.hlit + header.hdist
    &&& valid_codes(header_litlen(header), header_dist(header))
    &&& header_litlen(header)[256] > 0
}

/// How the first `n` lengths of the code length code are written.
pub open spec fn clcl_bits(clcl: Seq<u8>, n: int) -> Seq<bool>
    decreases n,
{
    if n <= 0 {
        Seq::empty()
    } else {
        clcl_bits(clcl, n - 1) + field(clcl[CLCL_ORDER[n - 1] as int] as nat, 3)
    }
}

/// How a header is written, from the numbers of symbols on.
pub open spec fn header_bits(header: CodeHeader) -> Seq<bool> {
    field((header.hlit - 257) as nat, 5) + field((header.hdist - 1) as nat, 5) + field(
        (header.hclen - 4) as nat,
        4,
    ) + clcl_bits(header.clcl, header.hclen as int) + items_bits(header.clcl, header.items)
}

/// Each symbol of the code length code has one place in the order.
pub proof fn lemma_order(j: int, k: int)
    requires
        0 <= j < 19,
        0 <= k < 19,
    ensures
        CLCL_ORDER[j] < 19,
        CLCL_ORDER[j] == CLCL_ORDER[k] ==> j == k,
{
}

/// Each symbol of the code length code has a place in the order.
pub proof fn lemma_order_place(i: int) -> (k: int)
    requires
        0 <= i < 19,
    ensures
        0 <= k < 19,
        CLCL_ORDER[k] == i,
{
    if i == 0 {
        3
    } else if i >= 16 {
        i - 16
    } else if i < 8 {
        19 - 2 * i
    } else {
        2 * i - 12
    }
}

pub proof fn lemma_clcl_read(clcl: Seq<u8>, n: int, rest: Seq<bool>)
    requires
        clcl.len() == 19,
        forall|i: int| 0 <= i < 19 ==> #[trigger] clcl[i] <= 7,
        0 <= n <= 19,
    ensures
        clcl_bits(clcl, n).len() == 3 * n,
        clcl_lengths(clcl_bits(clcl, n) + rest, n).len() == 19,
        forall|k: int|
            0 <= k < 19 ==> clcl_lengths(clcl_bits(clcl, n) + rest, n)[#[trigger] CLCL_ORDER[k] as int]
                == if k < n {
                clcl[CLCL_ORDER[k] as int]
            } else {
                0
            },
    decreases n,
{
    if n > 0 {
        let f = field(clcl[CLCL_ORDER[n - 1] as int] as nat, 3);
        lemma_order(n - 1, n - 1);
        lemma2_to64();
        lemma_field_value(clcl[CLCL_ORDER[n - 1] as int] as nat, 3);
        lemma_clcl_read(clcl, n - 1, f + rest);
        let b = clcl_bits(clcl, n) + rest;
        assert(b =~= clcl_bits(clcl, n - 1) + (f + rest));
        assert(b.subrange(3 * (n - 1), 3 * n) =~= f);
        let before = clcl_lengths(b, n - 1);
        assert forall|k: int| 0 <= k < 19 implies clcl_lengths(b, n)[#[trigger] CLCL_ORDER[k] as int]
            == if k < n {
            clcl[CLCL_ORDER[k] as int]
        } else {
            0
        } by {
            lemma_order(k, n - 1);
        }
    }
}

/// Decoding the header of a block with its own codes.
#[verifier::rlimit(40)]
proof fn lemma_header_reach(
    c: Config,
    last: bool,
    header: CodeHeader,
    rest: Seq<bool>,
) -> (d: Config)
    requires
        c.phase is BlockHeader,
        header_ok(header),
        c.bits == seq![last] + field(2, 2) + header_bits(header) + rest,
        rest.len() >= 7,
    ensures
        reaches(c, d),
        d == (Config {
            phase: Phase::Compressed {
                last,
                litlen: header_litlen(header),
                dist: header_dist(header),
            },
            bits: rest,
            ..c
        }),
{
    let f0 = field(2, 2);
    let f1 = field((header.hlit - 257) as nat, 5);
    let f2 = field((header.hdist - 1) as nat, 5);
    let f3 = field((header.hclen - 4) as nat, 4);
    let hclen = header.hclen as int;
    let w = clcl_bits(header.clcl, hclen);
    let items = items_bits(header.clcl, header.items);
    lemma2_to64();
    lemma_field_value(2, 2);
    lemma_field_value((header.hlit - 257) as nat, 5);
    lemma_field_value((header.hdist - 1) as nat, 5);
    lemma_field_value((header.hclen - 4) as nat, 4);
    lemma_clcl_read(header.clcl, hclen, items + rest);
    let b = c.bits;
    assert(b.subrange(1, 3) =~= f0);
    assert(b.subrange(3, 8) =~= f1);
    assert(b.subrange(8, 13) =~= f2);
    assert(b.subrange(13, 17) =~= f3);
    assert(b.skip(17) =~= w + (items + rest));
    assert(b.skip(17 + 3 * hclen) =~= items + rest);
    let clcl = clcl_lengths(b.skip(17), hclen);
    assert forall|i: int| 0 <= i < 19 implies clcl[i] == header.clcl[i] by {
        let k = lemma_order_place(i);
        assert(clcl[CLCL_ORDER[k] as int] == clcl[i]);
    }
    assert(clcl =~= header.clcl);
    lemma_complete_kraft(clcl);
    let hlit = header.hlit;
    let hdist = header.hdist;
    let none = Seq::<u8>::empty();
    let e = Config {
        phase: Phase::CodeLengths { last, hlit, hdist, clcl, lens: none },
        bits: items + rest,
        ..c
    };
    assert(step(c) == Step::Next(e)) by {
        reveal(block_header_step);
    }
    lemma_reaches_self(c);
    lemma_reaches_step(c, c, e);
    let f = lemma_items_reach(e, last, hlit, hdist, clcl, none, header.items, rest);
    lemma_reaches_trans(c, e, f);
    let d = Config {
        phase: Phase::Compressed {
            last,
            litlen: header_litlen(header),
            dist: header_dist(header),
        },
        bits: rest,
        ..c
    };
    let lens = items_lens(header.items, none);
    assert(padded(lens.take(hlit as int), 288) =~= header_litlen(header));
    assert(padded(lens.skip(hlit as int), 32) =~= header_dist(header));
    lemma_valid_codes(header_litlen(header), header_dist(header));
    assert(step(f) == Step::Next(d)) by {
        reveal(code_lengths_step);
    }
    lemma_reaches_step(c, f, d);
    d
}

/// A block.
pub enum Block {
    /// Bytes as they are. The bits up to the byte boundary before them are those of the second
    /// sequence.
    Stored(Seq<u8>, Seq<bool>),
    /// Tokens in the fixed codes.
    Fixed(Seq<Token>),
    /// Tokens in codes of its own.
    Dynamic(CodeHeader, Seq<Token>),
}

/// The first `n` of the bits of `pad`, with zero bits added where there are fewer.
pub open spec fn pad_bits(pad: Seq<bool>, n: nat) -> Seq<bool> {
    Seq::new(n, |i: int| i < pad.len() && pad[i])
}

/// How many bits there are from bit `position` of a stream to the next byte boundary.
pub open spec fn padding(position: nat) -> nat {
    ((8 - position % 8) % 8) as nat
}

/// A block can be written after the output `out`.
pub open spec fn block_ok(block: Block, out: Seq<u8>) -> bool {
    match block {
        Block::Stored(data, _) => data.len() <= 0xffff,
        Block::Fixed(tokens) => tokens_ok(
            fixed_litlen_lengths(),
            fixed_dist_lengths(),
            tokens,
            out,
        ),
        Block::Dynamic(header, tokens) => header_ok(header) && tokens_ok(
            header_litlen(header),
            header_dist(header),
            tokens,
            out,
        ),
    }
}

/// How a block is written from bit `position` of a stream on.
#[verifier::opaque]
pub open spec fn block_bits(block: Block, last: bool, position: nat) -> Seq<bool> {
    match block {
        Block::Stored(data, pad) => seq![last] + field(0, 2) + pad_bits(
            pad,
            padding(position + 3),
        ) + field(data.len(), 16) + field((0xffff - data.len()) as nat, 16) + byte_bits(data),
        Block::Fixed(tokens) => seq![last] + field(1, 2) + data_bits(
            fixed_litlen_lengths(),
            fixed_dist_lengths(),
            tokens,
        ),
        Block::Dynamic(header, tokens) => seq![last] + field(2, 2) + header_bits(header)
            + data_bits(header_litlen(header), header_dist(header), tokens),
    }
}

/// The output `out` and what a block appends to it.
pub open spec fn block_out(block: Block, out: Seq<u8>) -> Seq<u8> {
    match block {
        Block::Stored(data, _) => out + data,
        Block::Fixed(tokens) => tokens_out(tokens, out),
        Block::Dynamic(header, tokens) => tokens_out(tokens, out),
    }
}

/// Decoding the bytes of a stored block.
proof fn lemma_stored_reach(c: Config, last: bool, data: Seq<u8>, rest: Seq<bool>) -> (d: Config)
    requires
        c.phase == (Phase::Stored { last, left: data.len() }),
        c.bits == byte_bits(data) + rest,
    ensures
        reaches(c, d),
        d.phase == after_block(last),
        d.bits == rest,
        d.out == c.out + data,
    decreases data.len(),
{
    lemma_reaches_self(c);
    if data.len() == 0 {
        let d = Config { phase: after_block(last), ..c };
        lemma_reaches_step(c, c, d);
        assert(c.bits =~= rest);
        assert(c.out + data =~= c.out);
        d
    } else {
        let left = data.skip(1);
        lemma_first_byte(data);
        assert(c.bits.take(8) =~= byte_bits(data).take(8));
        assert(c.bits.skip(8) =~= byte_bits(data).skip(8) + rest);
        let e = emit(advance(c, Phase::Stored { last, left: left.len() }, 8), seq![data[0]]);
        lemma_reaches_step(c, c, e);
        let d = lemma_stored_reach(e, last, left, rest);
        lemma_reaches_trans(c, e, d);
        assert(c.out + seq![data[0]] + left =~= c.out + data);
        d
    }
}

/// The header of a stored block is a step.
#[verifier::spinoff_prover]
#[verifier::rlimit(60)]
proof fn lemma_stored_header(
    c: Config,
    data: Seq<u8>,
    bits: Seq<bool>,
    last: bool,
    position: nat,
    rest: Seq<bool>,
) -> (d: Config)
    requires
        c.phase is BlockHeader,
        data.len() <= 0xffff,
        c.bits == block_bits(Block::Stored(data, bits), last, position) + rest,
        (position + c.bits.len()) % 8 == 0,
    ensures
        step(c) == Step::Next(d),
        d.phase == (Phase::Stored { last, left: data.len() }),
        d.bits == byte_bits(data) + rest,
        d.out == c.out,
{
    reveal(block_bits);
    let b = c.bits;
    let pad = padding(position + 3) as int;
    let f0 = field(0, 2);
    let f1 = field(data.len(), 16);
    let f2 = field((0xffff - data.len()) as nat, 16);
    lemma2_to64();
    lemma_field_value(0, 2);
    lemma_field_value(data.len(), 16);
    lemma_field_value((0xffff - data.len()) as nat, 16);
    assert((b.len() - 3) % 8 == pad);
    assert(b.subrange(1, 3) =~= f0);
    assert(b.subrange(3 + pad, 19 + pad) =~= f1);
    assert(b.subrange(19 + pad, 35 + pad) =~= f2);
    assert(b.skip(35 + pad) =~= byte_bits(data) + rest);
    reveal(block_header_step);
    advance(c, Phase::Stored { last, left: data.len() }, 35 + pad)
}

/// Decoding a stored block.
proof fn lemma_stored_block_reach(
    c: Config,
    data: Seq<u8>,
    bits: Seq<bool>,
    last: bool,
    position: nat,
    rest: Seq<bool>,
) -> (d: Config)
    requires
        c.phase is BlockHeader,
        data.len() <= 0xffff,
        c.bits == block_bits(Block::Stored(data, bits), last, position) + rest,
        (position + c.bits.len()) % 8 == 0,
    ensures
        reaches(c, d),
        d.phase == after_block(last),
        d.bits == rest,
        d.out == c.out + data,
{
    let e = lemma_stored_header(c, data, bits, last, position, rest);
    lemma_reaches_self(c);
    lemma_reaches_step(c, c, e);
    let d = lemma_stored_reach(e, last, data, rest);
    lemma_reaches_trans(c, e, d);
    d
}

/// Decoding a block in the fixed codes.
#[verifier::rlimit(40)]
proof fn lemma_fixed_block_reach(
    c: Config,
    tokens: Seq<Token>,
    last: bool,
    position: nat,
    rest: Seq<bool>,
) -> (d: Config)
    requires
        c.phase is BlockHeader,
        block_ok(Block::Fixed(tokens), c.out),
        c.bits == block_bits(Block::Fixed(tokens), last, position) + rest,
        rest.len() >= 32,
    ensures
        reaches(c, d),
        d.phase == after_block(last),
        d.bits == rest,
        d.out == tokens_out(tokens, c.out),
{
    reveal(block_bits);
    let b = c.bits;
    let litlen = fixed_litlen_lengths();
    let dist = fixed_dist_lengths();
    let data = data_bits(litlen, dist, tokens);
    lemma_fixed_complete();
    lemma_complete_kraft(litlen);
    lemma_distance_lengths(dist);
    lemma2_to64();
    lemma_field_value(1, 2);
    assert(b.subrange(1, 3) =~= field(1, 2));
    assert(b.skip(3) =~= data + rest);
    let e = advance(c, Phase::Compressed { last, litlen, dist }, 3);
    assert(step(c) == Step::Next(e)) by {
        reveal(block_header_step);
    }
    lemma_reaches_self(c);
    lemma_reaches_step(c, c, e);
    let d = lemma_data_reach(e, last, litlen, dist, tokens, rest);
    lemma_reaches_trans(c, e, d);
    d
}

/// Decoding a block in codes of its own.
#[verifier::rlimit(40)]
proof fn lemma_dynamic_block_reach(
    c: Config,
    header: CodeHeader,
    tokens: Seq<Token>,
    last: bool,
    position: nat,
    rest: Seq<bool>,
) -> (d: Config)
    requires
        c.phase is BlockHeader,
        block_ok(Block::Dynamic(header, tokens), c.out),
        c.bits == block_bits(Block::Dynamic(header, tokens), last, position) + rest,
        rest.len() >= 32,
    ensures
        reaches(c, d),
        d.phase == after_block(last),
        d.bits == rest,
        d.out == tokens_out(tokens, c.out),
{
    reveal(block_bits);
    let litlen = header_litlen(header);
    let dist = header_dist(header);
    let data = data_bits(litlen, dist, tokens);
    assert(c.bits =~= seq![last] + field(2, 2) + header_bits(header) + (data + rest));
    let e = lemma_header_reach(c, last, header, data + rest);
    let d = lemma_data_reach(e, last, litlen, dist, tokens, rest);
    lemma_reaches_trans(c, e, d);
    d
}

/// Decoding a block.
proof fn lemma_block_reach(
    c: Config,
    block: Block,
    last: bool,
    position: nat,
    rest: Seq<bool>,
) -> (d: Config)
    requires
        c.phase is BlockHeader,
        block_ok(block, c.out),
        c.bits == block_bits(block, last, position) + rest,
        rest.len() >= 32,
        (position + c.bits.len()) % 8 == 0,
    ensures
        reaches(c, d),
        d.phase == after_block(last),
        d.bits == rest,
        d.out == block_out(block, c.out),
{
    match block {
        Block::Stored(data, bits) => lemma_stored_block_reach(
            c,
            data,
            bits,
            last,
            position,
            rest,
        ),
        Block::Fixed(tokens) => lemma_fixed_block_reach(c, tokens, last, position, rest),
        Block::Dynamic(header, tokens) => lemma_dynamic_block_reach(
            c,
            header,
            tokens,
            last,
            position,
            rest,
        ),
    }
}

/// How blocks are written from bit `position` of a stream on.
pub open spec fn blocks_bits(blocks: Seq<Block>, position: nat) -> Seq<bool>
    decreases blocks.len(),
{
    if blocks.len() == 0 {
        Seq::empty()
    } else {
        let first = block_bits(blocks[0], blocks.len() == 1, position);
        first + blocks_bits(blocks.drop_first(), position + first.len())
    }
}

/// The output `out` and what the blocks append to it.
pub open spec fn blocks_out(blocks: Seq<Block>, out: Seq<u8>) -> Seq<u8>
    decreases blocks.len(),
{
    if blocks.len() == 0 {
        out
    } else {
        blocks_out(blocks.drop_first(), block_out(blocks[0], out))
    }
}

/// The blocks can be written after the output `out`.
pub open spec fn blocks_ok(blocks: Seq<Block>, out: Seq<u8>) -> bool
    decreases blocks.len(),
{
    blocks.len() == 0 || {
        &&& block_ok(blocks[0], out)
        &&& blocks_ok(blocks.drop_first(), block_out(blocks[0], out))
    }
}

/// Decoding blocks.
#[verifier::rlimit(40)]
proof fn lemma_blocks_reach(
    c: Config,
    blocks: Seq<Block>,
    position: nat,
    rest: Seq<bool>,
) -> (d: Config)
    requires
        c.phase is BlockHeader,
        blocks.len() > 0,
        blocks_ok(blocks, c.out),
        c.bits == blocks_bits(blocks, position) + rest,
        rest.len() >= 32,
        (position + c.bits.len()) % 8 == 0,
    ensures
        reaches(c, d),
        d.phase is Checksum,
        d.bits == rest,
        d.out == blocks_out(blocks, c.out),
    decreases blocks.len(),
{
    let last = blocks.len() == 1;
    let others = blocks.drop_first();
    let first = block_bits(blocks[0], last, position);
    let more = blocks_bits(others, position + first.len()) + rest;
    assert(c.bits =~= first + more);
    let e = lemma_block_reach(c, blocks[0], last, position, more);
    if last {
        assert(more =~= rest);
        assert(blocks_out(others, e.out) == e.out);
        e
    } else {
        let d = lemma_blocks_reach(e, others, position + first.len(), rest);
        lemma_reaches_trans(c, e, d);
        d
    }
}

/// How a checksum is written.
#[verifier::opaque]
pub open spec fn sum_bits(sum: u32) -> Seq<bool> {
    field((sum / 0x100_0000) as nat, 8) + field((sum / 0x1_0000 % 0x100) as nat, 8) + field(
        (sum / 0x100 % 0x100) as nat,
        8,
    ) + field((sum % 0x100) as nat, 8)
}

/// The bits of a zlib stream with the given blocks, from the blocks on. The bits up to the byte
/// boundary before the checksum are those of `pad`.
pub open spec fn body_bits(blocks: Seq<Block>, pad: Seq<bool>) -> Seq<bool> {
    let body = blocks_bits(blocks, 16);
    body + pad_bits(pad, padding(16 + body.len())) + sum_bits(
        adler32(blocks_out(blocks, Seq::empty())),
    )
}

/// The bits of a zlib stream with the given header and blocks.
pub open spec fn stream_bits(
    cmf: u8,
    flg: u8,
    blocks: Seq<Block>,
    pad: Seq<bool>,
) -> Seq<bool> {
    field(cmf as nat, 8) + field(flg as nat, 8) + body_bits(blocks, pad)
}

/// The zlib stream with the given header and blocks.
pub open spec fn encode(cmf: u8, flg: u8, blocks: Seq<Block>, pad: Seq<bool>) -> Seq<u8> {
    packed(stream_bits(cmf, flg, blocks, pad))
}

proof fn lemma_sum_len(sum: u32)
    ensures
        sum_bits(sum).len() == 32,
{
    reveal(sum_bits);
    lemma2_to64();
    lemma_field_value((sum / 0x100_0000) as nat, 8);
    lemma_field_value((sum / 0x1_0000 % 0x100) as nat, 8);
    lemma_field_value((sum / 0x100 % 0x100) as nat, 8);
    lemma_field_value((sum % 0x100) as nat, 8);
}

/// A stream consists of whole bytes.
pub proof fn lemma_stream_len(cmf: u8, flg: u8, blocks: Seq<Block>, pad: Seq<bool>)
    ensures
        stream_bits(cmf, flg, blocks, pad).len() % 8 == 0,
{
    lemma2_to64();
    lemma_field_value(cmf as nat, 8);
    lemma_field_value(flg as nat, 8);
    lemma_sum_len(adler32(blocks_out(blocks, Seq::empty())));
}

/// Decoding the zlib header.
proof fn lemma_zlib_step(c: Config, cmf: u8, flg: u8, rest: Seq<bool>)
    requires
        c.phase is ZlibHeader,
        valid_zlib_header(cmf as nat, flg as nat),
        c.bits == field(cmf as nat, 8) + field(flg as nat, 8) + rest,
    ensures
        step(c) == Step::Next(Config { phase: Phase::BlockHeader, bits: rest, ..c }),
{
    lemma2_to64();
    lemma_field_value(cmf as nat, 8);
    lemma_field_value(flg as nat, 8);
    assert(c.bits.take(8) =~= field(cmf as nat, 8));
    assert(c.bits.subrange(8, 16) =~= field(flg as nat, 8));
    assert(c.bits.skip(16) =~= rest);
}

/// Decoding the checksum that a stream ends with.
#[verifier::spinoff_prover]
#[verifier::rlimit(40)]
proof fn lemma_sum_step(c: Config, pad: Seq<bool>)
    requires
        c.phase is Checksum,
        pad.len() < 8,
        c.bits == pad + sum_bits(c.sum),
    ensures
        step(c) matches Step::Next(d) && d.phase is Done && d.out == c.out && d.bits.len() == 0,
{
    reveal(sum_bits);
    let sum = c.sum;
    let b = c.bits;
    let p = pad.len() as int;
    lemma2_to64();
    let f0 = field((sum / 0x100_0000) as nat, 8);
    let f1 = field((sum / 0x1_0000 % 0x100) as nat, 8);
    let f2 = field((sum / 0x100 % 0x100) as nat, 8);
    let f3 = field((sum % 0x100) as nat, 8);
    lemma_field_value((sum / 0x100_0000) as nat, 8);
    lemma_field_value((sum / 0x1_0000 % 0x100) as nat, 8);
    lemma_field_value((sum / 0x100 % 0x100) as nat, 8);
    lemma_field_value((sum % 0x100) as nat, 8);
    assert(b.len() % 8 == p);
    assert(b.subrange(p, p + 8) =~= f0);
    assert(b.subrange(p + 8, p + 16) =~= f1);
    assert(b.subrange(p + 16, p + 24) =~= f2);
    assert(b.subrange(p + 24, p + 32) =~= f3);
}

/// Decoding a stream from the blocks on.
#[verifier::rlimit(40)]
proof fn lemma_body_reach(
    input: Seq<u8>,
    c: Config,
    blocks: Seq<Block>,
    bits: Seq<bool>,
) -> (d: Config)
    requires
        reaches(start(input), c),
        c.phase is BlockHeader,
        c.out.len() == 0,
        blocks.len() > 0,
        blocks_ok(blocks, c.out),
        c.bits == body_bits(blocks, bits),
    ensures
        reaches(start(input), d),
        d.phase is Done,
        d.out == blocks_out(blocks, c.out),
        d.bits.len() == 0,
{
    let body = blocks_bits(blocks, 16);
    let pad = pad_bits(bits, padding(16 + body.len()));
    let sum = adler32(blocks_out(blocks, Seq::empty()));
    let end = pad + sum_bits(sum);
    lemma_sum_len(sum);
    assert(c.bits =~= body + end);
    assert(c.out =~= Seq::<u8>::empty());
    let f = lemma_blocks_reach(c, blocks, 16, end);
    lemma_reaches_trans(start(input), c, f);
    law_checksum(input, f);
    lemma_sum_step(f, pad);
    let d = step(f)->Next_0;
    lemma_reaches_step(start(input), f, d);
    d
}

/// What a compressor writes is given back: the stream of any header and blocks that the format
/// allows decodes to the data that the blocks stand for, whatever bits it is padded with. The
/// header is that of the deflate method with any window size up to 32 KiB, without a preset
/// dictionary, and its value is a multiple of 31.
#[verifier::rlimit(30)]
pub proof fn law_round_trip(cmf: u8, flg: u8, blocks: Seq<Block>, pad: Seq<bool>)
    requires
        cmf % 16 == 8,
        0 <= cmf / 16 <= 7,
        flg % 64 < 32,
        (256 * cmf + flg) % 31 == 0,
        blocks.len() > 0,
        blocks_ok(blocks, Seq::empty()),
    ensures
        decode(start(encode(cmf, flg, blocks, pad))) == Ok::<Seq<u8>, DecompressionError>(
            blocks_out(blocks, Seq::empty()),
        ),
{
    let input = encode(cmf, flg, blocks, pad);
    let d = lemma_stream_reach(cmf, flg, blocks, pad);
    law_decode_resumes(start(input), d);
}

/// Decoding a stream to its end.
#[verifier::rlimit(30)]
proof fn lemma_stream_reach(cmf: u8, flg: u8, blocks: Seq<Block>, pad: Seq<bool>) -> (d: Config)
    requires
        cmf % 16 == 8,
        0 <= cmf / 16 <= 7,
        flg % 64 < 32,
        (256 * cmf + flg) % 31 == 0,
        blocks.len() > 0,
        blocks_ok(blocks, Seq::empty()),
    ensures
        reaches(start(encode(cmf, flg, blocks, pad)), d),
        d.phase is Done,
        d.out == blocks_out(blocks, Seq::empty()),
        d.bits.len() == 0,
{
    let input = encode(cmf, flg, blocks, pad);
    let c = start(input);
    lemma_stream_len(cmf, flg, blocks, pad);
    lemma_packed(stream_bits(cmf, flg, blocks, pad));
    lemma_zlib_step(c, cmf, flg, body_bits(blocks, pad));
    let e = Config { phase: Phase::BlockHeader, bits: body_bits(blocks, pad), ..c };
    lemma_reaches_self(c);
    lemma_reaches_step(c, c, e);
    lemma_body_reach(input, e, blocks, pad)
}

/// A stream that is cut short is not taken for a whole one, nor for one with an error in it: as
/// long as a byte is missing, more input is needed.
pub proof fn law_truncated(cmf: u8, flg: u8, blocks: Seq<Block>, pad: Seq<bool>, n: int)
    requires
        cmf % 16 == 8,
        0 <= cmf / 16 <= 7,
        flg % 64 < 32,
        (256 * cmf + flg) % 31 == 0,
        blocks.len() > 0,
        blocks_ok(blocks, Seq::empty()),
        0 <= n < encode(cmf, flg, blocks, pad).len(),
    ensures
        decode(start(encode(cmf, flg, blocks, pad).take(n))) == Err::<Seq<u8>, DecompressionError>(
            DecompressionError::InsufficientInput,
        ),
{
    let input = encode(cmf, flg, blocks, pad);
    let part = input.take(n);
    let more = input.skip(n);
    assert(part + more =~= input);
    let d = lemma_stream_reach(cmf, flg, blocks, pad);
    law_round_trip(cmf, flg, blocks, pad);
    if !(decode(start(part)) matches Err(DecompressionError::InsufficientInput)) {
        law_trailing_data(part, more);
        let out = blocks_out(blocks, Seq::empty());
        law_outcomes(start(part));
        let e = choose|e: Config| #[trigger]
            reaches(start(part), e) && e.phase is Done && e.out == out;
        law_more_input(start(part), e, more);
        lemma_byte_bits_concat(part, more);
        lemma_one_end(start(input), d, extended(e, byte_bits(more)));
    }
}

/// A checksum is written as four bytes, the most significant one first.
#[verifier::spinoff_prover]
#[verifier::rlimit(40)]
pub proof fn law_sum_bytes(sum: u32)
    ensures
        ({
            let bytes = packed(sum_bits(sum));
            &&& bytes.len() == 4
            &&& 0x100_0000 * bytes[0] + 0x1_0000 * bytes[1] + 0x100 * bytes[2] + bytes[3] == sum
        }),
{
    lemma_sum_len(sum);
    lemma2_to64();
    let a = (sum / 0x100_0000) as nat;
    let b = (sum / 0x1_0000 % 0x100) as nat;
    let c = (sum / 0x100 % 0x100) as nat;
    let d = (sum % 0x100) as nat;
    lemma_field_value(a, 8);
    lemma_field_value(b, 8);
    lemma_field_value(c, 8);
    lemma_field_value(d, 8);
    let bits = sum_bits(sum);
    assert(bits == field(a, 8) + field(b, 8) + field(c, 8) + field(d, 8)) by {
        reveal(sum_bits);
    }
    assert(bits.subrange(0, 8) =~= field(a, 8));
    assert(bits.subrange(8, 16) =~= field(b, 8));
    assert(bits.subrange(16, 24) =~= field(c, 8));
    assert(bits.subrange(24, 32) =~= field(d, 8));
}

/// The bits of a zlib stream with the given header, blocks and checksum.
pub open spec fn summed_bits(
    cmf: u8,
    flg: u8,
    blocks: Seq<Block>,
    pad: Seq<bool>,
    sum: u32,
) -> Seq<bool> {
    let body = blocks_bits(blocks, 16);
    field(cmf as nat, 8) + field(flg as nat, 8) + (body + pad_bits(pad, padding(16 + body.len()))
        + sum_bits(sum))
}

/// Data that does not go with the checksum is refused: a stream that is right up to its last block
/// and ends with any number but the Adler-32 checksum of the data decodes to that error.
#[verifier::rlimit(40)]
pub proof fn law_wrong_checksum(
    cmf: u8,
    flg: u8,
    blocks: Seq<Block>,
    pad: Seq<bool>,
    sum: u32,
)
    requires
        cmf % 16 == 8,
        0 <= cmf / 16 <= 7,
        flg % 64 < 32,
        (256 * cmf + flg) % 31 == 0,
        blocks.len() > 0,
        blocks_ok(blocks, Seq::empty()),
        sum != adler32(blocks_out(blocks, Seq::empty())),
    ensures
        decode(start(packed(summed_bits(cmf, flg, blocks, pad, sum)))) == Err::<
            Seq<u8>,
            DecompressionError,
        >(DecompressionError::WrongChecksum),
{
    let all = summed_bits(cmf, flg, blocks, pad, sum);
    let input = packed(all);
    let c = start(input);
    let body = blocks_bits(blocks, 16);
    let end = pad_bits(pad, padding(16 + body.len())) + sum_bits(sum);
    lemma2_to64();
    lemma_field_value(cmf as nat, 8);
    lemma_field_value(flg as nat, 8);
    lemma_sum_len(sum);
    assert(all.len() % 8 == 0);
    lemma_packed(all);
    assert(all =~= field(cmf as nat, 8) + field(flg as nat, 8) + (body + end));
    lemma_zlib_step(c, cmf, flg, body + end);
    let e = Config { phase: Phase::BlockHeader, bits: body + end, ..c };
    lemma_reaches_self(c);
    lemma_reaches_step(c, c, e);
    let f = lemma_blocks_reach(e, blocks, 16, end);
    lemma_reaches_trans(c, e, f);
    law_checksum(input, f);
    assert(end =~= end + Seq::<bool>::empty());
    law_sum_compared(
        f,
        pad_bits(pad, padding(16 + body.len())),
        sum,
        Seq::empty(),
    );
    assert(fails(c, DecompressionError::WrongChecksum));
    lemma_fails_decode(c, DecompressionError::WrongChecksum);
}

/// The literals of a byte string.
pub open spec fn literals(data: Seq<u8>) -> Seq<Token> {
    Seq::new(data.len(), |i: int| Token::Literal(data[i]))
}

proof fn lemma_literals(data: Seq<u8>, out: Seq<u8>)
    ensures
        tokens_ok(fixed_litlen_lengths(), fixed_dist_lengths(), literals(data), out),
        tokens_out(literals(data), out) == out + data,
    decreases data.len(),
{
    if data.len() == 0 {
        assert(out + data =~= out);
    } else {
        let rest = data.drop_first();
        assert(literals(data).drop_first() =~= literals(rest));
        lemma_literals(rest, out + seq![data[0]]);
        assert(out + seq![data[0]] + rest =~= out + data);
    }
}

/// Every byte string has a stream that decodes to it: as literals in the fixed codes.
pub proof fn law_literals_round_trip(data: Seq<u8>)
    ensures
        decode(
            start(encode(0x78, 0x01, seq![Block::Fixed(literals(data))], Seq::empty())),
        ) == Ok::<Seq<u8>, DecompressionError>(data),
{
    let blocks = seq![Block::Fixed(literals(data))];
    let none = Seq::<u8>::empty();
    lemma_literals(data, none);
    assert(none + data =~= data);
    assert(blocks.drop_first() =~= Seq::<Block>::empty());
    reveal_with_fuel(blocks_ok, 2);
    reveal_with_fuel(blocks_out, 2);
    law_round_trip(0x78, 0x01, blocks, Seq::empty());
}

} // verus!
