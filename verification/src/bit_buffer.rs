//! The bit buffer between the input bytes and the decoder.
use crate::bits::{
    bit, byte_bits, lemma_append_bits, lemma_byte_bits_concat, lemma_low_bits_value,
    lemma_mask_bits, lemma_shr_bits, low_bits, value,
};
use vstd::prelude::*;

verus! {

/// Bits that were taken from the input and not used yet.
pub struct BitBuffer {
    buffer: u64,
    nbits: u8,
}

/// How many of `len` input bytes a refill takes when `nbits` bits are buffered.
pub open spec fn refill_count(nbits: int, len: int) -> int {
    if nbits == 64 {
        0
    } else if len >= 8 {
        (63 - nbits) / 8
    } else if len <= (64 - nbits) / 8 {
        len
    } else {
        (64 - nbits) / 8
    }
}

/// `rest` is what is left of `input` when some bytes have been taken from its front.
pub open spec fn suffix_of(rest: Seq<u8>, input: Seq<u8>) -> bool {
    &&& rest.len() <= input.len()
    &&& rest =~= input.skip(input.len() - rest.len())
}

/// Taking bytes twice is taking bytes.
pub proof fn lemma_suffix_trans(a: Seq<u8>, b: Seq<u8>, c: Seq<u8>)
    requires
        suffix_of(a, b),
        suffix_of(b, c),
    ensures
        suffix_of(a, c),
{
}

impl View for BitBuffer {
    type V = Seq<bool>;

    closed spec fn view(&self) -> Seq<bool> {
        low_bits(self.buffer, self.nbits as nat)
    }
}

/// The 64-bit number with the given bytes, the first one least significant.
fn word_from_bytes(bytes: &[u8]) -> (word: u64)
    requires
        bytes@.len() >= 8,
    ensures
        low_bits(word, 64) == byte_bits(bytes@.take(8)),
{
    let b0: u64 = bytes[0] as u64;
    let b1: u64 = bytes[1] as u64;
    let b2: u64 = bytes[2] as u64;
    let b3: u64 = bytes[3] as u64;
    let b4: u64 = bytes[4] as u64;
    let b5: u64 = bytes[5] as u64;
    let b6: u64 = bytes[6] as u64;
    let b7: u64 = bytes[7] as u64;
    let word: u64 = b0 | (b1 << 8) | (b2 << 16) | (b3 << 24) | (b4 << 32) | (b5 << 40) | (b6 << 48)
        | (b7 << 56);
    proof {
        assert forall|i: int| 0 <= i < 64 implies bit(word, i) == byte_bits(bytes@.take(8))[i] by {
            let j = i as u64;
            let r = (i % 8) as u64;
            let q = (i / 8) as u64;
            let b = bytes@[i / 8] as u64;
            assert((word >> j) & 1 == (b >> r) & 1) by (bit_vector)
                requires
                    word == b0 | (b1 << 8) | (b2 << 16) | (b3 << 24) | (b4 << 32) | (b5 << 40) | (b6
                        << 48) | (b7 << 56),
                    b0 < 256,
                    b1 < 256,
                    b2 < 256,
                    b3 < 256,
                    b4 < 256,
                    b5 < 256,
                    b6 < 256,
                    b7 < 256,
                    j == 8 * q + r,
                    r < 8,
                    q < 8,
                    q == 0 ==> b == b0,
                    q == 1 ==> b == b1,
                    q == 2 ==> b == b2,
                    q == 3 ==> b == b3,
                    q == 4 ==> b == b4,
                    q == 5 ==> b == b5,
                    q == 6 ==> b == b6,
                    q == 7 ==> b == b7,
            ;
        }
        assert(low_bits(word, 64) =~= byte_bits(bytes@.take(8)));
    }
    word
}

impl BitBuffer {
    /// No more than 64 bits are buffered, and the unused high bits of the buffer are clear.
    pub closed spec fn wf(&self) -> bool {
        &&& self.nbits <= 64
        &&& self.nbits < 64 ==> self.buffer >> (self.nbits as u64) == 0
    }

    /// No more than 64 bits are buffered.
    pub proof fn lemma_len(&self)
        requires
            self.wf(),
        ensures
            self@.len() <= 64,
    {
    }

    /// An empty buffer.
    pub fn new() -> (res: Self)
        ensures
            res.wf(),
            res@ == Seq::<bool>::empty(),
    {
        proof {
            assert(0u64 >> 0 == 0) by (bit_vector);
        }
        let res = BitBuffer { buffer: 0, nbits: 0 };
        assert(res@ =~= Seq::<bool>::empty());
        res
    }

    /// The number of buffered bits.
    pub fn len(&self) -> (n: u8)
        requires
            self.wf(),
        ensures
            n == self@.len(),
            n <= 64,
    {
        self.nbits
    }

    /// Takes whole bytes from the front of `input` until at least 56 bits are buffered or the
    /// input is used up.
    pub fn fill_buffer(&mut self, input: &mut &[u8])
        requires
            old(self).wf(),
        ensures
            final(self).wf(),
            final(self)@ + byte_bits(final(input)@) == old(self)@ + byte_bits(old(input)@),
            final(input)@ == old(input)@.skip(
                refill_count(old(self)@.len() as int, old(input)@.len() as int),
            ),
            suffix_of(final(input)@, old(input)@),
            final(self)@.len() >= 56 || final(input)@.len() == 0,
    {
        let ghost before = self@;
        let ghost bytes = input@;
        if self.nbits == 64 {
            assert(bytes.skip(0) =~= bytes);
        } else if input.len() >= 8 {
            let word: u64 = word_from_bytes(*input);
            let nbits: u8 = self.nbits | 56;
            let count: usize = (63 - self.nbits as usize) / 8;
            let ghost old_nbits = self.nbits;
            proof {
                let gap = (63 - old_nbits) as u8;
                assert(nbits == old_nbits + 8 * (gap / 8) && 56 <= nbits < 64) by (bit_vector)
                    requires
                        old_nbits < 64,
                        nbits == old_nbits | 56,
                        gap == 63 - old_nbits,
                ;
                assert((1u64 << (nbits as u64)) >= 1) by {
                    lemma_mask_bits(0, nbits as nat);
                }
            }
            let ghost joined = self.buffer | (word << self.nbits);
            self.buffer = (self.buffer | (word << self.nbits)) & ((1u64 << nbits) - 1);
            self.nbits = nbits;
            *input = vstd::slice::slice_subrange(*input, count, input.len());
            proof {
                assert(nbits == old_nbits + 8 * count);
                lemma_append_bits(old(self).buffer, word, old_nbits as nat, (8 * count) as nat);
                lemma_mask_bits(joined, nbits as nat);
                assert(low_bits(word, (8 * count) as nat) =~= byte_bits(bytes.take(count as int))) by {
                    assert(low_bits(word, (8 * count) as nat) =~= low_bits(word, 64).take(8 * count));
                    assert(byte_bits(bytes.take(8)).take(8 * count) =~= byte_bits(
                        bytes.take(count as int),
                    ));
                }
                lemma_byte_bits_concat(bytes.take(count as int), bytes.skip(count as int));
                assert(bytes =~= bytes.take(count as int) + bytes.skip(count as int));
                assert(input@ =~= bytes.skip(count as int));
                assert(self@ =~= before + byte_bits(bytes.take(count as int)));
                assert(self@ + byte_bits(input@) =~= before + byte_bits(bytes));
            }
        } else {
            let room: usize = (64 - self.nbits as usize) / 8;
            let count: usize = if input.len() <= room {
                input.len()
            } else {
                room
            };
            let mut k: usize = 0;
            while k < count
                invariant
                    k <= count,
                    count <= room,
                    count <= input@.len(),
                    input@ == bytes,
                    old(self).nbits + 8 * room <= 64,
                    self.wf(),
                    self.nbits == old(self).nbits + 8 * k,
                    before == old(self)@,
                    self@ == before + byte_bits(bytes.take(k as int)),
                decreases count - k,
            {
                let byte: u64 = input[k] as u64;
                let ghost nbits = self.nbits;
                let ghost x = self.buffer;
                let ghost prev = self@;
                self.buffer = self.buffer | (byte << self.nbits);
                self.nbits = self.nbits + 8;
                proof {
                    lemma_append_bits(x, byte, nbits as nat, 8);
                    let y = self.buffer;
                    let n = nbits as u64;
                    assert(n < 56 ==> y >> ((n + 8) as u64) == 0) by (bit_vector)
                        requires
                            y == x | (byte << n),
                            x >> n == 0,
                            byte < 256,
                            n <= 56,
                    ;
                    assert(bytes.take(k + 1) =~= bytes.take(k as int) + seq![bytes[k as int]]);
                    lemma_byte_bits_concat(bytes.take(k as int), seq![bytes[k as int]]);
                    assert(low_bits(byte, 8) =~= byte_bits(seq![bytes[k as int]]));
                    assert(self@ =~= prev + low_bits(byte, 8));
                    assert(self@ =~= before + byte_bits(bytes.take(k + 1)));
                }
                k = k + 1;
            }
            *input = vstd::slice::slice_subrange(*input, count, input.len());
            proof {
                lemma_byte_bits_concat(bytes.take(count as int), bytes.skip(count as int));
                assert(bytes =~= bytes.take(count as int) + bytes.skip(count as int));
                assert(input@ =~= bytes.skip(count as int));
                assert(self@ + byte_bits(input@) =~= before + byte_bits(bytes));
            }
        }
    }

    /// The number that the next `nbits` bits hold.
    pub fn peak_bits(&self, nbits: u8) -> (x: u64)
        requires
            self.wf(),
            nbits <= 56,
            nbits <= self@.len(),
        ensures
            x == value(self@.take(nbits as int)),
            x >> (nbits as u64) == 0,
            low_bits(x, nbits as nat) == self@.take(nbits as int),
    {
        proof {
            lemma_mask_bits(self.buffer, nbits as nat);
            assert(self@.take(nbits as int) =~= low_bits(self.buffer, nbits as nat));
            lemma_low_bits_value(
                self.buffer & (((1u64 << (nbits as u64)) - 1) as u64),
                nbits as nat,
            );
        }
        self.buffer & ((1u64 << nbits) - 1)
    }

    /// Drops the next `nbits` bits.
    pub fn consume_bits(&mut self, nbits: u8)
        requires
            old(self).wf(),
            nbits <= old(self)@.len(),
            nbits < 64,
        ensures
            final(self).wf(),
            final(self)@ == old(self)@.skip(nbits as int),
    {
        proof {
            lemma_shr_bits(self.buffer, nbits as nat, (self.nbits - nbits) as nat);
            let x = self.buffer;
            let n = nbits as u64;
            let m = self.nbits as u64;
            assert((m < 64 ==> x >> m == 0) && (m - n < 64) ==> (x >> n) >> ((m - n) as u64) == 0) by (bit_vector)
                requires
                    n <= m,
                    m <= 64,
                    n < 64,
            ;
        }
        self.buffer = self.buffer >> nbits;
        self.nbits = self.nbits - nbits;
    }

    /// Takes the next `nbits` bits, refilling the buffer when it holds fewer, or returns `None`
    /// when the input does not have that many.
    pub fn read_bits(&mut self, nbits: u8, input: &mut &[u8]) -> (res: Option<u64>)
        requires
            old(self).wf(),
            nbits <= 56,
        ensures
            final(self).wf(),
            ({
                let stream = old(self)@ + byte_bits(old(input)@);
                let rest = final(self)@ + byte_bits(final(input)@);
                if stream.len() >= nbits {
                    res == Some(value(stream.take(nbits as int)) as u64) && rest == stream.skip(
                        nbits as int,
                    )
                } else {
                    res is None && rest == stream
                }
            }),
            suffix_of(final(input)@, old(input)@),
    {
        let ghost stream = self@ + byte_bits(input@);
        let ghost bytes = input@;
        assert(bytes.skip(0) =~= bytes);
        if self.nbits < nbits {
            self.fill_buffer(input);
            if self.nbits < nbits {
                return None;
            }
        }
        let x: u64 = self.peak_bits(nbits);
        assert(stream.take(nbits as int) =~= self@.take(nbits as int));
        assert(stream.skip(nbits as int) =~= self@.skip(nbits as int) + byte_bits(input@));
        self.consume_bits(nbits);
        Some(x)
    }
}

} // verus!
