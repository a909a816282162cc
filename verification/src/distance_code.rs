//! The distance code of a block.
use crate::bits::low_bits;
use crate::format::{count_used, valid_distance_code};
use crate::huffman::{code_matches, compute_codes, preceding, symbol_at, valid_lengths};
use crate::litlen_table::{lemma_window_symbol, lemma_zero_bits, mask};
use crate::rules::{distance_lengths, lemma_distance_lengths, only_symbol};
use vstd::prelude::*;

verus! {

/// The code words of the distance symbols that the format uses.
///
/// A symbol without a code word has the mask 0 and the code 0xffff, so that it is never found.
pub struct DistanceCode {
    pub lengths: [u8; 30],
    pub masks: [u16; 30],
    pub codes: [u16; 30],
}

/// The entries of one symbol.
pub open spec fn distance_entry(
    dist: Seq<u8>,
    i: int,
    length: u8,
    mask_bits: u16,
    code: u16,
) -> bool {
    if dist[i] == 0 {
        mask_bits == 0 && code == 0xffff
    } else {
        &&& length == dist[i]
        &&& mask_bits == mask(length)
        &&& code_matches(dist, i, code)
    }
}

impl DistanceCode {
    /// Every entry is right for the code with lengths `dist`.
    pub open spec fn matches(&self, dist: Seq<u8>) -> bool {
        &&& dist.len() == 32
        &&& valid_lengths(dist)
        &&& forall|i: int|
            0 <= i < 30 ==> distance_entry(
                dist,
                i,
                #[trigger] self.lengths@[i],
                self.masks@[i],
                self.codes@[i],
            )
    }

    /// The code without code words.
    pub fn new() -> (res: Self)
        ensures
            res.matches(Seq::new(32, |i: int| 0u8)),
    {
        DistanceCode { lengths: [0; 30], masks: [0; 30], codes: [0xffff; 30] }
    }

    /// Sets up the code with the given lengths. Returns false if there is no such code: one that
    /// has several symbols and is not complete. A code with a single symbol is set up whichever
    /// symbol that is.
    pub fn build(&mut self, lengths: &[u8]) -> (ok: bool)
        requires
            lengths@.len() == 32,
            valid_lengths(lengths@),
        ensures
            ok <==> valid_distance_code(lengths@),
            ok <==> distance_lengths(lengths@),
            forall|k: int| #[trigger] only_symbol(lengths@, k) ==> ok,
            ok ==> final(self).matches(lengths@),
            !ok ==> *final(self) == *old(self),
    {
        let ghost dist = lengths@;
        proof {
            lemma_distance_lengths(dist);
        }
        let mut used: usize = 0;
        let mut i: usize = 0;
        while i < 32
            invariant
                i <= 32,
                dist == lengths@,
                dist.len() == 32,
                used == count_used(dist, i as int),
                used <= i,
            decreases 32 - i,
        {
            if lengths[i] != 0 {
                used = used + 1;
            }
            i = i + 1;
        }
        let codes: Vec<u16> = match compute_codes(lengths) {
            Some(codes) => codes,
            None => {
                if used > 1 {
                    return false;
                }
                let codes: Vec<u16> = vec![0; 32];
                proof {
                    assert forall|k: int| 0 <= k < 32 && dist[k] > 0 implies code_matches(
                        dist,
                        k,
                        #[trigger] codes@[k],
                    ) by {
                        lemma_single_code(dist, k, dist.len() as int);
                        let l = dist[k] as u64;
                        lemma_zero_bits(dist[k] as nat);
                    }
                }
                codes
            },
        };
        let mut i: usize = 0;
        while i < 30
            invariant
                i <= 30,
                dist == lengths@,
                dist.len() == 32,
                valid_lengths(dist),
                codes@.len() == 32,
                forall|k: int|
                    0 <= k < 32 && dist[k] > 0 ==> code_matches(dist, k, #[trigger] codes@[k]),
                forall|k: int|
                    0 <= k < i ==> distance_entry(
                        dist,
                        k,
                        #[trigger] self.lengths@[k],
                        self.masks@[k],
                        self.codes@[k],
                    ),
            decreases 30 - i,
        {
            let length: u8 = lengths[i];
            self.lengths[i] = length;
            if length == 0 {
                self.masks[i] = 0;
                self.codes[i] = 0xffff;
            } else {
                proof {
                    let n = length as u64;
                    assert(1 <= (1u16 << n) && ((1u16 << n) - 1) as u16 == ((1u64 << n) - 1) as u64)
                        by (bit_vector)
                        requires
                            n <= 15,
                    ;
                }
                self.masks[i] = (1u16 << length) - 1;
                self.codes[i] = codes[i];
            }
            i = i + 1;
        }
        true
    }

    /// The symbol whose code word the 15 bits of `window` begin with.
    pub fn find(&self, window: u64, Ghost(dist): Ghost<Seq<u8>>) -> (res: Option<usize>)
        requires
            self.matches(dist),
        ensures
            match res {
                Some(i) => i < 30 && symbol_at(dist, low_bits(window, 15), i as int)
                    && self.lengths@[i as int] == dist[i as int],
                None => forall|i: int| i < 30 ==> !symbol_at(dist, low_bits(window, 15), i),
            },
    {
        let mut i: usize = 0;
        while i < 30
            invariant
                i <= 30,
                self.matches(dist),
                forall|k: int| k < i ==> !symbol_at(dist, low_bits(window, 15), k),
            decreases 30 - i,
        {
            proof {
                assert(distance_entry(
                    dist,
                    i as int,
                    self.lengths@[i as int],
                    self.masks@[i as int],
                    self.codes@[i as int],
                ));
                if dist[i as int] > 0 {
                    lemma_window_symbol(dist, self.codes@[i as int], window, 15, i as int);
                } else {
                    assert(window & 0 == 0) by (bit_vector);
                }
            }
            if window & (self.masks[i] as u64) == self.codes[i] as u64 {
                return Some(i);
            }
            i = i + 1;
        }
        None
    }
}

proof fn lemma_count_positive(dist: Seq<u8>, k: int, n: int)
    requires
        0 <= k < n <= dist.len(),
        dist[k] > 0,
    ensures
        count_used(dist, n) >= 1,
    decreases n,
{
    if k < n - 1 {
        lemma_count_positive(dist, k, n - 1);
    }
}

/// The only code word of a code spells zero.
pub(crate) proof fn lemma_single_code(dist: Seq<u8>, k: int, n: int)
    requires
        0 <= k < dist.len(),
        dist[k] > 0,
        n <= dist.len(),
        k < n ==> count_used(dist, n) <= 1,
        n <= k ==> count_used(dist, n) <= 0,
    ensures
        preceding(dist, dist[k] as nat, k, n) == 0,
    decreases n,
{
    if n > 0 {
        if k < n - 1 {
            lemma_count_positive(dist, k, n - 1);
        }
        lemma_single_code(dist, k, n - 1);
    }
}

} // verus!
