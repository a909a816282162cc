//! Writing to the output buffer.
use crate::format::copied;
use vstd::arithmetic::div_mod::{lemma_mod_multiples_vanish, lemma_small_mod};
use vstd::prelude::*;

verus! {

/// All bytes of a buffer from `index` on are zero.
pub open spec fn zero_from(output: Seq<u8>, index: int) -> bool {
    forall|i: int| index <= i < output.len() ==> #[trigger] output[i] == 0
}

/// A buffer holds the output `out`, and zeros after it.
pub open spec fn holds(output: Seq<u8>, out: Seq<u8>) -> bool {
    &&& out.len() <= output.len()
    &&& output.take(out.len() as int) =~= out
    &&& zero_from(output, out.len() as int)
}

/// What a buffer holds, byte by byte.
pub proof fn law_holds(output: Seq<u8>, out: Seq<u8>, i: int)
    requires
        holds(output, out),
        0 <= i < output.len(),
    ensures
        output[i] == if i < out.len() {
            out[i]
        } else {
            0
        },
{
    if i < out.len() {
        assert(output.take(out.len() as int)[i] == out[i]);
    }
}

/// `length` equal bytes.
pub open spec fn repeated(byte: u8, length: nat) -> Seq<u8> {
    Seq::new(length, |i: int| byte)
}

/// The buffer `output` with `bytes` written at `index`.
pub open spec fn written(output: Seq<u8>, index: int, bytes: Seq<u8>) -> Seq<u8> {
    output.take(index) + bytes + output.skip(index + bytes.len())
}

/// Copying can stop anywhere and go on with what has been copied.
pub proof fn lemma_copied_split(out: Seq<u8>, distance: int, length: nat, n: nat)
    requires
        1 <= distance <= out.len(),
        n <= length,
    ensures
        copied(out, distance, length) == copied(out, distance, n) + copied(
            out + copied(out, distance, n),
            distance,
            (length - n) as nat,
        ),
{
    let first = copied(out, distance, n);
    let second = copied(out + first, distance, (length - n) as nat);
    assert forall|i: int| 0 <= i < length implies copied(out, distance, length)[i] == (first
        + second)[i] by {
        if i >= n {
            lemma_period(i, n as int, distance);
        }
    }
    assert(copied(out, distance, length) =~= first + second);
}

/// Where the byte `i` of a copy is found `n` bytes into it.
proof fn lemma_period(i: int, n: int, distance: int)
    requires
        0 <= n <= i,
        1 <= distance,
    ensures
        ({
            let k = n - distance + (i - n) % distance;
            if k >= 0 {
                k < n && k % distance == i % distance
            } else {
                k + distance == i % distance
            }
        }),
{
    let q = (i - n) / distance;
    let r = (i - n) % distance;
    vstd::arithmetic::div_mod::lemma_fundamental_div_mod(i - n, distance);
    vstd::arithmetic::div_mod::lemma_mod_bound(i - n, distance);
    let k = n - distance + r;
    assert(i == distance * q + (n + r));
    lemma_mod_multiples_vanish(q, n + r, distance);
    if k >= 0 {
        assert(n + r == distance * 1 + k);
        lemma_mod_multiples_vanish(1, k, distance);
    } else {
        lemma_small_mod((n + r) as nat, distance as nat);
    }
}

/// Copies `length` bytes from `distance` bytes before `index` to `index`.
pub(crate) fn copy_back(output: &mut [u8], index: usize, distance: usize, length: usize)
    requires
        1 <= distance <= index,
        index + length <= old(output)@.len(),
    ensures
        final(output)@ == written(
            old(output)@,
            index as int,
            copied(old(output)@.take(index as int), distance as int, length as nat),
        ),
        forall|k: int|
            index <= k < index + length ==> #[trigger] final(output)@[k] == final(output)@[k
                - distance],
        forall|k: int|
            0 <= k < index || index + length <= k < old(output)@.len() ==> #[trigger] final(output)@[k] == old(output)@[k],
{
    let ghost before = output@;
    let ghost out = before.take(index as int);
    let mut i: usize = 0;
    assert(output@ =~= written(before, index as int, copied(out, distance as int, 0)));
    while i < length
        invariant
            i <= length,
            1 <= distance <= index,
            index + length <= before.len() == output.len(),
            out == before.take(index as int),
            output@ == written(before, index as int, copied(out, distance as int, i as nat)),
            forall|k: int|
                index <= k < index + i ==> #[trigger] output@[k] == output@[k - distance],
        decreases length - i,
    {
        proof {
            if i >= distance {
                lemma_mod_multiples_vanish(1, i - distance, distance as int);
                assert(distance * 1 + (i - distance) == i as int);
            } else {
                lemma_small_mod(i as nat, distance as nat);
            }
        }
        let byte: u8 = output[index + i - distance];
        output[index + i] = byte;
        i = i + 1;
        assert(output@ =~= written(before, index as int, copied(out, distance as int, i as nat)));
    }
}

/// Writes a byte `length` times.
pub(crate) fn fill(output: &mut [u8], index: usize, byte: u8, length: usize)
    requires
        index + length <= old(output)@.len(),
    ensures
        final(output)@ == written(old(output)@, index as int, repeated(byte, length as nat)),
{
    let ghost before = output@;
    let mut i: usize = 0;
    assert(output@ =~= written(before, index as int, repeated(byte, 0)));
    while i < length
        invariant
            i <= length,
            index + length <= before.len() == output.len(),
            output@ == written(before, index as int, repeated(byte, i as nat)),
        decreases length - i,
    {
        output[index + i] = byte;
        i = i + 1;
        assert(output@ =~= written(before, index as int, repeated(byte, i as nat)));
    }
}

} // verus!
