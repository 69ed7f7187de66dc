//! Big-endian integers as byte sequences: the arithmetic that every codec
//! of this crate rests on.
//!
//! A byte sequence stands for the number that its bytes spell in base 256,
//! most significant byte first. Signed integers travel in two's complement.

use vstd::prelude::*;

verus! {

/// 256 to the power `n`.
pub open spec fn pow256(n: nat) -> nat
    decreases n,
{
    if n == 0 {
        1
    } else {
        256 * pow256((n - 1) as nat)
    }
}

/// The number that `s` spells in base 256, most significant byte first.
pub open spec fn be_value(s: Seq<u8>) -> nat
    decreases s.len(),
{
    if s.len() == 0 {
        0
    } else {
        be_value(s.drop_last()) * 256 + s.last() as nat
    }
}

/// The `width` low-order base-256 digits of `x`, most significant first.
pub open spec fn be_bytes(x: nat, width: nat) -> Seq<u8>
    decreases width,
{
    if width == 0 {
        Seq::empty()
    } else {
        be_bytes(x / 256, (width - 1) as nat).push((x % 256) as u8)
    }
}

/// The number that the 4 bytes of `data` from `at` on spell.
pub open spec fn word32_at(data: Seq<u8>, at: int) -> nat {
    be_value(data.subrange(at, at + 4))
}

/// The unsigned number whose `width` bytes are the two's complement of `x`.
pub open spec fn twos_complement(x: int, width: nat) -> nat {
    if x >= 0 {
        x as nat
    } else {
        (x + pow256(width)) as nat
    }
}

/// The signed number that the unsigned `v` stands for in two's complement
/// on `width` bytes.
pub open spec fn from_twos_complement(v: nat, width: nat) -> int {
    if 2 * v < pow256(width) {
        v as int
    } else {
        v - pow256(width)
    }
}

/// The powers of 256 that the fixed widths of this crate need.
pub proof fn lemma_pow256_values()
    ensures
        pow256(0) == 1,
        pow256(1) == 0x100,
        pow256(2) == 0x1_0000,
        pow256(3) == 0x100_0000,
        pow256(4) == 0x1_0000_0000,
        pow256(5) == 0x100_0000_0000,
        pow256(6) == 0x1_0000_0000_0000,
        pow256(7) == 0x100_0000_0000_0000,
        pow256(8) == 0x1_0000_0000_0000_0000,
{
    reveal_with_fuel(pow256, 9);
}

/// `be_bytes` yields exactly `width` bytes.
pub proof fn lemma_be_bytes_len(x: nat, width: nat)
    ensures
        be_bytes(x, width).len() == width,
    decreases width,
{
    if width > 0 {
        lemma_be_bytes_len(x / 256, (width - 1) as nat);
    }
}

/// A sequence of `n` bytes spells a number below `256^n`.
pub proof fn lemma_be_value_bound(s: Seq<u8>)
    ensures
        be_value(s) < pow256(s.len()),
    decreases s.len(),
{
    if s.len() > 0 {
        lemma_be_value_bound(s.drop_last());
    }
}

/// Reading back what was written gives the number, as long as it fits the width.
pub proof fn lemma_be_value_of_bytes(x: nat, width: nat)
    requires
        x < pow256(width),
    ensures
        be_value(be_bytes(x, width)) == x,
    decreases width,
{
    if width > 0 {
        let rest = be_bytes(x / 256, (width - 1) as nat);
        lemma_be_value_of_bytes(x / 256, (width - 1) as nat);
        assert(be_bytes(x, width).drop_last() =~= rest);
    }
}

/// Writing the number that a sequence spells gives the sequence back.
pub proof fn lemma_be_bytes_of_value(s: Seq<u8>)
    ensures
        be_bytes(be_value(s), s.len()) == s,
    decreases s.len(),
{
    if s.len() > 0 {
        let v = be_value(s);
        lemma_be_bytes_of_value(s.drop_last());
        assert(v / 256 == be_value(s.drop_last()));
        assert(v % 256 == s.last() as nat);
        assert(be_bytes(v, s.len()) =~= s);
    }
}

/// Two's complement and its inverse cancel on the range of a signed
/// integer of `width` bytes.
pub proof fn lemma_twos_complement_round_trip(x: int, width: nat)
    requires
        -(pow256(width) as int) <= 2 * x < pow256(width),
    ensures
        twos_complement(x, width) < pow256(width),
        from_twos_complement(twos_complement(x, width), width) == x,
{
}

/// Appends the `width` low-order bytes of `x` to `out`, most significant first.
pub fn push_be(out: &mut Vec<u8>, x: u64, width: usize)
    ensures
        final(out)@ == old(out)@ + be_bytes(x as nat, width as nat),
    decreases width,
{
    if width > 0 {
        push_be(out, x / 256, width - 1);
        out.push((x % 256) as u8);
        assert(out@ =~= old(out)@ + be_bytes(x as nat, width as nat));
    } else {
        assert(out@ =~= old(out)@ + be_bytes(x as nat, width as nat));
    }
}

/// Reads the `width` bytes of `data` that start at `at` as one number.
pub fn read_be(data: &[u8], at: usize, width: usize) -> (x: u64)
    requires
        width <= 8,
        at + width <= data.len(),
    ensures
        x as nat == be_value(data@.subrange(at as int, at + width)),
{
    let mut acc: u64 = 0;
    let mut i: usize = 0;
    while i < width
        invariant
            i <= width <= 8,
            at + width <= data.len(),
            acc as nat == be_value(data@.subrange(at as int, at + i)),
        decreases width - i,
    {
        let ghost before = data@.subrange(at as int, at + i);
        let ghost after = data@.subrange(at as int, at + i + 1);
        proof {
            lemma_be_value_bound(before);
            lemma_pow256_values();
            reveal_with_fuel(pow256, 9);
            assert(pow256(i as nat) <= pow256(7));
            assert(after.drop_last() =~= before);
        }
        acc = acc * 256 + data[at + i] as u64;
        i = i + 1;
    }
    acc
}

} // verus!

verus! {

/// The bytes of the numbers of `s`, 8 big-endian bytes each, in order.
pub open spec fn encode_words(s: Seq<u64>) -> Seq<u8>
    decreases s.len(),
{
    if s.len() == 0 {
        Seq::empty()
    } else {
        encode_words(s.drop_last()) + be_bytes(s.last() as nat, 8)
    }
}

/// The `count` numbers of 8 bytes each that `data` holds from its first
/// byte on.
pub open spec fn decode_words(data: Seq<u8>, count: nat) -> Seq<u64> {
    Seq::new(count, |k: int| be_value(data.subrange(8 * k, 8 * k + 8)) as u64)
}

/// Where the first number of 8 bytes that the input does not hold in full
/// starts, for numbers that start at `start` in an input of `len` bytes:
/// the place at which a reader that takes one number after the other runs
/// out of input.
pub open spec fn first_missing_word(start: nat, len: nat) -> nat {
    (start + 8 * ((len - start) / 8)) as nat
}

/// The first number that the input does not hold in full starts inside the
/// input, at a whole number of numbers after `start`, and fewer than 8
/// bytes before the end of the input.
pub proof fn lemma_first_missing_word(start: nat, len: nat)
    requires
        start <= len,
    ensures
        start <= first_missing_word(start, len) <= len < first_missing_word(start, len) + 8,
        (first_missing_word(start, len) - start) % 8 == 0,
{
}

/// `encode_words` yields 8 bytes for each number, and the bytes of the
/// `k`-th number stand at offset `8 * k`.
pub proof fn lemma_encode_words_layout(s: Seq<u64>)
    ensures
        encode_words(s).len() == 8 * s.len(),
        forall|k: int|
            0 <= k < s.len() ==> #[trigger] encode_words(s).subrange(8 * k, 8 * k + 8) == be_bytes(
                s[k] as nat,
                8,
            ),
    decreases s.len(),
{
    if s.len() > 0 {
        let init = s.drop_last();
        let tail = be_bytes(s.last() as nat, 8);
        lemma_encode_words_layout(init);
        lemma_be_bytes_len(s.last() as nat, 8);
        assert forall|k: int| 0 <= k < s.len() implies #[trigger] encode_words(s).subrange(
            8 * k,
            8 * k + 8,
        ) == be_bytes(s[k] as nat, 8) by {
            if k < init.len() {
                assert(encode_words(init).subrange(8 * k, 8 * k + 8) == be_bytes(
                    init[k] as nat,
                    8,
                ));
                assert(encode_words(s).subrange(8 * k, 8 * k + 8) =~= encode_words(init).subrange(
                    8 * k,
                    8 * k + 8,
                ));
            } else {
                assert(encode_words(s).subrange(8 * k, 8 * k + 8) =~= tail);
            }
        }
    }
}

/// Appending a number appends its 8 bytes.
pub proof fn lemma_encode_words_push(s: Seq<u64>, x: u64)
    ensures
        encode_words(s.push(x)) == encode_words(s) + be_bytes(x as nat, 8),
{
    assert(s.push(x).drop_last() =~= s);
}

/// The numbers are read back from their bytes, whatever follows them.
pub proof fn lemma_words_round_trip(s: Seq<u64>, rest: Seq<u8>)
    ensures
        decode_words(encode_words(s) + rest, s.len()) == s,
{
    let data = encode_words(s) + rest;
    lemma_encode_words_layout(s);
    lemma_pow256_values();
    assert forall|k: int| 0 <= k < s.len() implies decode_words(data, s.len())[k] == s[k] by {
        assert(data.subrange(8 * k, 8 * k + 8) =~= encode_words(s).subrange(8 * k, 8 * k + 8));
        lemma_be_value_of_bytes(s[k] as nat, 8);
    }
    assert(decode_words(data, s.len()) =~= s);
}

/// The numbers read from `data` are spelled by the bytes they were read from.
pub proof fn lemma_words_canonical(data: Seq<u8>, count: nat)
    requires
        8 * count <= data.len(),
    ensures
        encode_words(decode_words(data, count)) == data.subrange(0, 8 * count as int),
    decreases count,
{
    if count > 0 {
        let words = decode_words(data, count);
        let init = (count - 1) as nat;
        let chunk = data.subrange(8 * init as int, 8 * init as int + 8);
        lemma_words_canonical(data, init);
        assert(words.drop_last() =~= decode_words(data, init));
        lemma_be_value_bound(chunk);
        lemma_be_bytes_of_value(chunk);
        lemma_pow256_values();
        assert(encode_words(words) =~= data.subrange(0, 8 * count as int));
    } else {
        assert(encode_words(decode_words(data, count)) =~= data.subrange(0, 8 * count as int));
    }
}

/// Appends the numbers of `words` to `out`, 8 big-endian bytes each.
pub fn push_words(out: &mut Vec<u8>, words: &Vec<u64>)
    ensures
        final(out)@ == old(out)@ + encode_words(words@),
{
    let mut i: usize = 0;
    assert(out@ =~= old(out)@ + encode_words(words@.take(0)));
    while i < words.len()
        invariant
            i <= words.len(),
            out@ == old(out)@ + encode_words(words@.take(i as int)),
        decreases words.len() - i,
    {
        let ghost before = out@;
        push_be(out, words[i], 8);
        proof {
            lemma_encode_words_push(words@.take(i as int), words[i as int]);
            assert(words@.take(i as int).push(words[i as int]) =~= words@.take(i + 1));
            assert(out@ =~= old(out)@ + encode_words(words@.take(i + 1)));
        }
        i = i + 1;
    }
    assert(words@.take(words.len() as int) =~= words@);
}

/// Reads `count` numbers of 8 bytes each from `data`, starting at `at`.
pub fn read_words(data: &[u8], at: usize, count: usize) -> (words: Vec<u64>)
    requires
        at + 8 * count <= data.len(),
    ensures
        words@ == decode_words(data@.subrange(at as int, at + 8 * count), count as nat),
{
    let ghost body = data@.subrange(at as int, at + 8 * count);
    let mut words: Vec<u64> = Vec::new();
    let mut k: usize = 0;
    while k < count
        invariant
            k <= count,
            at + 8 * count <= data.len(),
            body == data@.subrange(at as int, at + 8 * count),
            words@ == decode_words(body, k as nat),
        decreases count - k,
    {
        let word: u64 = read_be(data, at + 8 * k, 8);
        proof {
            assert(data@.subrange(at + 8 * k, at + 8 * k + 8) =~= body.subrange(8 * k, 8 * k + 8));
            assert(decode_words(body, k as nat).push(word) =~= decode_words(body, (k + 1) as nat));
        }
        words.push(word);
        k = k + 1;
    }
    words
}

} // verus!
