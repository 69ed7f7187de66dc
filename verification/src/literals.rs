//! The codecs of the scalars and of text.
//!
//! A number of `w` bytes travels as `w` big-endian bytes, with no tag and no
//! length in front. Pointer-sized numbers travel on 8 bytes. Text travels as
//! the number of its UTF-8 bytes, on 8 bytes, followed by those bytes.

use vstd::prelude::*;
use vstd::slice::{slice_subrange, slice_to_vec};
use vstd::string::*;
use vstd::utf8::*;
use crate::codec::Serialized;
use crate::error::{fault, DecodeError, DecodeErrorKind, Fault};
use crate::wire::{
    be_bytes, be_value, from_twos_complement, lemma_be_bytes_len, lemma_be_bytes_of_value,
    lemma_be_value_bound, lemma_be_value_of_bytes, lemma_pow256_values,
    lemma_twos_complement_round_trip, pow256, push_be, read_be, twos_complement,
};

verus! {

/// What reading a number of `width` bytes from the front of `data` gives.
pub open spec fn decode_word(data: Seq<u8>, width: nat) -> Result<(nat, nat), Fault> {
    if data.len() < width {
        Err(fault(DecodeErrorKind::Truncated, 0))
    } else {
        Ok((be_value(data.subrange(0, width as int)), width))
    }
}

/// A number below `256^width` is read back from its `width` bytes, whatever
/// follows them.
pub proof fn lemma_word_round_trip(x: nat, width: nat, rest: Seq<u8>)
    requires
        x < pow256(width),
    ensures
        (be_bytes(x, width) + rest).subrange(0, width as int) == be_bytes(x, width),
        decode_word(be_bytes(x, width) + rest, width) == Ok::<(nat, nat), Fault>((x, width)),
{
    lemma_be_bytes_len(x, width);
    lemma_be_value_of_bytes(x, width);
    assert((be_bytes(x, width) + rest).subrange(0, width as int) =~= be_bytes(x, width));
}

/// What `decode_word` reads is below `256^width` and is spelled by the bytes
/// it took up.
pub proof fn lemma_word_within(data: Seq<u8>, width: nat)
    ensures
        match decode_word(data, width) {
            Ok((x, n)) => n == width && n <= data.len() && x < pow256(width) && be_bytes(x, width)
                == data.subrange(0, n as int),
            Err(f) => f.at <= data.len(),
        },
{
    if data.len() >= width {
        let head = data.subrange(0, width as int);
        lemma_be_value_bound(head);
        lemma_be_bytes_of_value(head);
    }
}

/// Reads a number of `width` bytes from the front of `data`.
pub fn read_word(data: &[u8], width: usize) -> (r: Result<u64, DecodeError>)
    requires
        width <= 8,
    ensures
        match r {
            Ok(x) => decode_word(data@, width as nat) == Ok::<(nat, nat), Fault>(
                (x as nat, width as nat),
            ),
            Err(e) => decode_word(data@, width as nat) == Err::<(nat, nat), Fault>(e@),
        },
{
    if data.len() < width {
        Err(DecodeError::new(DecodeErrorKind::Truncated, 0))
    } else {
        Ok(read_be(data, 0, width))
    }
}

/// Appends the bytes of `src` to `out`.
pub fn push_all(out: &mut Vec<u8>, src: &[u8])
    ensures
        final(out)@ == old(out)@ + src@,
{
    let mut i: usize = 0;
    while i < src.len()
        invariant
            i <= src.len(),
            out@ == old(out)@ + src@.subrange(0, i as int),
        decreases src.len() - i,
    {
        out.push(src[i]);
        i = i + 1;
        assert(out@ =~= old(out)@ + src@.subrange(0, i as int));
    }
    assert(src@.subrange(0, src.len() as int) =~= src@);
}

/// Reads the first 8 bytes of `bytes` as an unsigned number; fewer bytes
/// are truncated input.
pub fn u64_from_bytes(bytes: &[u8]) -> (r: Result<u64, DecodeError>)
    ensures
        r is Ok <==> bytes@.len() >= 8,
        r matches Ok(x) ==> x as nat == be_value(bytes@.subrange(0, 8)),
        r matches Err(e) ==> e == (DecodeError { kind: DecodeErrorKind::Truncated, offset: 0 }),
{
    read_word(bytes, 8)
}

/// Reads the first 8 bytes of `bytes` as a signed number in two's
/// complement; fewer bytes are truncated input.
pub fn i64_from_bytes(bytes: &[u8]) -> (r: Result<i64, DecodeError>)
    ensures
        r is Ok <==> bytes@.len() >= 8,
        r matches Ok(x) ==> x as int == from_twos_complement(be_value(bytes@.subrange(0, 8)), 8),
        r matches Err(e) ==> e == (DecodeError { kind: DecodeErrorKind::Truncated, offset: 0 }),
{
    proof {
        lemma_pow256_values();
        lemma_word_within(bytes@, 8);
    }
    match read_word(bytes, 8) {
        Ok(raw) => Ok(signed_of_word(raw, 8)),
        Err(e) => Err(e),
    }
}

/// 256 to the power `width`, for the widths below 8.
fn power_of_256(width: usize) -> (p: u64)
    requires
        width <= 7,
    ensures
        p as nat == pow256(width as nat),
{
    let mut p: u64 = 1;
    let mut i: usize = 0;
    while i < width
        invariant
            i <= width <= 7,
            p as nat == pow256(i as nat),
        decreases width - i,
    {
        proof {
            lemma_pow256_values();
            reveal_with_fuel(pow256, 9);
        }
        p = p * 256;
        i = i + 1;
    }
    p
}

/// The unsigned number whose `width` bytes are the two's complement of `x`.
pub fn word_of_signed(x: i64, width: usize) -> (u: u64)
    requires
        1 <= width <= 8,
        -(pow256(width as nat) as int) <= 2 * x < pow256(width as nat),
    ensures
        u as nat == twos_complement(x as int, width as nat),
        (u as nat) < pow256(width as nat),
{
    proof {
        lemma_pow256_values();
    }
    if x >= 0 {
        x as u64
    } else if width == 8 {
        let above_min: i64 = x - i64::MIN;
        above_min as u64 + 0x8000_0000_0000_0000u64
    } else {
        let modulus: u64 = power_of_256(width);
        modulus - ((-x) as u64)
    }
}

/// The signed number that `u` stands for in two's complement on `width` bytes.
pub fn signed_of_word(u: u64, width: usize) -> (x: i64)
    requires
        1 <= width <= 8,
        (u as nat) < pow256(width as nat),
    ensures
        x as int == from_twos_complement(u as nat, width as nat),
        -(pow256(width as nat) as int) <= 2 * x < pow256(width as nat),
{
    proof {
        lemma_pow256_values();
    }
    if width == 8 {
        if u < 0x8000_0000_0000_0000u64 {
            u as i64
        } else {
            let low: u64 = u - 0x8000_0000_0000_0000u64;
            low as i64 + i64::MIN
        }
    } else {
        let modulus: u64 = power_of_256(width);
        if u < modulus - u {
            u as i64
        } else {
            -((modulus - u) as i64)
        }
    }
}

/// One byte.
impl Serialized for u8 {
    open spec fn tag_spec() -> Seq<char> {
        "u8"@
    }

    open spec fn valid(v: u8) -> bool {
        true
    }

    open spec fn encode_spec(v: u8) -> Seq<u8> {
        be_bytes(v as nat, 1)
    }

    open spec fn decode_spec(data: Seq<u8>) -> Result<(u8, nat), Fault> {
        match decode_word(data, 1) {
            Ok((x, n)) => Ok((x as u8, n)),
            Err(f) => Err(f),
        }
    }

    proof fn lemma_round_trip(v: u8, rest: Seq<u8>) {
        lemma_pow256_values();
        lemma_word_round_trip(v as nat, 1, rest);
        lemma_be_bytes_len(v as nat, 1);
    }

    proof fn lemma_decode_within(data: Seq<u8>) {
        lemma_pow256_values();
        lemma_word_within(data, 1);
    }

    proof fn lemma_cut_is_truncated(v: u8, cut: int) {
        lemma_be_bytes_len(v as nat, 1);
    }

    fn serialize_binary(&self) -> (data: Vec<u8>) {
        let mut data: Vec<u8> = Vec::new();
        push_be(&mut data, *self as u64, 1);
        data
    }

    fn deserialize_binary(data: &[u8]) -> (r: Result<(Self, usize), DecodeError>) {
        proof {
            lemma_pow256_values();
            lemma_word_within(data@, 1);
        }
        match read_word(data, 1) {
            Ok(x) => Ok((x as u8, 1)),
            Err(e) => Err(e),
        }
    }

    fn tag() -> (t: &'static str) {
        "u8"
    }
}

/// Two bytes, most significant first.
impl Serialized for u16 {
    open spec fn tag_spec() -> Seq<char> {
        "u16"@
    }

    open spec fn valid(v: u16) -> bool {
        true
    }

    open spec fn encode_spec(v: u16) -> Seq<u8> {
        be_bytes(v as nat, 2)
    }

    open spec fn decode_spec(data: Seq<u8>) -> Result<(u16, nat), Fault> {
        match decode_word(data, 2) {
            Ok((x, n)) => Ok((x as u16, n)),
            Err(f) => Err(f),
        }
    }

    proof fn lemma_round_trip(v: u16, rest: Seq<u8>) {
        lemma_pow256_values();
        lemma_word_round_trip(v as nat, 2, rest);
        lemma_be_bytes_len(v as nat, 2);
    }

    proof fn lemma_decode_within(data: Seq<u8>) {
        lemma_pow256_values();
        lemma_word_within(data, 2);
    }

    proof fn lemma_cut_is_truncated(v: u16, cut: int) {
        lemma_be_bytes_len(v as nat, 2);
    }

    fn serialize_binary(&self) -> (data: Vec<u8>) {
        let mut data: Vec<u8> = Vec::new();
        push_be(&mut data, *self as u64, 2);
        data
    }

    fn deserialize_binary(data: &[u8]) -> (r: Result<(Self, usize), DecodeError>) {
        proof {
            lemma_pow256_values();
            lemma_word_within(data@, 2);
        }
        match read_word(data, 2) {
            Ok(x) => Ok((x as u16, 2)),
            Err(e) => Err(e),
        }
    }

    fn tag() -> (t: &'static str) {
        "u16"
    }
}

/// Four bytes, most significant first.
impl Serialized for u32 {
    open spec fn tag_spec() -> Seq<char> {
        "u32"@
    }

    open spec fn valid(v: u32) -> bool {
        true
    }

    open spec fn encode_spec(v: u32) -> Seq<u8> {
        be_bytes(v as nat, 4)
    }

    open spec fn decode_spec(data: Seq<u8>) -> Result<(u32, nat), Fault> {
        match decode_word(data, 4) {
            Ok((x, n)) => Ok((x as u32, n)),
            Err(f) => Err(f),
        }
    }

    proof fn lemma_round_trip(v: u32, rest: Seq<u8>) {
        lemma_pow256_values();
        lemma_word_round_trip(v as nat, 4, rest);
        lemma_be_bytes_len(v as nat, 4);
    }

    proof fn lemma_decode_within(data: Seq<u8>) {
        lemma_pow256_values();
        lemma_word_within(data, 4);
    }

    proof fn lemma_cut_is_truncated(v: u32, cut: int) {
        lemma_be_bytes_len(v as nat, 4);
    }

    fn serialize_binary(&self) -> (data: Vec<u8>) {
        let mut data: Vec<u8> = Vec::new();
        push_be(&mut data, *self as u64, 4);
        data
    }

    fn deserialize_binary(data: &[u8]) -> (r: Result<(Self, usize), DecodeError>) {
        proof {
            lemma_pow256_values();
            lemma_word_within(data@, 4);
        }
        match read_word(data, 4) {
            Ok(x) => Ok((x as u32, 4)),
            Err(e) => Err(e),
        }
    }

    fn tag() -> (t: &'static str) {
        "u32"
    }
}

/// Eight bytes, most significant first.
impl Serialized for u64 {
    open spec fn tag_spec() -> Seq<char> {
        "u64"@
    }

    open spec fn valid(v: u64) -> bool {
        true
    }

    open spec fn encode_spec(v: u64) -> Seq<u8> {
        be_bytes(v as nat, 8)
    }

    open spec fn decode_spec(data: Seq<u8>) -> Result<(u64, nat), Fault> {
        match decode_word(data, 8) {
            Ok((x, n)) => Ok((x as u64, n)),
            Err(f) => Err(f),
        }
    }

    proof fn lemma_round_trip(v: u64, rest: Seq<u8>) {
        lemma_pow256_values();
        lemma_word_round_trip(v as nat, 8, rest);
        lemma_be_bytes_len(v as nat, 8);
    }

    proof fn lemma_decode_within(data: Seq<u8>) {
        lemma_pow256_values();
        lemma_word_within(data, 8);
    }

    proof fn lemma_cut_is_truncated(v: u64, cut: int) {
        lemma_be_bytes_len(v as nat, 8);
    }

    fn serialize_binary(&self) -> (data: Vec<u8>) {
        let mut data: Vec<u8> = Vec::new();
        push_be(&mut data, *self, 8);
        data
    }

    fn deserialize_binary(data: &[u8]) -> (r: Result<(Self, usize), DecodeError>) {
        proof {
            lemma_pow256_values();
            lemma_word_within(data@, 8);
        }
        match read_word(data, 8) {
            Ok(x) => Ok((x, 8)),
            Err(e) => Err(e),
        }
    }

    fn tag() -> (t: &'static str) {
        "u64"
    }
}

/// One byte, two's complement.
impl Serialized for i8 {
    open spec fn tag_spec() -> Seq<char> {
        "i8"@
    }

    open spec fn valid(v: i8) -> bool {
        true
    }

    open spec fn encode_spec(v: i8) -> Seq<u8> {
        be_bytes(twos_complement(v as int, 1), 1)
    }

    open spec fn decode_spec(data: Seq<u8>) -> Result<(i8, nat), Fault> {
        match decode_word(data, 1) {
            Ok((x, n)) => Ok((from_twos_complement(x, 1) as i8, n)),
            Err(f) => Err(f),
        }
    }

    proof fn lemma_round_trip(v: i8, rest: Seq<u8>) {
        lemma_pow256_values();
        lemma_twos_complement_round_trip(v as int, 1);
        lemma_word_round_trip(twos_complement(v as int, 1), 1, rest);
        lemma_be_bytes_len(twos_complement(v as int, 1), 1);
    }

    proof fn lemma_decode_within(data: Seq<u8>) {
        lemma_pow256_values();
        lemma_word_within(data, 1);
    }

    proof fn lemma_cut_is_truncated(v: i8, cut: int) {
        lemma_be_bytes_len(twos_complement(v as int, 1), 1);
    }

    fn serialize_binary(&self) -> (data: Vec<u8>) {
        proof {
            lemma_pow256_values();
        }
        let mut data: Vec<u8> = Vec::new();
        push_be(&mut data, word_of_signed(*self as i64, 1), 1);
        data
    }

    fn deserialize_binary(data: &[u8]) -> (r: Result<(Self, usize), DecodeError>) {
        proof {
            lemma_pow256_values();
            lemma_word_within(data@, 1);
        }
        match read_word(data, 1) {
            Ok(x) => Ok((signed_of_word(x, 1) as i8, 1)),
            Err(e) => Err(e),
        }
    }

    fn tag() -> (t: &'static str) {
        "i8"
    }
}

/// Two bytes, two's complement, most significant first.
impl Serialized for i16 {
    open spec fn tag_spec() -> Seq<char> {
        "i16"@
    }

    open spec fn valid(v: i16) -> bool {
        true
    }

    open spec fn encode_spec(v: i16) -> Seq<u8> {
        be_bytes(twos_complement(v as int, 2), 2)
    }

    open spec fn decode_spec(data: Seq<u8>) -> Result<(i16, nat), Fault> {
        match decode_word(data, 2) {
            Ok((x, n)) => Ok((from_twos_complement(x, 2) as i16, n)),
            Err(f) => Err(f),
        }
    }

    proof fn lemma_round_trip(v: i16, rest: Seq<u8>) {
        lemma_pow256_values();
        lemma_twos_complement_round_trip(v as int, 2);
        lemma_word_round_trip(twos_complement(v as int, 2), 2, rest);
        lemma_be_bytes_len(twos_complement(v as int, 2), 2);
    }

    proof fn lemma_decode_within(data: Seq<u8>) {
        lemma_pow256_values();
        lemma_word_within(data, 2);
    }

    proof fn lemma_cut_is_truncated(v: i16, cut: int) {
        lemma_be_bytes_len(twos_complement(v as int, 2), 2);
    }

    fn serialize_binary(&self) -> (data: Vec<u8>) {
        proof {
            lemma_pow256_values();
        }
        let mut data: Vec<u8> = Vec::new();
        push_be(&mut data, word_of_signed(*self as i64, 2), 2);
        data
    }

    fn deserialize_binary(data: &[u8]) -> (r: Result<(Self, usize), DecodeError>) {
        proof {
            lemma_pow256_values();
            lemma_word_within(data@, 2);
        }
        match read_word(data, 2) {
            Ok(x) => Ok((signed_of_word(x, 2) as i16, 2)),
            Err(e) => Err(e),
        }
    }

    fn tag() -> (t: &'static str) {
        "i16"
    }
}

/// Four bytes, two's complement, most significant first.
impl Serialized for i32 {
    open spec fn tag_spec() -> Seq<char> {
        "i32"@
    }

    open spec fn valid(v: i32) -> bool {
        true
    }

    open spec fn encode_spec(v: i32) -> Seq<u8> {
        be_bytes(twos_complement(v as int, 4), 4)
    }

    open spec fn decode_spec(data: Seq<u8>) -> Result<(i32, nat), Fault> {
        match decode_word(data, 4) {
            Ok((x, n)) => Ok((from_twos_complement(x, 4) as i32, n)),
            Err(f) => Err(f),
        }
    }

    proof fn lemma_round_trip(v: i32, rest: Seq<u8>) {
        lemma_pow256_values();
        lemma_twos_complement_round_trip(v as int, 4);
        lemma_word_round_trip(twos_complement(v as int, 4), 4, rest);
        lemma_be_bytes_len(twos_complement(v as int, 4), 4);
    }

    proof fn lemma_decode_within(data: Seq<u8>) {
        lemma_pow256_values();
        lemma_word_within(data, 4);
    }

    proof fn lemma_cut_is_truncated(v: i32, cut: int) {
        lemma_be_bytes_len(twos_complement(v as int, 4), 4);
    }

    fn serialize_binary(&self) -> (data: Vec<u8>) {
        proof {
            lemma_pow256_values();
        }
        let mut data: Vec<u8> = Vec::new();
        push_be(&mut data, word_of_signed(*self as i64, 4), 4);
        data
    }

    fn deserialize_binary(data: &[u8]) -> (r: Result<(Self, usize), DecodeError>) {
        proof {
            lemma_pow256_values();
            lemma_word_within(data@, 4);
        }
        match read_word(data, 4) {
            Ok(x) => Ok((signed_of_word(x, 4) as i32, 4)),
            Err(e) => Err(e),
        }
    }

    fn tag() -> (t: &'static str) {
        "i32"
    }
}

/// Eight bytes, two's complement, most significant first.
impl Serialized for i64 {
    open spec fn tag_spec() -> Seq<char> {
        "i64"@
    }

    open spec fn valid(v: i64) -> bool {
        true
    }

    open spec fn encode_spec(v: i64) -> Seq<u8> {
        be_bytes(twos_complement(v as int, 8), 8)
    }

    open spec fn decode_spec(data: Seq<u8>) -> Result<(i64, nat), Fault> {
        match decode_word(data, 8) {
            Ok((x, n)) => Ok((from_twos_complement(x, 8) as i64, n)),
            Err(f) => Err(f),
        }
    }

    proof fn lemma_round_trip(v: i64, rest: Seq<u8>) {
        lemma_pow256_values();
        lemma_twos_complement_round_trip(v as int, 8);
        lemma_word_round_trip(twos_complement(v as int, 8), 8, rest);
        lemma_be_bytes_len(twos_complement(v as int, 8), 8);
    }

    proof fn lemma_decode_within(data: Seq<u8>) {
        lemma_pow256_values();
        lemma_word_within(data, 8);
    }

    proof fn lemma_cut_is_truncated(v: i64, cut: int) {
        lemma_be_bytes_len(twos_complement(v as int, 8), 8);
    }

    fn serialize_binary(&self) -> (data: Vec<u8>) {
        proof {
            lemma_pow256_values();
        }
        let mut data: Vec<u8> = Vec::new();
        push_be(&mut data, word_of_signed(*self, 8), 8);
        data
    }

    fn deserialize_binary(data: &[u8]) -> (r: Result<(Self, usize), DecodeError>) {
        proof {
            lemma_pow256_values();
            lemma_word_within(data@, 8);
        }
        match read_word(data, 8) {
            Ok(x) => Ok((signed_of_word(x, 8), 8)),
            Err(e) => Err(e),
        }
    }

    fn tag() -> (t: &'static str) {
        "i64"
    }
}

/// Eight bytes, most significant first, whatever the width of a pointer on
/// the machine. A decoder whose pointers are narrower reports a number that
/// it cannot hold as truncated input.
impl Serialized for usize {
    open spec fn tag_spec() -> Seq<char> {
        "usize"@
    }

    open spec fn valid(v: usize) -> bool {
        true
    }

    open spec fn encode_spec(v: usize) -> Seq<u8> {
        be_bytes(v as nat, 8)
    }

    open spec fn decode_spec(data: Seq<u8>) -> Result<(usize, nat), Fault> {
        match decode_word(data, 8) {
            Ok((x, n)) => if x <= usize::MAX {
                Ok((x as usize, n))
            } else {
                Err(fault(DecodeErrorKind::Truncated, 0))
            },
            Err(f) => Err(f),
        }
    }

    proof fn lemma_round_trip(v: usize, rest: Seq<u8>) {
        lemma_pow256_values();
        lemma_word_round_trip(v as nat, 8, rest);
        lemma_be_bytes_len(v as nat, 8);
    }

    proof fn lemma_decode_within(data: Seq<u8>) {
        lemma_pow256_values();
        lemma_word_within(data, 8);
    }

    proof fn lemma_cut_is_truncated(v: usize, cut: int) {
        lemma_be_bytes_len(v as nat, 8);
    }

    fn serialize_binary(&self) -> (data: Vec<u8>) {
        let mut data: Vec<u8> = Vec::new();
        push_be(&mut data, *self as u64, 8);
        data
    }

    fn deserialize_binary(data: &[u8]) -> (r: Result<(Self, usize), DecodeError>) {
        proof {
            lemma_pow256_values();
            lemma_word_within(data@, 8);
        }
        match read_word(data, 8) {
            Ok(x) => if x <= usize::MAX as u64 {
                Ok((x as usize, 8))
            } else {
                Err(DecodeError::new(DecodeErrorKind::Truncated, 0))
            },
            Err(e) => Err(e),
        }
    }

    fn tag() -> (t: &'static str) {
        "usize"
    }
}

/// Eight bytes, two's complement, most significant first, whatever the width
/// of a pointer on the machine. A decoder whose pointers are narrower reports
/// a number that it cannot hold as truncated input.
impl Serialized for isize {
    open spec fn tag_spec() -> Seq<char> {
        "isize"@
    }

    open spec fn valid(v: isize) -> bool {
        true
    }

    open spec fn encode_spec(v: isize) -> Seq<u8> {
        be_bytes(twos_complement(v as int, 8), 8)
    }

    open spec fn decode_spec(data: Seq<u8>) -> Result<(isize, nat), Fault> {
        match decode_word(data, 8) {
            Ok((x, n)) => if isize::MIN <= from_twos_complement(x, 8) <= isize::MAX {
                Ok((from_twos_complement(x, 8) as isize, n))
            } else {
                Err(fault(DecodeErrorKind::Truncated, 0))
            },
            Err(f) => Err(f),
        }
    }

    proof fn lemma_round_trip(v: isize, rest: Seq<u8>) {
        lemma_pow256_values();
        lemma_twos_complement_round_trip(v as int, 8);
        lemma_word_round_trip(twos_complement(v as int, 8), 8, rest);
        lemma_be_bytes_len(twos_complement(v as int, 8), 8);
    }

    proof fn lemma_decode_within(data: Seq<u8>) {
        lemma_pow256_values();
        lemma_word_within(data, 8);
    }

    proof fn lemma_cut_is_truncated(v: isize, cut: int) {
        lemma_be_bytes_len(twos_complement(v as int, 8), 8);
    }

    fn serialize_binary(&self) -> (data: Vec<u8>) {
        proof {
            lemma_pow256_values();
        }
        let mut data: Vec<u8> = Vec::new();
        push_be(&mut data, word_of_signed(*self as i64, 8), 8);
        data
    }

    fn deserialize_binary(data: &[u8]) -> (r: Result<(Self, usize), DecodeError>) {
        proof {
            lemma_pow256_values();
            lemma_word_within(data@, 8);
        }
        match read_word(data, 8) {
            Ok(x) => {
                let wide: i64 = signed_of_word(x, 8);
                if isize::MIN as i64 <= wide && wide <= isize::MAX as i64 {
                    Ok((wide as isize, 8))
                } else {
                    Err(DecodeError::new(DecodeErrorKind::Truncated, 0))
                }
            },
            Err(e) => Err(e),
        }
    }

    fn tag() -> (t: &'static str) {
        "isize"
    }
}

/// A single-precision floating-point number, held as the 32 bits of its
/// IEEE 754 representation. It travels as those bits: four bytes, most
/// significant first.
#[derive(Clone, Copy, Debug, PartialEq, Eq, Structural)]
pub struct Float32 {
    pub bits: u32,
}

impl View for Float32 {
    type V = u32;

    open spec fn view(&self) -> u32 {
        self.bits
    }
}

impl Serialized for Float32 {
    open spec fn tag_spec() -> Seq<char> {
        "f32"@
    }

    open spec fn valid(v: u32) -> bool {
        true
    }

    open spec fn encode_spec(v: u32) -> Seq<u8> {
        be_bytes(v as nat, 4)
    }

    open spec fn decode_spec(data: Seq<u8>) -> Result<(u32, nat), Fault> {
        match decode_word(data, 4) {
            Ok((x, n)) => Ok((x as u32, n)),
            Err(f) => Err(f),
        }
    }

    proof fn lemma_round_trip(v: u32, rest: Seq<u8>) {
        lemma_pow256_values();
        lemma_word_round_trip(v as nat, 4, rest);
        lemma_be_bytes_len(v as nat, 4);
    }

    proof fn lemma_decode_within(data: Seq<u8>) {
        lemma_pow256_values();
        lemma_word_within(data, 4);
    }

    proof fn lemma_cut_is_truncated(v: u32, cut: int) {
        lemma_be_bytes_len(v as nat, 4);
    }

    fn serialize_binary(&self) -> (data: Vec<u8>) {
        let mut data: Vec<u8> = Vec::new();
        push_be(&mut data, self.bits as u64, 4);
        data
    }

    fn deserialize_binary(data: &[u8]) -> (r: Result<(Self, usize), DecodeError>) {
        proof {
            lemma_pow256_values();
            lemma_word_within(data@, 4);
        }
        match read_word(data, 4) {
            Ok(x) => Ok((Float32 { bits: x as u32 }, 4)),
            Err(e) => Err(e),
        }
    }

    fn tag() -> (t: &'static str) {
        "f32"
    }
}

/// A double-precision floating-point number, held as the 64 bits of its
/// IEEE 754 representation. It travels as those bits: eight bytes, most
/// significant first.
#[derive(Clone, Copy, Debug, PartialEq, Eq, Structural)]
pub struct Float64 {
    pub bits: u64,
}

impl View for Float64 {
    type V = u64;

    open spec fn view(&self) -> u64 {
        self.bits
    }
}

impl Serialized for Float64 {
    open spec fn tag_spec() -> Seq<char> {
        "f64"@
    }

    open spec fn valid(v: u64) -> bool {
        true
    }

    open spec fn encode_spec(v: u64) -> Seq<u8> {
        be_bytes(v as nat, 8)
    }

    open spec fn decode_spec(data: Seq<u8>) -> Result<(u64, nat), Fault> {
        match decode_word(data, 8) {
            Ok((x, n)) => Ok((x as u64, n)),
            Err(f) => Err(f),
        }
    }

    proof fn lemma_round_trip(v: u64, rest: Seq<u8>) {
        lemma_pow256_values();
        lemma_word_round_trip(v as nat, 8, rest);
        lemma_be_bytes_len(v as nat, 8);
    }

    proof fn lemma_decode_within(data: Seq<u8>) {
        lemma_pow256_values();
        lemma_word_within(data, 8);
    }

    proof fn lemma_cut_is_truncated(v: u64, cut: int) {
        lemma_be_bytes_len(v as nat, 8);
    }

    fn serialize_binary(&self) -> (data: Vec<u8>) {
        let mut data: Vec<u8> = Vec::new();
        push_be(&mut data, self.bits, 8);
        data
    }

    fn deserialize_binary(data: &[u8]) -> (r: Result<(Self, usize), DecodeError>) {
        proof {
            lemma_pow256_values();
            lemma_word_within(data@, 8);
        }
        match read_word(data, 8) {
            Ok(x) => Ok((Float64 { bits: x }, 8)),
            Err(e) => Err(e),
        }
    }

    fn tag() -> (t: &'static str) {
        "f64"
    }
}

/// Reads the first 8 bytes of `bytes` as the bits of a double-precision
/// floating-point number; fewer bytes are truncated input.
pub fn f64_from_bytes(bytes: &[u8]) -> (r: Result<Float64, DecodeError>)
    ensures
        r is Ok <==> bytes@.len() >= 8,
        r matches Ok(x) ==> x.bits as nat == be_value(bytes@.subrange(0, 8)),
        r matches Err(e) ==> e == (DecodeError { kind: DecodeErrorKind::Truncated, offset: 0 }),
{
    match read_word(bytes, 8) {
        Ok(bits) => Ok(Float64 { bits }),
        Err(e) => Err(e),
    }
}

/// `String::from_utf8`: the text that `bytes` spell in UTF-8, or nothing
/// where they are not valid UTF-8. The contract takes vstd's `valid_utf8` as
/// what valid UTF-8 is and `decode_utf8` as the characters of the text.
#[verifier::external_body]
fn string_from_utf8(bytes: Vec<u8>) -> (text: Option<String>)
    ensures
        text is Some <==> valid_utf8(bytes@),
        text matches Some(s) ==> s@ == decode_utf8(bytes@),
{
    String::from_utf8(bytes).ok()
}

/// What reading a text from the front of `data` gives: 8 bytes of length,
/// then that many bytes of UTF-8. The bytes of the text are taken in one
/// piece: where the input does not hold them all, or where they are not
/// UTF-8, the failure lies at byte 8, where the piece starts.
pub open spec fn decode_text(data: Seq<u8>) -> Result<(Seq<char>, nat), Fault> {
    match usize::decode_spec(data) {
        Err(f) => Err(f),
        Ok((len, _)) => {
            let body = data.subrange(8, 8 + len);
            if data.len() - 8 < len {
                Err(fault(DecodeErrorKind::Truncated, 8))
            } else if !valid_utf8(body) {
                Err(fault(DecodeErrorKind::InvalidText, 8))
            } else {
                Ok((decode_utf8(body), (8 + len) as nat))
            }
        },
    }
}

/// The text that `data` starts with, where it starts with one: the tag of
/// what `data` holds, where it holds something tagged.
pub open spec fn leading_tag(data: Seq<u8>) -> Option<Seq<char>> {
    match decode_text(data) {
        Ok((tag, _)) => Some(tag),
        Err(_) => None,
    }
}

/// The bytes of the text `chars`: the number of its UTF-8 bytes, then those
/// bytes.
pub open spec fn encode_text(chars: Seq<char>) -> Seq<u8> {
    be_bytes(encode_utf8(chars).len(), 8) + encode_utf8(chars)
}

/// Text: the number of UTF-8 bytes on 8 bytes, then the bytes.
impl Serialized for String {
    open spec fn tag_spec() -> Seq<char> {
        "String"@
    }

    open spec fn valid(v: Seq<char>) -> bool {
        encode_utf8(v).len() <= usize::MAX
    }

    open spec fn encode_spec(v: Seq<char>) -> Seq<u8> {
        encode_text(v)
    }

    open spec fn decode_spec(data: Seq<u8>) -> Result<(Seq<char>, nat), Fault> {
        decode_text(data)
    }

    proof fn lemma_round_trip(v: Seq<char>, rest: Seq<u8>) {
        let body = encode_utf8(v);
        let data = encode_text(v) + rest;
        lemma_pow256_values();
        lemma_be_bytes_len(body.len(), 8);
        assert(data =~= be_bytes(body.len(), 8) + (body + rest));
        lemma_word_round_trip(body.len(), 8, body + rest);
        assert(data.subrange(8, 8 + body.len() as int) =~= body);
        encode_utf8_valid_utf8(v);
        encode_utf8_decode_utf8(v);
    }

    proof fn lemma_decode_within(data: Seq<u8>) {
        lemma_pow256_values();
        lemma_word_within(data, 8);
        match decode_text(data) {
            Ok((v, n)) => {
                let len = (n - 8) as nat;
                let body = data.subrange(8, 8 + len as int);
                decode_utf8_encode_utf8(body);
                assert(encode_text(v) =~= data.subrange(0, n as int));
            },
            Err(f) => {},
        }
    }

    proof fn lemma_cut_is_truncated(v: Seq<char>, cut: int) {
        let body = encode_utf8(v);
        let data = encode_text(v).subrange(0, cut);
        lemma_pow256_values();
        lemma_be_bytes_len(body.len(), 8);
        if cut >= 8 {
            assert(data.subrange(0, 8) =~= be_bytes(body.len(), 8));
            lemma_be_value_of_bytes(body.len(), 8);
        }
    }

    fn serialize_binary(&self) -> (data: Vec<u8>) {
        let body: &[u8] = self.as_str().as_bytes();
        let mut data: Vec<u8> = Vec::new();
        push_be(&mut data, body.len() as u64, 8);
        push_all(&mut data, body);
        data
    }

    fn deserialize_binary(data: &[u8]) -> (r: Result<(Self, usize), DecodeError>) {
        match usize::deserialize_binary(data) {
            Err(e) => Err(e),
            Ok((len, _)) => {
                if data.len() - 8 < len {
                    Err(DecodeError::new(DecodeErrorKind::Truncated, 8))
                } else {
                    let body: Vec<u8> = slice_to_vec(slice_subrange(data, 8, 8 + len));
                    match string_from_utf8(body) {
                        Some(text) => Ok((text, 8 + len)),
                        None => Err(DecodeError::new(DecodeErrorKind::InvalidText, 8)),
                    }
                }
            },
        }
    }

    fn tag() -> (t: &'static str) {
        "String"
    }
}

} // verus!
