//! What a codec is: a way to write the values of a type as bytes and to
//! read them back, a model of both over the views of the values, and the
//! laws that hold of the model.
//!
//! A decoder reads one value from the front of its input and says how many
//! bytes the value took up, so that what follows it can be read from there:
//! the fields of a record, or the layers of a network, are read by adding
//! up those lengths.

use vstd::prelude::*;
use vstd::slice::slice_subrange;
use crate::error::{agrees, fault, is_truncation, DecodeError, DecodeErrorKind, Fault};

verus! {

/// A type with a binary encoding.
///
/// The four spec functions are the model of the codec over the views of the
/// type's values; the three proof functions are the laws that every
/// instance proves of its model; the executable methods compute what the
/// model says.
pub trait Serialized: Sized + View {
    /// The name of the type, as `tag` returns it.
    spec fn tag_spec() -> Seq<char>;

    /// Whether `v` is one of the values that the codec is for. The view of
    /// every value of the type is one, and so is every value that a decoder
    /// gives; the laws speak of these values.
    spec fn valid(v: Self::V) -> bool;

    /// The bytes that encode `v`.
    spec fn encode_spec(v: Self::V) -> Seq<u8>;

    /// What a decoder makes of `data`, read from its first byte: the value
    /// and the number of bytes that it takes up, or the failure.
    spec fn decode_spec(data: Seq<u8>) -> Result<(Self::V, nat), Fault>;

    /// Round trip: an encoding decodes to the value that was encoded and to
    /// the length of the encoding, whatever bytes follow it.
    proof fn lemma_round_trip(v: Self::V, rest: Seq<u8>)
        requires
            Self::valid(v),
        ensures
            Self::decode_spec(Self::encode_spec(v) + rest) == Ok::<(Self::V, nat), Fault>(
                (v, Self::encode_spec(v).len()),
            ),
    ;

    /// A decoder stays inside its input: what it takes up is a prefix of the
    /// input and encodes the value again, and a failure lies at an offset of
    /// the input.
    proof fn lemma_decode_within(data: Seq<u8>)
        ensures
            match Self::decode_spec(data) {
                Ok((v, n)) => n <= data.len() && Self::valid(v) && Self::encode_spec(v)
                    == data.subrange(0, n as int),
                Err(f) => f.at <= data.len(),
            },
    ;

    /// A cut encoding is truncated input: a decoder that is handed an
    /// encoding without its last byte, or without more of its end, fails for
    /// want of input; it gives no value.
    proof fn lemma_cut_is_truncated(v: Self::V, cut: int)
        requires
            Self::valid(v),
            0 <= cut < Self::encode_spec(v).len(),
        ensures
            is_truncation(Self::decode_spec(Self::encode_spec(v).subrange(0, cut))),
    ;

    /// Encodes `self`.
    fn serialize_binary(&self) -> (data: Vec<u8>)
        ensures
            Self::valid(self@),
            data@ == Self::encode_spec(self@),
    ;

    /// Decodes one value from the front of `data` and says how many bytes it
    /// took up. Bytes after those are not looked at.
    fn deserialize_binary(data: &[u8]) -> (r: Result<(Self, usize), DecodeError>)
        ensures
            agrees(r, Self::decode_spec(data@)),
    ;

    /// The name of the type.
    fn tag() -> (t: &'static str)
        ensures
            t@ == Self::tag_spec(),
    ;
}

/// What a decoder of `T` makes of `data`, read from the byte `offset` on:
/// the value and the offset of the byte after it, or the failure, placed
/// in `data`. An offset after the end of `data` is a truncation.
pub open spec fn decode_at<T: Serialized>(data: Seq<u8>, offset: nat) -> Result<(T::V, nat), Fault> {
    if offset > data.len() {
        Err(fault(DecodeErrorKind::Truncated, offset))
    } else {
        match T::decode_spec(data.subrange(offset as int, data.len() as int)) {
            Ok((v, n)) => Ok((v, offset + n)),
            Err(f) => Err(f.shifted(offset)),
        }
    }
}

/// Decodes one value from `data`, read from the byte `offset` on, and gives
/// the offset of the byte after it: the offset at which the next value is
/// to be read.
pub fn deserialize_at<T: Serialized>(data: &[u8], offset: usize) -> (r: Result<
    (T, usize),
    DecodeError,
>)
    ensures
        agrees(r, decode_at::<T>(data@, offset as nat)),
        r matches Ok((_, next)) ==> offset <= next <= data.len(),
{
    if offset > data.len() {
        return Err(DecodeError::new(DecodeErrorKind::Truncated, offset));
    }
    let after: &[u8] = slice_subrange(data, offset, data.len());
    proof {
        T::lemma_decode_within(after@);
    }
    match T::deserialize_binary(after) {
        Ok((v, n)) => Ok((v, offset + n)),
        Err(e) => Err(e.shifted(offset)),
    }
}

/// Determinism: the bytes that `serialize_binary` returns are a function of
/// the value alone. Whatever two calls on values with the same view return,
/// `first` and `second`, holds the same bytes.
pub proof fn lemma_encoding_deterministic<T: Serialized>(
    a: T,
    b: T,
    first: Vec<u8>,
    second: Vec<u8>,
)
    requires
        a@ == b@,
        first@ == T::encode_spec(a@),
        second@ == T::encode_spec(b@),
    ensures
        first@ == second@,
{
}

/// Offset additivity: where the encoding of `b` follows that of `a`,
/// decoding at offset 0 gives `a` and the offset at which `a` ends, which is
/// the length of its encoding, and decoding at that offset gives `b` and the
/// offset at which `b` ends.
pub proof fn lemma_offset_additivity<A: Serialized, B: Serialized>(
    a: A::V,
    b: B::V,
    rest: Seq<u8>,
)
    requires
        A::valid(a),
        B::valid(b),
    ensures
        ({
            let data = A::encode_spec(a) + B::encode_spec(b) + rest;
            let n = A::encode_spec(a).len();
            let m = B::encode_spec(b).len();
            &&& decode_at::<A>(data, 0) == Ok::<(A::V, nat), Fault>((a, n))
            &&& decode_at::<B>(data, n) == Ok::<(B::V, nat), Fault>((b, n + m))
        }),
{
    let data = A::encode_spec(a) + B::encode_spec(b) + rest;
    let n = A::encode_spec(a).len();
    assert(data.subrange(0, data.len() as int) =~= A::encode_spec(a) + (B::encode_spec(b) + rest));
    A::lemma_round_trip(a, B::encode_spec(b) + rest);
    assert(data.subrange(n as int, data.len() as int) =~= B::encode_spec(b) + rest);
    B::lemma_round_trip(b, rest);
}

/// No lookahead: a decoder looks at no byte after those that it takes up.
/// Where it gives a value for `data`, it gives the same value, and takes up
/// as many bytes, for any input that starts with the bytes it took up.
pub proof fn lemma_ignores_what_follows<T: Serialized>(data: Seq<u8>, other: Seq<u8>)
    ensures
        match T::decode_spec(data) {
            Ok((v, n)) => T::decode_spec(data.subrange(0, n as int) + other) == Ok::<
                (T::V, nat),
                Fault,
            >((v, n)),
            Err(_) => true,
        },
{
    T::lemma_decode_within(data);
    if let Ok((v, n)) = T::decode_spec(data) {
        T::lemma_round_trip(v, other);
    }
}

} // verus!
