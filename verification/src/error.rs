//! The one error type that every decoder of this crate returns, and its
//! counterpart in specifications.

use vstd::prelude::*;

verus! {

/// Why a decoder gave up.
#[derive(Clone, Copy, Debug, PartialEq, Eq, Structural)]
pub enum DecodeErrorKind {
    /// The input ends before the field that is being read does. A field that
    /// declares more than the reader's machine word can count is reported
    /// in the same way: no input of that machine could hold it.
    Truncated,
    /// The leading tag of a record is not the tag of the expected type.
    TagMismatch,
    /// A variant tag or a layer tag names nothing that the decoder knows.
    UnknownTag,
    /// The bytes of a text field are not valid UTF-8.
    InvalidText,
}

/// A decoding failure: what went wrong, and the offset at which it went
/// wrong, counted from the first byte of the decoder's input. For input
/// that ends too early, this is where the piece starts that the decoder
/// could not take in full: a number, the bytes of a text, or, in a list of
/// numbers, the first number that is not there in full. For a tag, it is
/// where the tag starts.
#[derive(Clone, Copy, Debug, PartialEq, Eq, Structural)]
pub struct DecodeError {
    pub kind: DecodeErrorKind,
    pub offset: usize,
}

/// A decoding failure as specifications see it.
pub struct Fault {
    pub kind: DecodeErrorKind,
    pub at: nat,
}

impl View for DecodeError {
    type V = Fault;

    open spec fn view(&self) -> Fault {
        Fault { kind: self.kind, at: self.offset as nat }
    }
}

impl Fault {
    /// The same failure, seen from an input that starts `by` bytes earlier.
    pub open spec fn shifted(self, by: nat) -> Fault {
        Fault { kind: self.kind, at: self.at + by }
    }
}

/// The failure of kind `kind` at offset `at`.
pub open spec fn fault(kind: DecodeErrorKind, at: nat) -> Fault {
    Fault { kind, at }
}

/// Whether the outcome `r` of a decoder is the outcome `m` that its model
/// gives: the same value and the same number of bytes used, or the same
/// failure.
pub open spec fn agrees<T: View>(
    r: Result<(T, usize), DecodeError>,
    m: Result<(T::V, nat), Fault>,
) -> bool {
    match r {
        Ok((v, n)) => m == Ok::<(T::V, nat), Fault>((v@, n as nat)),
        Err(e) => m == Err::<(T::V, nat), Fault>(e@),
    }
}

/// Whether the outcome `r` is a failure for want of input.
pub open spec fn is_truncation<T>(r: Result<(T, nat), Fault>) -> bool {
    match r {
        Ok(_) => false,
        Err(f) => f.kind == DecodeErrorKind::Truncated,
    }
}

impl DecodeError {
    /// The failure of kind `kind` at offset `offset`.
    pub fn new(kind: DecodeErrorKind, offset: usize) -> (e: DecodeError)
        ensures
            e.kind == kind,
            e.offset == offset,
    {
        DecodeError { kind, offset }
    }

    /// The same failure, seen from an input that starts `by` bytes earlier.
    pub fn shifted(self, by: usize) -> (e: DecodeError)
        requires
            self.offset + by <= usize::MAX,
        ensures
            e@ == self@.shifted(by as nat),
    {
        DecodeError { kind: self.kind, offset: self.offset + by }
    }
}

} // verus!
