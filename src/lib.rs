//! Variable-length quantities: integers written as a self-terminating run of bytes.
//!
//! Two codecs live here side by side.
//!
//! * The standard codec ([`Vlq`], [`ReadVlqExt`], [`WriteVlqExt`]) writes the value seven bits
//!   at a time, least significant group first. Every byte but the last has its top bit set;
//!   the last byte has it clear. For example `60000` (`0xEA60`) is written as
//!   `11100000 11010100 00000011`.
//! * The fast codec ([`fast`]) puts the whole length in a unary prefix of the first byte and the
//!   payload after it in big-endian order, inside a fixed nine-byte buffer.
//!
//! Signed values are written through the unsigned integer of the same width that has the same
//! bits, so a negative value always takes the longest encoding of its width.
use vstd::prelude::*;

use crate::stream::writes_as;
use crate::wire::{encoding, fits, lemma_round_trip, read_value, reads_as};

pub mod bigint;
pub mod fast;
pub mod primitive;
pub mod standard;
pub mod stream;
pub mod wire;

pub use stream::{ByteSink, ByteSource, Cursor};

verus! {

/// Why reading a variable-length quantity failed.
#[derive(Debug, Clone, Copy, PartialEq, Eq, Structural)]
pub enum VlqError {
    /// The bytes stand for a value larger than the requested type holds.
    Overflow,
    /// The source ended before the byte that closes the value.
    Truncated,
    /// The sink refused the bytes.
    Rejected,
}

/// The wire value of each `Ok` in `r`.
pub open spec fn wire_result<T: Vlq>(r: Result<T, VlqError>) -> Result<nat, VlqError> {
    match r {
        Ok(v) => Ok(v.wire()),
        Err(e) => Err(e),
    }
}

/// A type whose values can be written and read as variable-length quantities in the standard
/// format.
pub trait Vlq: Sized {
    /// The unsigned number that stands for the value on the wire.
    spec fn wire(self) -> nat;

    /// The largest wire value of the type; `None` when there is no largest.
    spec fn wire_limit() -> Option<nat>;

    /// The wire value of every value of the type is within the limit.
    proof fn lemma_wire_fits(self)
        ensures
            fits(self.wire(), Self::wire_limit()),
    ;

    /// Reads one value from `reader`, taking exactly the bytes that [`read_value`] counts.
    fn from_reader<R: ByteSource>(reader: &mut R) -> (r: Result<Self, VlqError>)
        ensures
            reads_as(
                old(reader).unread(),
                Self::wire_limit(),
                final(reader).unread(),
                match r {
                    Ok(v) => Ok(v.wire()),
                    Err(e) => Err(e),
                },
            ),
    ;

    /// Writes the canonical encoding of the value to `writer`.
    fn to_writer<W: ByteSink>(self, writer: &mut W) -> (r: Result<(), VlqError>)
        ensures
            old(writer).accepts(encoding(self.wire()).len()) ==> r is Ok && W::wrote(
                *old(writer),
                encoding(self.wire()),
                *final(writer),
            ),
            !old(writer).accepts(encoding(self.wire()).len()) ==> r == Err::<(), VlqError>(
                VlqError::Rejected,
            ) && *final(writer) == *old(writer),
    ;
}

/// Reading a variable-length quantity of type `T`.
pub trait ReadVlqExt<T: Vlq>: ByteSource {
    /// Reads one value, taking exactly the bytes that [`read_value`] counts.
    fn read_vlq(&mut self) -> (r: Result<T, VlqError>)
        ensures
            reads_as(old(self).unread(), T::wire_limit(), final(self).unread(), wire_result(r)),
    ;
}

/// Writing a variable-length quantity of type `T`.
pub trait WriteVlqExt<T: Vlq>: ByteSink {
    /// Writes the canonical encoding of `n`.
    fn write_vlq(&mut self, n: T) -> (r: Result<(), VlqError>)
        ensures
            writes_as(*old(self), encoding(n.wire()), *final(self), r),
    ;
}

impl<T: Vlq, R: ByteSource> ReadVlqExt<T> for R {
    fn read_vlq(&mut self) -> (r: Result<T, VlqError>) {
        T::from_reader(self)
    }
}

impl<T: Vlq, W: ByteSink> WriteVlqExt<T> for W {
    fn write_vlq(&mut self, n: T) -> (r: Result<(), VlqError>) {
        n.to_writer(self)
    }
}

/// Writing any value and reading back from the bytes written, with anything after them, gives
/// a value with the same wire value, and takes exactly the bytes written.
pub proof fn lemma_vlq_round_trip<T: Vlq>(v: T, rest: Seq<u8>)
    ensures
        read_value(encoding(v.wire()) + rest, T::wire_limit()) == (
            Ok::<nat, VlqError>(v.wire()),
            encoding(v.wire()).len(),
        ),
{
    v.lemma_wire_fits();
    lemma_round_trip(v.wire(), rest, T::wire_limit());
}

} // verus!
