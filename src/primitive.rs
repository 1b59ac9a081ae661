//! The standard codec for the built-in integer types. Each reads and writes through the `u128`
//! core; a signed type goes through the unsigned type of its width that has the same bits.
use vstd::prelude::*;

use crate::standard::{read_limited, write_value};
use crate::stream::{ByteSink, ByteSource};
use crate::{Vlq, VlqError};

verus! {
/// For the built-in integer types the wire value determines the value, so reading back what was
/// written gives the very value written.
pub proof fn lemma_wire_determines_value()
    ensures
        forall|a: u8, b: u8| a.wire() == b.wire() ==> a == b,
        forall|a: u16, b: u16| a.wire() == b.wire() ==> a == b,
        forall|a: u32, b: u32| a.wire() == b.wire() ==> a == b,
        forall|a: u64, b: u64| a.wire() == b.wire() ==> a == b,
        forall|a: u128, b: u128| a.wire() == b.wire() ==> a == b,
        forall|a: usize, b: usize| a.wire() == b.wire() ==> a == b,
        forall|a: i8, b: i8| a.wire() == b.wire() ==> a == b,
        forall|a: i16, b: i16| a.wire() == b.wire() ==> a == b,
        forall|a: i32, b: i32| a.wire() == b.wire() ==> a == b,
        forall|a: i64, b: i64| a.wire() == b.wire() ==> a == b,
        forall|a: i128, b: i128| a.wire() == b.wire() ==> a == b,
        forall|a: isize, b: isize| a.wire() == b.wire() ==> a == b,
{
    lemma_bits_determine_signed();
}

proof fn lemma_bits_determine_signed()
    by (bit_vector)
    ensures
        forall|a: i8, b: i8| #[trigger] (a as u8) == #[trigger] (b as u8) ==> a == b,
        forall|a: i16, b: i16| #[trigger] (a as u16) == #[trigger] (b as u16) ==> a == b,
        forall|a: i32, b: i32| #[trigger] (a as u32) == #[trigger] (b as u32) ==> a == b,
        forall|a: i64, b: i64| #[trigger] (a as u64) == #[trigger] (b as u64) ==> a == b,
        forall|a: i128, b: i128| #[trigger] (a as u128) == #[trigger] (b as u128) ==> a == b,
        forall|a: isize, b: isize| #[trigger] (a as usize) == #[trigger] (b as usize) ==> a == b,
{
}

/// Reinterpreting an unsigned value as the signed type of its width and back gives it again.
proof fn lemma_same_bits()
    by (bit_vector)
    ensures
        forall|x: u8| #[trigger] ((x as i8) as u8) == x,
        forall|x: u16| #[trigger] ((x as i16) as u16) == x,
        forall|x: u32| #[trigger] ((x as i32) as u32) == x,
        forall|x: u64| #[trigger] ((x as i64) as u64) == x,
        forall|x: u128| #[trigger] ((x as i128) as u128) == x,
        forall|x: usize| #[trigger] ((x as isize) as usize) == x,
{
}

impl Vlq for u8 {
    open spec fn wire(self) -> nat {
        self as nat
    }

    open spec fn wire_limit() -> Option<nat> {
        Some(u8::MAX as nat)
    }

    proof fn lemma_wire_fits(self) {
    }

    fn from_reader<R: ByteSource>(reader: &mut R) -> (r: Result<Self, VlqError>) {
        match read_limited(reader, u8::MAX as u128) {
            Ok(n) => Ok(n as u8),
            Err(e) => Err(e),
        }
    }

    fn to_writer<W: ByteSink>(self, writer: &mut W) -> (r: Result<(), VlqError>) {
        write_value(self as u128, writer)
    }
}

impl Vlq for u16 {
    open spec fn wire(self) -> nat {
        self as nat
    }

    open spec fn wire_limit() -> Option<nat> {
        Some(u16::MAX as nat)
    }

    proof fn lemma_wire_fits(self) {
    }

    fn from_reader<R: ByteSource>(reader: &mut R) -> (r: Result<Self, VlqError>) {
        match read_limited(reader, u16::MAX as u128) {
            Ok(n) => Ok(n as u16),
            Err(e) => Err(e),
        }
    }

    fn to_writer<W: ByteSink>(self, writer: &mut W) -> (r: Result<(), VlqError>) {
        write_value(self as u128, writer)
    }
}

impl Vlq for u32 {
    open spec fn wire(self) -> nat {
        self as nat
    }

    open spec fn wire_limit() -> Option<nat> {
        Some(u32::MAX as nat)
    }

    proof fn lemma_wire_fits(self) {
    }

    fn from_reader<R: ByteSource>(reader: &mut R) -> (r: Result<Self, VlqError>) {
        match read_limited(reader, u32::MAX as u128) {
            Ok(n) => Ok(n as u32),
            Err(e) => Err(e),
        }
    }

    fn to_writer<W: ByteSink>(self, writer: &mut W) -> (r: Result<(), VlqError>) {
        write_value(self as u128, writer)
    }
}

impl Vlq for u64 {
    open spec fn wire(self) -> nat {
        self as nat
    }

    open spec fn wire_limit() -> Option<nat> {
        Some(u64::MAX as nat)
    }

    proof fn lemma_wire_fits(self) {
    }

    fn from_reader<R: ByteSource>(reader: &mut R) -> (r: Result<Self, VlqError>) {
        match read_limited(reader, u64::MAX as u128) {
            Ok(n) => Ok(n as u64),
            Err(e) => Err(e),
        }
    }

    fn to_writer<W: ByteSink>(self, writer: &mut W) -> (r: Result<(), VlqError>) {
        write_value(self as u128, writer)
    }
}

impl Vlq for u128 {
    open spec fn wire(self) -> nat {
        self as nat
    }

    open spec fn wire_limit() -> Option<nat> {
        Some(u128::MAX as nat)
    }

    proof fn lemma_wire_fits(self) {
    }

    fn from_reader<R: ByteSource>(reader: &mut R) -> (r: Result<Self, VlqError>) {
        match read_limited(reader, u128::MAX as u128) {
            Ok(n) => Ok(n as u128),
            Err(e) => Err(e),
        }
    }

    fn to_writer<W: ByteSink>(self, writer: &mut W) -> (r: Result<(), VlqError>) {
        write_value(self as u128, writer)
    }
}

impl Vlq for usize {
    open spec fn wire(self) -> nat {
        self as nat
    }

    open spec fn wire_limit() -> Option<nat> {
        Some(usize::MAX as nat)
    }

    proof fn lemma_wire_fits(self) {
    }

    fn from_reader<R: ByteSource>(reader: &mut R) -> (r: Result<Self, VlqError>) {
        match read_limited(reader, usize::MAX as u128) {
            Ok(n) => Ok(n as usize),
            Err(e) => Err(e),
        }
    }

    fn to_writer<W: ByteSink>(self, writer: &mut W) -> (r: Result<(), VlqError>) {
        write_value(self as u128, writer)
    }
}

impl Vlq for i8 {
    open spec fn wire(self) -> nat {
        (self as u8) as nat
    }

    open spec fn wire_limit() -> Option<nat> {
        Some(u8::MAX as nat)
    }

    proof fn lemma_wire_fits(self) {
    }

    fn from_reader<R: ByteSource>(reader: &mut R) -> (r: Result<Self, VlqError>) {
        match read_limited(reader, u8::MAX as u128) {
            Ok(n) => {
                let bits = n as u8;
                proof {
                    lemma_same_bits();
                    assert(((bits as i8) as u8) == bits);
                }
                Ok(bits as i8)
            },
            Err(e) => Err(e),
        }
    }

    fn to_writer<W: ByteSink>(self, writer: &mut W) -> (r: Result<(), VlqError>) {
        write_value((self as u8) as u128, writer)
    }
}

impl Vlq for i16 {
    open spec fn wire(self) -> nat {
        (self as u16) as nat
    }

    open spec fn wire_limit() -> Option<nat> {
        Some(u16::MAX as nat)
    }

    proof fn lemma_wire_fits(self) {
    }

    fn from_reader<R: ByteSource>(reader: &mut R) -> (r: Result<Self, VlqError>) {
        match read_limited(reader, u16::MAX as u128) {
            Ok(n) => {
                let bits = n as u16;
                proof {
                    lemma_same_bits();
                    assert(((bits as i16) as u16) == bits);
                }
                Ok(bits as i16)
            },
            Err(e) => Err(e),
        }
    }

    fn to_writer<W: ByteSink>(self, writer: &mut W) -> (r: Result<(), VlqError>) {
        write_value((self as u16) as u128, writer)
    }
}

impl Vlq for i32 {
    open spec fn wire(self) -> nat {
        (self as u32) as nat
    }

    open spec fn wire_limit() -> Option<nat> {
        Some(u32::MAX as nat)
    }

    proof fn lemma_wire_fits(self) {
    }

    fn from_reader<R: ByteSource>(reader: &mut R) -> (r: Result<Self, VlqError>) {
        match read_limited(reader, u32::MAX as u128) {
            Ok(n) => {
                let bits = n as u32;
                proof {
                    lemma_same_bits();
                    assert(((bits as i32) as u32) == bits);
                }
                Ok(bits as i32)
            },
            Err(e) => Err(e),
        }
    }

    fn to_writer<W: ByteSink>(self, writer: &mut W) -> (r: Result<(), VlqError>) {
        write_value((self as u32) as u128, writer)
    }
}

impl Vlq for i64 {
    open spec fn wire(self) -> nat {
        (self as u64) as nat
    }

    open spec fn wire_limit() -> Option<nat> {
        Some(u64::MAX as nat)
    }

    proof fn lemma_wire_fits(self) {
    }

    fn from_reader<R: ByteSource>(reader: &mut R) -> (r: Result<Self, VlqError>) {
        match read_limited(reader, u64::MAX as u128) {
            Ok(n) => {
                let bits = n as u64;
                proof {
                    lemma_same_bits();
                    assert(((bits as i64) as u64) == bits);
                }
                Ok(bits as i64)
            },
            Err(e) => Err(e),
        }
    }

    fn to_writer<W: ByteSink>(self, writer: &mut W) -> (r: Result<(), VlqError>) {
        write_value((self as u64) as u128, writer)
    }
}

impl Vlq for i128 {
    open spec fn wire(self) -> nat {
        (self as u128) as nat
    }

    open spec fn wire_limit() -> Option<nat> {
        Some(u128::MAX as nat)
    }

    proof fn lemma_wire_fits(self) {
    }

    fn from_reader<R: ByteSource>(reader: &mut R) -> (r: Result<Self, VlqError>) {
        match read_limited(reader, u128::MAX as u128) {
            Ok(n) => {
                let bits = n as u128;
                proof {
                    lemma_same_bits();
                    assert(((bits as i128) as u128) == bits);
                }
                Ok(bits as i128)
            },
            Err(e) => Err(e),
        }
    }

    fn to_writer<W: ByteSink>(self, writer: &mut W) -> (r: Result<(), VlqError>) {
        write_value((self as u128) as u128, writer)
    }
}

impl Vlq for isize {
    open spec fn wire(self) -> nat {
        (self as usize) as nat
    }

    open spec fn wire_limit() -> Option<nat> {
        Some(usize::MAX as nat)
    }

    proof fn lemma_wire_fits(self) {
    }

    fn from_reader<R: ByteSource>(reader: &mut R) -> (r: Result<Self, VlqError>) {
        match read_limited(reader, usize::MAX as u128) {
            Ok(n) => {
                let bits = n as usize;
                proof {
                    lemma_same_bits();
                    assert(((bits as isize) as usize) == bits);
                }
                Ok(bits as isize)
            },
            Err(e) => Err(e),
        }
    }

    fn to_writer<W: ByteSink>(self, writer: &mut W) -> (r: Result<(), VlqError>) {
        write_value((self as usize) as u128, writer)
    }
}

} // verus!
