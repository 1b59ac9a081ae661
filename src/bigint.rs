//! The standard codec for `num_bigint::BigUint`, which has no largest value: the base-128 digits
//! of the number are its groups.
use vstd::prelude::*;

use num_bigint::BigUint;

use crate::stream::{ByteSink, ByteSource};
use crate::wire::{encoding, groups_value, is_last_byte, read_from, read_value};
use crate::{Vlq, VlqError};

verus! {

#[verifier::external_type_specification]
#[verifier::external_body]
pub struct ExBigUint(BigUint);

/// The number that a `BigUint` holds.
pub uninterp spec fn biguint_value(n: BigUint) -> nat;

/// Relies on `BigUint::to_radix_le` with radix 128: the base-128 digits of the number, least
/// significant first, each below the radix; a single zero digit for zero, and otherwise no
/// trailing zero digit.
#[verifier::external_body]
fn to_radix128(n: &BigUint) -> (r: Vec<u8>)
    ensures
        r@.len() >= 1,
        forall|i: int| 0 <= i < r@.len() ==> #[trigger] r@[i] < 128,
        r@.len() > 1 ==> r@.last() != 0,
        groups_value(r@) == biguint_value(*n),
{
    n.to_radix_le(128)
}

/// Relies on `BigUint::from_radix_le` with radix 128: the number whose base-128 digits, least
/// significant first, are `digits`; `None` when a digit is not below the radix.
#[verifier::external_body]
fn from_radix128(digits: &[u8]) -> (r: Option<BigUint>)
    ensures
        (forall|i: int| 0 <= i < digits@.len() ==> #[trigger] digits@[i] < 128) <==> r is Some,
        r matches Some(b) ==> biguint_value(b) == groups_value(digits@),
{
    BigUint::from_radix_le(digits, 128)
}

/// The bytes that hold the digits `d` in the standard format: the top bit set on every digit but
/// the last.
spec fn marked(d: Seq<u8>) -> Seq<u8> {
    Seq::new(d.len(), |i: int| if i < d.len() - 1 { (d[i] + 128) as u8 } else { d[i] })
}

/// Digits that are zero everywhere stand for zero, so a value that is not zero has a digit
/// that is not.
proof fn lemma_zero_value(s: Seq<u8>)
    requires
        s.len() >= 1,
        s.last() % 128 != 0,
    ensures
        groups_value(s) >= 1,
    decreases s.len(),
{
    if s.len() > 1 {
        lemma_zero_value(s.drop_first());
    }
}

/// Digits as `to_radix128` gives them, marked, are the canonical encoding of their value.
proof fn lemma_digits_encoding(d: Seq<u8>)
    requires
        d.len() >= 1,
        forall|i: int| 0 <= i < d.len() ==> #[trigger] d[i] < 128,
        d.len() > 1 ==> d.last() != 0,
    ensures
        encoding(groups_value(d)) == marked(d),
    decreases d.len(),
{
    let n = groups_value(d);
    let rest = d.drop_first();
    if d.len() == 1 {
        assert(groups_value(rest) == 0);
        assert(encoding(n) =~= marked(d));
    } else {
        assert(rest.last() == d.last());
        lemma_digits_encoding(rest);
        lemma_zero_value(rest);
        assert(n % 128 == d[0] as nat);
        assert(n / 128 == groups_value(rest));
        assert(encoding(n) == seq![(128 + n % 128) as u8] + encoding(n / 128));
        assert(encoding(n) =~= marked(d));
    }
}

/// The group sums of two runs of bytes agree where their groups agree.
proof fn lemma_same_groups(a: Seq<u8>, b: Seq<u8>)
    requires
        a.len() == b.len(),
        forall|i: int| 0 <= i < a.len() ==> #[trigger] a[i] % 128 == b[i] % 128,
    ensures
        groups_value(a) == groups_value(b),
    decreases a.len(),
{
    if a.len() > 0 {
        lemma_same_groups(a.drop_first(), b.drop_first());
    }
}

impl Vlq for BigUint {
    open spec fn wire(self) -> nat {
        biguint_value(self)
    }

    open spec fn wire_limit() -> Option<nat> {
        None
    }

    proof fn lemma_wire_fits(self) {
    }

    fn from_reader<R: ByteSource>(reader: &mut R) -> (r: Result<Self, VlqError>) {
        let ghost s = reader.unread();
        let ghost limit: Option<nat> = None;
        let mut digits: Vec<u8> = Vec::new();
        assert(s.skip(0) =~= s);
        loop
            invariant
                s == old(reader).unread(),
                limit is None,
                digits@.len() <= s.len(),
                forall|k: int| 0 <= k < digits@.len() ==> #[trigger] digits@[k] == s[k] % 128,
                forall|k: int| 0 <= k < digits@.len() ==> !is_last_byte(#[trigger] s[k]),
                reader.unread() == s.skip(digits@.len() as int),
                read_value(s, limit) == read_from(s, digits@.len(), limit),
            decreases s.len() - digits@.len(),
        {
            let ghost i = digits@.len();
            match reader.read_byte() {
                None => {
                    assert(i == s.len());
                    assert(s.skip(s.len() as int) =~= reader.unread());
                    return Err(VlqError::Truncated);
                },
                Some(b) => {
                    assert(b == s[i as int]);
                    assert(s.skip((i + 1) as int) =~= s.skip(i as int).drop_first());
                    digits.push(b % 0x80);
                    if b < 0x80 {
                        proof {
                            lemma_same_groups(s.take((i + 1) as int), digits@);
                        }
                        return match from_radix128(digits.as_slice()) {
                            Some(v) => Ok(v),
                            None => Err(VlqError::Overflow),
                        };
                    }
                },
            }
        }
    }

    fn to_writer<W: ByteSink>(self, writer: &mut W) -> (r: Result<(), VlqError>) {
        let mut digits = to_radix128(&self);
        let ghost d = digits@;
        proof {
            lemma_digits_encoding(d);
        }
        let last: usize = digits.len() - 1;
        let mut i: usize = 0;
        while i < last
            invariant
                last == d.len() - 1,
                i <= last,
                digits@.len() == d.len(),
                forall|k: int| 0 <= k < d.len() ==> #[trigger] d[k] < 128,
                forall|k: int| 0 <= k < i ==> #[trigger] digits@[k] == marked(d)[k],
                forall|k: int| i <= k < d.len() ==> #[trigger] digits@[k] == d[k],
            decreases last - i,
        {
            digits[i] = digits[i] + 0x80;
            i += 1;
        }
        assert(digits@ =~= marked(d));
        writer.write_bytes(digits.as_slice())
    }
}

} // verus!
