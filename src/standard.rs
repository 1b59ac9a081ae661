//! The standard codec on `u128` magnitudes: the encoder, and a decoder that takes one byte at a
//! time and says after each whether the value is complete.
use vstd::prelude::*;

use crate::stream::{writes_as, ByteSink, ByteSource};
use crate::wire::{
    encoding, groups_value, is_last_byte, lemma_read_fits, read_from, read_value, reads_as,
};
use crate::VlqError;

verus! {

/// `128` to the power `k`: the weight of the group in byte `k`.
pub open spec fn group_weight(k: nat) -> nat
    decreases k,
{
    if k == 0 {
        1
    } else {
        128 * group_weight((k - 1) as nat)
    }
}

/// Appending a byte adds its group at the weight of its position.
pub proof fn lemma_push_value(s: Seq<u8>, b: u8)
    ensures
        groups_value(s.push(b)) == groups_value(s) + (b % 128) as nat * group_weight(s.len()),
    decreases s.len(),
{
    if s.len() > 0 {
        lemma_push_value(s.drop_first(), b);
        assert(s.push(b).drop_first() =~= s.drop_first().push(b));
        let w = group_weight((s.len() - 1) as nat);
        let g = (b % 128) as nat;
        assert(s.push(b)[0] == s[0]);
        assert(s.drop_first().len() == s.len() - 1);
        assert(group_weight(s.len()) == 128 * w);
        assert(groups_value(s.push(b)) == (s[0] % 128) as nat + 128 * groups_value(
            s.drop_first().push(b),
        ));
        assert(groups_value(s) == (s[0] % 128) as nat + 128 * groups_value(s.drop_first()));
        let a = groups_value(s.drop_first());
        assert(groups_value(s.drop_first().push(b)) == a + g * w);
        assert(128 * (a + g * w) == 128 * a + g * (128 * w)) by (nonlinear_arith);
    } else {
        assert(s.push(b).drop_first() =~= Seq::<u8>::empty());
        assert(s.push(b)[0] == b);
        assert(groups_value(s.push(b).drop_first()) == 0);
        assert(groups_value(s) == 0);
        assert(group_weight(s.len()) == 1);
        assert((b % 128) as nat * 1 == (b % 128) as nat);
    }
}

/// Writes `n` in the standard format: the canonical encoding, least significant group first.
pub fn encode_value(n: u128) -> (r: Vec<u8>)
    ensures
        r@ == encoding(n as nat),
{
    let mut out: Vec<u8> = Vec::new();
    let mut rest: u128 = n;
    while rest >= 0x80
        invariant
            out@ + encoding(rest as nat) == encoding(n as nat),
        decreases rest,
    {
        let byte: u8 = (0x80 + rest % 0x80) as u8;
        proof {
            let e = encoding(rest as nat);
            assert(e == seq![byte] + encoding((rest / 0x80) as nat));
            assert(out@.push(byte) + encoding((rest / 0x80) as nat) =~= out@ + e);
        }
        out.push(byte);
        rest = rest / 0x80;
    }
    proof {
        assert(out@.push(rest as u8) =~= out@ + encoding(rest as nat));
    }
    out.push(rest as u8);
    out
}

/// What the decoder says after a byte.
#[derive(Debug, Clone, Copy, PartialEq, Eq, Structural)]
pub enum Step {
    /// The byte did not close the value: another one is needed.
    More,
    /// The byte closed the value, which is this.
    Done(u128),
    /// The value no longer fits the limit.
    Overflow,
}

/// Takes the bytes of one value in the standard format one at a time, checking after each that
/// the value so far still fits the limit it was made with.
pub struct VlqDecoder {
    max: u128,
    value: u128,
    weight: u128,
    weight_past_u128: bool,
    taken: Ghost<Seq<u8>>,
}

impl VlqDecoder {
    /// The largest value this decoder accepts.
    pub closed spec fn limit(&self) -> nat {
        self.max as nat
    }

    /// The bytes taken so far.
    pub closed spec fn taken(&self) -> Seq<u8> {
        self.taken@
    }

    /// The decoder is ready for another byte: none of the bytes taken closed the value, and
    /// the value so far fits.
    pub closed spec fn wf(&self) -> bool {
        &&& self.value == groups_value(self.taken@)
        &&& self.value <= self.max
        &&& self.weight >= 1
        &&& forall|k: int| 0 <= k < self.taken@.len() ==> !is_last_byte(#[trigger] self.taken@[k])
        &&& !self.weight_past_u128 ==> self.weight == group_weight(self.taken@.len())
        &&& self.weight_past_u128 ==> group_weight(self.taken@.len()) > u128::MAX
    }

    /// A decoder that has taken nothing yet and accepts values up to `max`.
    pub fn new(max: u128) -> (r: Self)
        ensures
            r.wf(),
            r.limit() == max,
            r.taken() == Seq::<u8>::empty(),
    {
        VlqDecoder { max, value: 0, weight: 1, weight_past_u128: false, taken: Ghost(Seq::empty()) }
    }

    /// Takes the next byte. The result is `Overflow` as soon as the value so far passes the
    /// limit, `Done` with the value when the byte closes it, and `More` otherwise.
    pub fn push(&mut self, b: u8) -> (r: Step)
        requires
            old(self).wf(),
        ensures
            final(self).limit() == old(self).limit(),
            ({
                let v = groups_value(old(self).taken().push(b));
                if v > old(self).limit() {
                    r == Step::Overflow
                } else if is_last_byte(b) {
                    r == Step::Done(v as u128)
                } else {
                    &&& r == Step::More
                    &&& final(self).wf()
                    &&& final(self).taken() == old(self).taken().push(b)
                }
            }),
    {
        let ghost old_taken = self.taken@;
        let ghost w = group_weight(old_taken.len());
        proof {
            lemma_push_value(old_taken, b);
        }
        let g: u128 = (b % 0x80) as u128;
        assert(g as nat == (b % 128) as nat);
        if g == 0 {
            assert(g as nat * w == 0) by (nonlinear_arith)
                requires
                    g == 0,
            ;
        }
        if g != 0 {
            if self.weight_past_u128 {
                proof {
                    lemma_weighted_at_least(g as nat, w);
                }
                return Step::Overflow;
            }
            let room: u128 = (self.max - self.value) / self.weight;
            if g > room {
                proof {
                    lemma_past_room(g as nat, w, (self.max - self.value) as nat);
                }
                return Step::Overflow;
            }
            proof {
                lemma_within_room(g as nat, w, (self.max - self.value) as nat);
                assert(self.weight as nat == w);
            }
            self.value = self.value + g * self.weight;
        }
        assert(groups_value(old_taken.push(b)) == self.value);
        self.taken = Ghost(old_taken.push(b));
        if b < 0x80 {
            return Step::Done(self.value);
        }
        if !self.weight_past_u128 {
            if self.weight <= u128::MAX / 0x80 {
                self.weight = self.weight * 0x80;
            } else {
                proof {
                    lemma_past_room(self.weight as nat, 128, u128::MAX as nat);
                }
                self.weight_past_u128 = true;
            }
        } else {
            proof {
                lemma_weighted_at_least(128, w);
            }
        }
        proof {
            assert(group_weight(self.taken@.len()) == 128 * w);
            assert forall|k: int| 0 <= k < self.taken@.len() implies !is_last_byte(
                #[trigger] self.taken@[k],
            ) by {
                if k < old_taken.len() {
                    assert(self.taken@[k] == old_taken[k]);
                }
            }
        }
        Step::More
    }
}

proof fn lemma_weighted_at_least(g: nat, w: nat)
    requires
        g >= 1,
    ensures
        g * w >= w,
{
    assert(g * w >= 1 * w) by (nonlinear_arith)
        requires
            g >= 1,
    ;
}

proof fn lemma_past_room(g: nat, w: nat, m: nat)
    requires
        w > 0,
        g > m / w,
    ensures
        g * w > m,
{
    assert(g * w > m) by (nonlinear_arith)
        requires
            w > 0,
            g > m / w,
    {
        assert(m == w * (m / w) + m % w);
        assert(g >= m / w + 1);
        assert(g * w >= (m / w + 1) * w);
    }
}

proof fn lemma_within_room(g: nat, w: nat, m: nat)
    requires
        w > 0,
        g <= m / w,
    ensures
        g * w <= m,
{
    assert(g * w <= m) by (nonlinear_arith)
        requires
            w > 0,
            g <= m / w,
    {
        assert(m == w * (m / w) + m % w);
        assert(g * w <= (m / w) * w);
    }
}

} // verus!

verus! {

/// Reads one value in the standard format from `reader`, accepting values up to `max`.
pub fn read_limited<R: ByteSource>(reader: &mut R, max: u128) -> (r: Result<u128, VlqError>)
    ensures
        reads_as(
            old(reader).unread(),
            Some(max as nat),
            final(reader).unread(),
            match r {
                Ok(v) => Ok(v as nat),
                Err(e) => Err(e),
            },
        ),
        r matches Ok(v) ==> v <= max,
{
    let ghost s = reader.unread();
    proof {
        lemma_read_fits(s, 0, Some(max as nat));
    }
    let ghost limit: Option<nat> = Some(max as nat);
    let mut decoder = VlqDecoder::new(max);
    let ghost mut i: nat = 0;
    assert(s.take(0) =~= Seq::<u8>::empty());
    assert(s.skip(0) =~= s);
    loop
        invariant
            i <= s.len(),
            limit == Some(max as nat),
            s == old(reader).unread(),
            read_value(s, limit).0 matches Ok(v) ==> v <= max,
            decoder.wf(),
            decoder.limit() == max,
            decoder.taken() == s.take(i as int),
            reader.unread() == s.skip(i as int),
            read_value(s, limit) == read_from(s, i, limit),
        decreases s.len() - i,
    {
        match reader.read_byte() {
            None => {
                assert(i == s.len());
                assert(s.skip(s.len() as int) =~= reader.unread());
                assert(read_from(s, i, limit) == (Err::<nat, VlqError>(VlqError::Truncated), s.len()));
                return Err(VlqError::Truncated);
            },
            Some(b) => {
                assert(b == s[i as int]);
                assert(s.take((i + 1) as int) =~= s.take(i as int).push(b));
                assert(s.skip((i + 1) as int) =~= s.skip(i as int).drop_first());
                match decoder.push(b) {
                    Step::Done(v) => {
                        assert(groups_value(s.take((i + 1) as int)) == v as nat);
                        assert(read_from(s, i, limit) == (Ok::<nat, VlqError>(v as nat), i + 1));
                        return Ok(v);
                    },
                    Step::Overflow => {
                        assert(read_from(s, i, limit) == (Err::<nat, VlqError>(VlqError::Overflow), i + 1));
                        return Err(VlqError::Overflow);
                    },
                    Step::More => {
                        proof {
                            i = i + 1;
                        }
                    },
                }
            },
        }
    }
}

/// Writes `n` in the standard format to `writer`.
pub fn write_value<W: ByteSink>(n: u128, writer: &mut W) -> (r: Result<(), VlqError>)
    ensures
        writes_as(*old(writer), encoding(n as nat), *final(writer), r),
{
    let bytes = encode_value(n);
    writer.write_bytes(bytes.as_slice())
}

} // verus!
