//! The fast codec: a `u64` in one to nine bytes, whose first byte announces the length in
//! unary.
//!
//! The values are split into nine tiers. Tier `t` (for `t` up to eight) holds the next `2^(7t)`
//! values after those of the tiers below it, and tier nine holds the rest. A value of tier `t`
//! is written as `t` bytes, in big-endian order: its offset within the tier, with one set bit
//! above it that tells the length. Read as bits, the first byte starts with `t - 1` zero bits
//! and then a one (`1xxx_xxxx` for one byte, `01xx_xxxx` for two, up to `0000_0001` for eight);
//! a first byte of zero announces nine bytes, the eight after it holding the offset.
use vstd::arithmetic::div_mod::{lemma_div_denominator, lemma_fundamental_div_mod};
use vstd::prelude::*;

use crate::standard::group_weight;

verus! {

/// `256` to the power `k`: the weight of a byte `k` places from the end of a big-endian run.
pub open spec fn byte_weight(k: nat) -> nat
    decreases k,
{
    if k == 0 {
        1
    } else {
        256 * byte_weight((k - 1) as nat)
    }
}

/// The number that `s` stands for, read as big-endian bytes.
pub open spec fn be_value(s: Seq<u8>) -> nat
    decreases s.len(),
{
    if s.len() == 0 {
        0
    } else {
        be_value(s.drop_last()) * 256 + s.last() as nat
    }
}

/// The last `len` bytes of `w` in big-endian order.
pub open spec fn be_bytes(w: nat, len: nat) -> Seq<u8> {
    Seq::new(len, |i: int| ((w / byte_weight((len - 1 - i) as nat)) % 256) as u8)
}

/// The first value of tier `t`: the count of the values in all tiers below it.
pub open spec fn tier_start(t: nat) -> nat
    decreases t,
{
    if t <= 1 {
        0
    } else {
        tier_start((t - 1) as nat) + group_weight((t - 1) as nat)
    }
}

/// The bit that tier `t` sets above the offset to announce its length: `2^(7t)` for tiers one
/// to eight; tier nine sets none.
pub open spec fn tier_marker(t: nat) -> nat {
    if t <= 8 {
        group_weight(t)
    } else {
        0
    }
}

/// The tier of `v`, searching from tier `t` up: the first whose range holds `v`.
pub open spec fn tier_from(v: u64, t: nat) -> nat
    decreases 9 - t,
{
    if t >= 9 || v < tier_start(t + 1) {
        t
    } else {
        tier_from(v, t + 1)
    }
}

/// The tier of `v`: the lowest whose range holds it.
pub open spec fn tier_of(v: u64) -> nat {
    tier_from(v, 1)
}

/// The word that the bytes of `v` hold: its offset within its tier, below the tier's marker.
pub open spec fn fast_word(v: u64) -> nat {
    tier_marker(tier_of(v)) + (v - tier_start(tier_of(v))) as nat
}

/// The nine-byte buffer that `v` is encoded as: the word of `v` over as many bytes as its tier
/// says, in big-endian order, then zeros.
pub open spec fn fast_encoding(v: u64) -> Seq<u8> {
    let t = tier_of(v);
    Seq::new(9, |i: int| if i < t { be_bytes(fast_word(v), t)[i] } else { 0u8 })
}

/// The number of bits that `b` takes: all bits up to its highest set one.
pub open spec fn bit_length(b: nat) -> nat
    decreases b,
{
    if b == 0 {
        0
    } else {
        1 + bit_length(b / 2)
    }
}

/// The length that a first byte announces: one more than the number of its leading zero bits.
pub open spec fn announced_len(b: u8) -> nat {
    (9 - bit_length(b as nat)) as nat
}

/// Which first bytes announce which length.
pub proof fn lemma_announced_len(b: u8)
    ensures
        announced_len(b) == if b >= 0b1000_0000 {
            1nat
        } else if b >= 0b0100_0000 {
            2
        } else if b >= 0b0010_0000 {
            3
        } else if b >= 0b0001_0000 {
            4
        } else if b >= 0b0000_1000 {
            5
        } else if b >= 0b0000_0100 {
            6
        } else if b >= 0b0000_0010 {
            7
        } else if b >= 0b0000_0001 {
            8
        } else {
            9
        },
{
    reveal_with_fuel(bit_length, 9);
}

/// The value that a buffer stands for: the length comes from the first byte; the bytes it
/// covers, read big-endian without the marker, are the offset within that tier.
pub open spec fn fast_decoding(b: Seq<u8>) -> int {
    let t = announced_len(b[0]);
    tier_start(t) + be_value(b.take(t as int)) - tier_marker(t)
}

proof fn lemma_byte_weight_positive(k: nat)
    ensures
        byte_weight(k) > 0,
    decreases k,
{
    if k > 0 {
        lemma_byte_weight_positive((k - 1) as nat);
    }
}

/// Big-endian bytes read back give the number they were taken from, when it fits them.
pub proof fn lemma_be_round_trip(w: nat, len: nat)
    requires
        w < byte_weight(len),
    ensures
        be_value(be_bytes(w, len)) == w,
    decreases len,
{
    let s = be_bytes(w, len);
    if len > 0 {
        let up = w / 256;
        assert(w == 256 * up + w % 256) by {
            lemma_fundamental_div_mod(w as int, 256);
        }
        assert(up < byte_weight((len - 1) as nat));
        lemma_be_round_trip(up, (len - 1) as nat);
        assert forall|i: int| 0 <= i < len - 1 implies #[trigger] s.drop_last()[i] == be_bytes(
            up,
            (len - 1) as nat,
        )[i] by {
            let k = (len - 2 - i) as nat;
            assert(byte_weight((len - 1 - i) as nat) == 256 * byte_weight(k));
            lemma_byte_weight_positive(k);
            lemma_div_denominator(w as int, 256, byte_weight(k) as int);
        }
        assert(s.drop_last() =~= be_bytes(up, (len - 1) as nat));
        assert(byte_weight(0) == 1);
        assert(s[len - 1] == ((w / byte_weight(0)) % 256) as u8);
        assert(w / 1 == w);
        assert(s.last() == w % 256);
    }
}

} // verus!

verus! {

/// Where the tiers start, and the markers they set.
pub proof fn lemma_tier_table()
    ensures
        tier_start(1) == 0,
        tier_start(2) == 0x80,
        tier_start(3) == 0x4080,
        tier_start(4) == 0x20_4080,
        tier_start(5) == 0x1020_4080,
        tier_start(6) == 0x8_1020_4080,
        tier_start(7) == 0x408_1020_4080,
        tier_start(8) == 0x2_0408_1020_4080,
        tier_start(9) == 0x102_0408_1020_4080,
        tier_marker(1) == 0x80,
        tier_marker(2) == 0x4000,
        tier_marker(3) == 0x20_0000,
        tier_marker(4) == 0x1000_0000,
        tier_marker(5) == 0x8_0000_0000,
        tier_marker(6) == 0x400_0000_0000,
        tier_marker(7) == 0x2_0000_0000_0000,
        tier_marker(8) == 0x100_0000_0000_0000,
        tier_marker(9) == 0,
{
    reveal_with_fuel(tier_start, 10);
    reveal_with_fuel(group_weight, 10);
}

/// The tier of each value: the tiers cover the values of `u64` in order, one range after the
/// other.
pub proof fn lemma_tier_of(v: u64)
    ensures
        tier_of(v) == if v < 0x80 {
            1nat
        } else if v < 0x4080 {
            2
        } else if v < 0x20_4080 {
            3
        } else if v < 0x1020_4080 {
            4
        } else if v < 0x8_1020_4080 {
            5
        } else if v < 0x408_1020_4080 {
            6
        } else if v < 0x2_0408_1020_4080 {
            7
        } else if v < 0x102_0408_1020_4080 {
            8
        } else {
            9
        },
{
    lemma_tier_table();
    reveal_with_fuel(tier_from, 10);
}

proof fn lemma_byte_weight_table()
    ensures
        byte_weight(0) == 1,
        byte_weight(1) == 0x100,
        byte_weight(2) == 0x1_0000,
        byte_weight(3) == 0x100_0000,
        byte_weight(4) == 0x1_0000_0000,
        byte_weight(5) == 0x100_0000_0000,
        byte_weight(6) == 0x1_0000_0000_0000,
        byte_weight(7) == 0x100_0000_0000_0000,
        byte_weight(8) == 0x1_0000_0000_0000_0000,
        byte_weight(9) == 0x100_0000_0000_0000_0000,
{
    reveal_with_fuel(byte_weight, 10);
}

/// Decoding the encoding of any value gives the value again.
pub proof fn lemma_fast_round_trip(v: u64)
    ensures
        fast_decoding(fast_encoding(v)) == v,
        announced_len(fast_encoding(v)[0]) == tier_of(v),
        fast_word(v) < byte_weight(tier_of(v)),
        fast_word(v) <= u64::MAX,
        1 <= tier_of(v) <= 9,
        be_value(fast_encoding(v).take(tier_of(v) as int)) == fast_word(v),
{
    let t = tier_of(v);
    let w = fast_word(v);
    let e = fast_encoding(v);
    lemma_tier_table();
    lemma_tier_of(v);
    lemma_byte_weight_table();
    assert(w < byte_weight(t));
    assert(e.take(t as int) =~= be_bytes(w, t));
    lemma_be_round_trip(w, t);
    let top = w / byte_weight((t - 1) as nat);
    assert(e[0] == (top % 256) as u8);
    lemma_announced_len(e[0]);
    if t == 1 {
        assert(0x80 <= top < 0x100);
    } else if t == 2 {
        assert(0x40 <= top < 0x80);
    } else if t == 3 {
        assert(0x20 <= top < 0x40);
    } else if t == 4 {
        assert(0x10 <= top < 0x20);
    } else if t == 5 {
        assert(0x08 <= top < 0x10);
    } else if t == 6 {
        assert(0x04 <= top < 0x08);
    } else if t == 7 {
        assert(0x02 <= top < 0x04);
    } else if t == 8 {
        assert(top == 1);
    } else {
        assert(top == 0);
    }
}

} // verus!

verus! {

/// The length that the first byte `n` announces.
pub fn decode_len(n: u8) -> (r: u8)
    ensures
        r as nat == announced_len(n),
{
    proof {
        lemma_announced_len(n);
    }
    if n >= 0b1000_0000 {
        1
    } else if n >= 0b0100_0000 {
        2
    } else if n >= 0b0010_0000 {
        3
    } else if n >= 0b0001_0000 {
        4
    } else if n >= 0b0000_1000 {
        5
    } else if n >= 0b0000_0100 {
        6
    } else if n >= 0b0000_0010 {
        7
    } else if n >= 0b0000_0001 {
        8
    } else {
        9
    }
}

/// The length in bytes of the encoding of `n`: its tier.
pub fn encode_len(n: u64) -> (r: u8)
    ensures
        r as nat == tier_of(n),
{
    proof {
        lemma_tier_of(n);
    }
    if n < 0x80 {
        1
    } else if n < 0x4080 {
        2
    } else if n < 0x20_4080 {
        3
    } else if n < 0x1020_4080 {
        4
    } else if n < 0x8_1020_4080 {
        5
    } else if n < 0x408_1020_4080 {
        6
    } else if n < 0x2_0408_1020_4080 {
        7
    } else if n < 0x102_0408_1020_4080 {
        8
    } else {
        9
    }
}

/// The first value of tier `t` and the marker it sets.
fn tier_bounds(t: u8) -> (r: (u64, u64))
    requires
        1 <= t <= 9,
    ensures
        r.0 as nat == tier_start(t as nat),
        r.1 as nat == tier_marker(t as nat),
{
    proof {
        lemma_tier_table();
    }
    match t {
        1 => (0, 0x80),
        2 => (0x80, 0x4000),
        3 => (0x4080, 0x20_0000),
        4 => (0x20_4080, 0x1000_0000),
        5 => (0x1020_4080, 0x8_0000_0000),
        6 => (0x8_1020_4080, 0x400_0000_0000),
        7 => (0x408_1020_4080, 0x2_0000_0000_0000),
        8 => (0x2_0408_1020_4080, 0x100_0000_0000_0000),
        _ => (0x102_0408_1020_4080, 0),
    }
}

/// A value in the fast format: nine bytes, of which the first [`FastVlq::len`] are the
/// encoding and the rest are zero.
#[derive(Clone, Copy)]
pub struct FastVlq([u8; 9]);

impl View for FastVlq {
    type V = Seq<u8>;

    closed spec fn view(&self) -> Seq<u8> {
        self.0@
    }
}

impl FastVlq {
    /// Every buffer is the encoding of some value.
    #[verifier::type_invariant]
    closed spec fn is_encoding(self) -> bool {
        exists|v: u64| self.0@ == fast_encoding(v)
    }

    /// The number of bytes that the encoding takes.
    pub fn len(&self) -> (r: u8)
        ensures
            r as nat == announced_len(self@[0]),
    {
        decode_len(self.0[0])
    }
}

impl core::ops::Deref for FastVlq {
    type Target = [u8];

    /// All nine bytes of the buffer.
    fn deref(&self) -> &[u8] {
        self.0.as_slice()
    }
}

/// Encodes `n` in the fast format.
pub fn encode(n: u64) -> (r: FastVlq)
    ensures
        r@ == fast_encoding(n),
        announced_len(r@[0]) == tier_of(n),
{
    proof {
        lemma_fast_round_trip(n);
        lemma_tier_table();
        lemma_tier_of(n);
    }
    let len = encode_len(n);
    let (start, marker) = tier_bounds(len);
    let word: u64 = marker + (n - start);
    assert(word as nat == fast_word(n));
    let mut out = [0u8; 9];
    let mut rest: u64 = word;
    let mut i: usize = len as usize;
    proof {
        lemma_byte_weight_positive(0);
        assert(word as nat / 1 == word as nat);
    }
    while i > 0
        invariant
            1 <= len <= 9,
            i <= len,
            word as nat == fast_word(n),
            len as nat == tier_of(n),
            rest as nat == word as nat / byte_weight((len - i) as nat),
            forall|k: int| 0 <= k < 9 && (k < i || k >= len) ==> #[trigger] out@[k] == 0u8,
            forall|k: int| i <= k < len ==> #[trigger] out@[k] == be_bytes(word as nat, len as nat)[k],
        decreases i,
    {
        i = i - 1;
        proof {
            let k = (len - 1 - i) as nat;
            lemma_byte_weight_positive(k);
            lemma_div_denominator(word as int, byte_weight(k) as int, 256);
            assert(byte_weight(k + 1) == 256 * byte_weight(k));
            assert(byte_weight(k) * 256 == 256 * byte_weight(k));
        }
        out[i] = (rest % 256) as u8;
        rest = rest / 256;
    }
    assert(out@ =~= fast_encoding(n));
    FastVlq(out)
}

/// Decodes a value in the fast format.
pub fn decode(n: FastVlq) -> (r: u64)
    ensures
        r as int == fast_decoding(n@),
{
    proof {
        use_type_invariant(&n);
    }
    let ghost v = choose|v: u64| n.0@ == fast_encoding(v);
    proof {
        lemma_fast_round_trip(v);
        lemma_tier_table();
        lemma_byte_weight_table();
    }
    let len = n.len();
    let (start, marker) = tier_bounds(len);
    let ghost t = len as nat;
    let ghost b = n.0@.take(t as int);
    let mut word: u64 = 0;
    let mut i: usize = 0;
    assert(b.take(0) =~= Seq::<u8>::empty());
    while i < len as usize
        invariant
            t == tier_of(v),
            n.0@ == fast_encoding(v),
            b == n.0@.take(t as int),
            be_value(b) == fast_word(v),
            fast_word(v) < byte_weight(t),
            fast_word(v) <= u64::MAX,
            1 <= t <= 9,
            len as nat == t,
            i <= t,
            word as nat == be_value(b.take(i as int)),
        decreases t - i,
    {
        proof {
            lemma_be_prefix(b, (i + 1) as nat);
            lemma_byte_weight_positive((t - i - 1) as nat);
            let x = be_value(b.take((i + 1) as int));
            let m = byte_weight((t - i - 1) as nat);
            assert(x <= x * m) by (nonlinear_arith)
                requires
                    m >= 1,
            ;
            assert(b.take((i + 1) as int).drop_last() =~= b.take(i as int));
            assert(b[i as int] == n.0@[i as int]);
            assert(x == word as nat * 256 + b[i as int] as nat);
        }
        word = word * 256 + n.0[i] as u64;
        i = i + 1;
    }
    assert(b.take(t as int) =~= b);
    start + (word - marker)
}

/// A prefix of a big-endian run stands for no more than the whole, scaled down by the bytes
/// left out.
proof fn lemma_be_prefix(s: Seq<u8>, k: nat)
    requires
        k <= s.len(),
    ensures
        be_value(s.take(k as int)) * byte_weight((s.len() - k) as nat) <= be_value(s),
    decreases s.len() - k,
{
    lemma_byte_weight_positive((s.len() - k) as nat);
    if k == s.len() {
        assert(s.take(k as int) =~= s);
    } else {
        lemma_be_prefix(s, k + 1);
        let a = be_value(s.take(k as int));
        let c = be_value(s.take((k + 1) as int));
        let m = byte_weight((s.len() - k - 1) as nat);
        assert(s.take((k + 1) as int).drop_last() =~= s.take(k as int));
        assert(c == a * 256 + s[k as int] as nat);
        assert(a * (256 * m) <= c * m) by (nonlinear_arith)
            requires
                c == a * 256 + s[k as int] as nat,
                m >= 0,
        ;
    }
}

} // verus!

verus! {

/// The tiers meet exactly: the last value of tier `t` is encoded in `t` bytes, and the value
/// after it in `t + 1`.
pub proof fn lemma_tier_boundaries(t: nat)
    requires
        1 <= t <= 8,
    ensures
        tier_of((tier_start(t + 1) - 1) as u64) == t,
        tier_of(tier_start(t + 1) as u64) == t + 1,
        announced_len(fast_encoding((tier_start(t + 1) - 1) as u64)[0]) == t,
        announced_len(fast_encoding(tier_start(t + 1) as u64)[0]) == t + 1,
{
    lemma_tier_table();
    lemma_tier_of((tier_start(t + 1) - 1) as u64);
    lemma_tier_of(tier_start(t + 1) as u64);
    lemma_fast_round_trip((tier_start(t + 1) - 1) as u64);
    lemma_fast_round_trip(tier_start(t + 1) as u64);
}

} // verus!
