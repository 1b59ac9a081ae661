//! The standard wire format as mathematics: what a run of bytes stands for, which bytes a value
//! is written as, and what reading from a run of bytes yields.
use vstd::prelude::*;

use crate::standard::group_weight;
use crate::VlqError;

verus! {

/// Whether `b` closes a value: its top bit is clear.
pub open spec fn is_last_byte(b: u8) -> bool {
    b < 128
}

/// The number that the 7-bit groups of `s` stand for, the first byte holding the least
/// significant group. The top bit of each byte is not part of its group.
pub open spec fn groups_value(s: Seq<u8>) -> nat
    decreases s.len(),
{
    if s.len() == 0 {
        0
    } else {
        (s[0] % 128) as nat + 128 * groups_value(s.drop_first())
    }
}

/// The canonical encoding of `n`: as few 7-bit groups as hold it (one for zero), least
/// significant first, with the top bit set on every byte but the last.
pub open spec fn encoding(n: nat) -> Seq<u8>
    decreases n,
{
    if n < 128 {
        seq![n as u8]
    } else {
        seq![(128 + n % 128) as u8] + encoding(n / 128)
    }
}

/// Whether `n` is no larger than `limit`; `None` stands for no limit at all.
pub open spec fn fits(n: nat, limit: Option<nat>) -> bool {
    match limit {
        Some(m) => n <= m,
        None => true,
    }
}

/// What reading from `s` yields once its first `i` bytes have been taken, none of them closing
/// the value, together with the number of bytes taken in all.
///
/// The next byte is taken; if the value read so far no longer fits `limit`, reading fails with
/// `Overflow` right there. Otherwise a byte with a clear top bit ends the value. When `s` runs
/// out first, reading fails with `Truncated` having taken every byte.
pub open spec fn read_from(s: Seq<u8>, i: nat, limit: Option<nat>) -> (Result<nat, VlqError>, nat)
    decreases s.len() - i,
{
    if i >= s.len() {
        (Err(VlqError::Truncated), s.len())
    } else if !fits(groups_value(s.take((i + 1) as int)), limit) {
        (Err(VlqError::Overflow), i + 1)
    } else if is_last_byte(s[i as int]) {
        (Ok(groups_value(s.take((i + 1) as int))), i + 1)
    } else {
        read_from(s, i + 1, limit)
    }
}

/// What reading one value from the start of `s` yields, and how many bytes it takes.
pub open spec fn read_value(s: Seq<u8>, limit: Option<nat>) -> (Result<nat, VlqError>, nat) {
    read_from(s, 0, limit)
}

/// The canonical encoding stands for the value it encodes.
pub proof fn lemma_encoding_value(n: nat)
    ensures
        groups_value(encoding(n)) == n,
        encoding(n).len() >= 1,
    decreases n,
{
    let e = encoding(n);
    if n >= 128 {
        lemma_encoding_value(n / 128);
        assert(e.drop_first() =~= encoding(n / 128));
        assert(e[0] % 128 == n % 128);
        assert(n == n % 128 + 128 * (n / 128));
    } else {
        assert(e.drop_first() =~= Seq::<u8>::empty());
        assert(groups_value(e.drop_first()) == 0);
        assert(e[0] == n);
    }
}

} // verus!

verus! {

/// Every byte of the canonical encoding but the last has its top bit set; the last has it clear.
pub proof fn lemma_encoding_bytes(n: nat)
    ensures
        forall|k: int| 0 <= k < encoding(n).len() - 1 ==> !is_last_byte(#[trigger] encoding(n)[k]),
        is_last_byte(encoding(n).last()),
    decreases n,
{
    lemma_encoding_value(n);
    if n >= 128 {
        lemma_encoding_bytes(n / 128);
        lemma_encoding_value(n / 128);
        let e = encoding(n);
        let t = encoding(n / 128);
        assert(e =~= seq![(128 + n % 128) as u8] + t);
        assert forall|k: int| 0 <= k < e.len() - 1 implies !is_last_byte(#[trigger] e[k]) by {
            if k > 0 {
                assert(e[k] == t[k - 1]);
            }
        }
    }
}

/// The groups of a prefix never stand for more than the groups of the whole.
pub proof fn lemma_prefix_value_le(s: Seq<u8>, j: int)
    requires
        0 <= j <= s.len(),
    ensures
        groups_value(s.take(j)) <= groups_value(s),
    decreases s.len(),
{
    if j > 0 {
        lemma_prefix_value_le(s.drop_first(), j - 1);
        assert(s.take(j).drop_first() =~= s.drop_first().take(j - 1));
    }
}

/// Reading steps over bytes that neither close the value nor push it past the limit.
proof fn lemma_read_skips(s: Seq<u8>, i: nat, k: nat, limit: Option<nat>)
    requires
        i <= k < s.len(),
        forall|j: int|
            i <= j < k ==> !is_last_byte(#[trigger] s[j]) && fits(groups_value(s.take(j + 1)), limit),
    ensures
        read_from(s, i, limit) == read_from(s, k, limit),
    decreases k - i,
{
    if i < k {
        lemma_read_skips(s, i + 1, k, limit);
    }
}

/// Writing a value that fits and reading it back, from a source that may hold more bytes after
/// it, gives the value again and takes exactly the bytes that were written.
pub proof fn lemma_round_trip(n: nat, rest: Seq<u8>, limit: Option<nat>)
    requires
        fits(n, limit),
    ensures
        read_value(encoding(n) + rest, limit) == (Ok::<nat, VlqError>(n), encoding(n).len()),
{
    let e = encoding(n);
    let s = e + rest;
    let last = (e.len() - 1) as nat;
    lemma_encoding_value(n);
    lemma_encoding_bytes(n);
    assert forall|j: int| 0 <= j < e.len() implies #[trigger] s.take(j + 1) == e.take(j + 1)
        && groups_value(s.take(j + 1)) <= n by {
        assert(s.take(j + 1) =~= e.take(j + 1));
        lemma_prefix_value_le(e, j + 1);
    }
    assert forall|j: int| 0 <= j < last implies !is_last_byte(#[trigger] s[j]) && fits(
        groups_value(s.take(j + 1)),
        limit,
    ) by {
        assert(s[j] == e[j]);
        assert(s.take(j + 1) == e.take(j + 1));
    }
    lemma_read_skips(s, 0, last, limit);
    assert(s.take((last + 1) as int) == e.take((last + 1) as int));
    assert(e.take((last + 1) as int) =~= e);
    assert(s[last as int] == e.last());
}

/// Reading the encoding of a value that does not fit the limit fails with `Overflow`, whatever
/// follows it.
pub proof fn lemma_too_large(n: nat, rest: Seq<u8>, max: nat)
    requires
        n > max,
    ensures
        read_value(encoding(n) + rest, Some(max)).0 == Err::<nat, VlqError>(VlqError::Overflow),
{
    let e = encoding(n);
    let s = e + rest;
    lemma_encoding_value(n);
    lemma_encoding_bytes(n);
    assert(s.take(e.len() as int) =~= e);
    lemma_overflow_from(s, e, 0, max);
}

proof fn lemma_overflow_from(s: Seq<u8>, e: Seq<u8>, i: nat, max: nat)
    requires
        e.len() >= 1,
        i < e.len(),
        e.len() <= s.len(),
        s.take(e.len() as int) == e,
        groups_value(e) > max,
        forall|k: int| 0 <= k < e.len() - 1 ==> !is_last_byte(#[trigger] e[k]),
    ensures
        read_from(s, i, Some(max)).0 == Err::<nat, VlqError>(VlqError::Overflow),
    decreases e.len() - i,
{
    let p = s.take((i + 1) as int);
    assert(p =~= e.take((i + 1) as int)) by {
        assert forall|k: int| 0 <= k < i + 1 implies p[k] == e[k] by {
            assert(s[k] == s.take(e.len() as int)[k]);
        }
    }
    if i + 1 == e.len() {
        assert(e.take((i + 1) as int) =~= e);
    } else if fits(groups_value(p), Some(max)) {
        assert(s[i as int] == s.take(e.len() as int)[i as int]);
        lemma_overflow_from(s, e, i + 1, max);
    }
}

/// Reading a proper prefix of the encoding of a value that fits fails with `Truncated`, after
/// taking every byte of it.
pub proof fn lemma_truncated(n: nat, k: nat, limit: Option<nat>)
    requires
        fits(n, limit),
        k < encoding(n).len(),
    ensures
        read_value(encoding(n).take(k as int), limit) == (
            Err::<nat, VlqError>(VlqError::Truncated),
            k,
        ),
{
    let e = encoding(n);
    let s = e.take(k as int);
    lemma_encoding_value(n);
    lemma_encoding_bytes(n);
    if k > 0 {
        assert forall|j: int| 0 <= j < k implies !is_last_byte(#[trigger] s[j]) && fits(
            groups_value(s.take(j + 1)),
            limit,
        ) by {
            assert(s.take(j + 1) =~= e.take(j + 1));
            lemma_prefix_value_le(e, j + 1);
        }
        lemma_truncated_from(s, 0, limit);
    }
}

proof fn lemma_truncated_from(s: Seq<u8>, i: nat, limit: Option<nat>)
    requires
        i <= s.len(),
        forall|j: int|
            0 <= j < s.len() ==> !is_last_byte(#[trigger] s[j]) && fits(groups_value(s.take(j + 1)), limit),
    ensures
        read_from(s, i, limit) == (Err::<nat, VlqError>(VlqError::Truncated), s.len()),
    decreases s.len() - i,
{
    if i < s.len() {
        assert(!is_last_byte(s[i as int]));
        lemma_truncated_from(s, i + 1, limit);
    }
}

} // verus!

verus! {

/// Reading one value from `before` left `after` and yielded `r`: exactly as [`read_value`]
/// says, having taken the bytes it counts and no more.
pub open spec fn reads_as(
    before: Seq<u8>,
    limit: Option<nat>,
    after: Seq<u8>,
    r: Result<nat, VlqError>,
) -> bool {
    let (out, used) = read_value(before, limit);
    &&& r == out
    &&& after == before.skip(used as int)
}

} // verus!

verus! {

/// A value that reading yields fits the limit.
pub proof fn lemma_read_fits(s: Seq<u8>, i: nat, limit: Option<nat>)
    ensures
        read_from(s, i, limit).0 matches Ok(v) ==> fits(v, limit),
    decreases s.len() - i,
{
    if i < s.len() && fits(groups_value(s.take((i + 1) as int)), limit) && !is_last_byte(
        s[i as int],
    ) {
        lemma_read_fits(s, i + 1, limit);
    }
}

} // verus!

verus! {

/// The canonical encoding takes as few bytes as hold the value: `k` bytes for the values that
/// need `k` groups of seven bits.
pub proof fn lemma_encoding_len(n: nat, k: nat)
    requires
        k >= 1,
        n < group_weight(k),
        k > 1 ==> n >= group_weight((k - 1) as nat),
    ensures
        encoding(n).len() == k,
    decreases k,
{
    assert(group_weight(0) == 1);
    assert(group_weight(k) == 128 * group_weight((k - 1) as nat));
    if k > 1 {
        assert(n >= 128) by {
            lemma_group_weight_at_least((k - 1) as nat);
        }
        assert(n / 128 < group_weight((k - 1) as nat));
        assert(k > 2 ==> n / 128 >= group_weight((k - 2) as nat));
        lemma_encoding_len(n / 128, (k - 1) as nat);
    }
}

proof fn lemma_group_weight_at_least(k: nat)
    requires
        k >= 1,
    ensures
        group_weight(k) >= 128,
    decreases k,
{
    assert(group_weight(0) == 1);
    if k > 1 {
        lemma_group_weight_at_least((k - 1) as nat);
    }
}

} // verus!
