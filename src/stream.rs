//! Where bytes come from and go to: the two capabilities the standard codec needs of a stream,
//! and an in-memory cursor that offers both.
use vstd::prelude::*;

use crate::VlqError;

verus! {

/// A source that hands out one byte at a time.
pub trait ByteSource {
    /// The bytes that the source will hand out, in order.
    spec fn unread(&self) -> Seq<u8>;

    /// Takes the next byte; `None` once the source has run out.
    fn read_byte(&mut self) -> (r: Option<u8>)
        ensures
            old(self).unread().len() == 0 ==> r is None
                && final(self).unread() == old(self).unread(),
            old(self).unread().len() > 0 ==> r == Some(old(self).unread()[0])
                && final(self).unread() == old(self).unread().drop_first(),
    ;
}

/// A sink that takes a run of bytes at once, or refuses the whole of it.
pub trait ByteSink: Sized {
    /// Whether `after` is `before` with `bytes` written to it.
    spec fn wrote(before: Self, bytes: Seq<u8>, after: Self) -> bool;

    /// Whether the sink takes `n` more bytes.
    spec fn accepts(&self, n: nat) -> bool;

    /// Writes all of `bytes`, or nothing when the sink refuses them.
    fn write_bytes(&mut self, bytes: &[u8]) -> (r: Result<(), VlqError>)
        ensures
            old(self).accepts(bytes@.len()) ==> r is Ok && Self::wrote(
                *old(self),
                bytes@,
                *final(self),
            ),
            !old(self).accepts(bytes@.len()) ==> r == Err::<(), VlqError>(VlqError::Rejected)
                && *final(self) == *old(self),
    ;
}

/// The outcome of writing `bytes` to `before`: all of them, or none and `Rejected`.
pub open spec fn writes_as<W: ByteSink>(
    before: W,
    bytes: Seq<u8>,
    after: W,
    r: Result<(), VlqError>,
) -> bool {
    if before.accepts(bytes.len()) {
        r is Ok && W::wrote(before, bytes, after)
    } else {
        r == Err::<(), VlqError>(VlqError::Rejected) && after == before
    }
}

/// A vector is written to by appending.
impl ByteSink for Vec<u8> {
    open spec fn wrote(before: Self, bytes: Seq<u8>, after: Self) -> bool {
        after@ == before@ + bytes
    }

    open spec fn accepts(&self, n: nat) -> bool {
        true
    }

    fn write_bytes(&mut self, bytes: &[u8]) -> (r: Result<(), VlqError>) {
        let ghost start = self@;
        let mut i: usize = 0;
        while i < bytes.len()
            invariant
                i <= bytes@.len(),
                self@ == start + bytes@.take(i as int),
            decreases bytes@.len() - i,
        {
            self.push(bytes[i]);
            i += 1;
            assert(self@ =~= start + bytes@.take(i as int));
        }
        assert(bytes@.take(i as int) =~= bytes@);
        Ok(())
    }
}

/// `data` with `bytes` written over it from index `pos` on. Where the write starts past the
/// end, the gap is filled with zeros; where it runs past the end, the data grows.
pub open spec fn overwrite(data: Seq<u8>, pos: nat, bytes: Seq<u8>) -> Seq<u8> {
    let len = if data.len() > pos + bytes.len() {
        data.len()
    } else {
        pos + bytes.len()
    };
    Seq::new(
        len,
        |i: int|
            if pos <= i < pos + bytes.len() {
                bytes[i - pos]
            } else if i < data.len() {
                data[i]
            } else {
                0u8
            },
    )
}

/// A vector of bytes with a position: reads take bytes from the position on, writes go over
/// the bytes from the position on and extend the vector where they run past its end. Both move
/// the position past the bytes they handled.
pub struct Cursor {
    inner: Vec<u8>,
    pos: u64,
}

impl Cursor {
    /// The bytes held.
    pub closed spec fn data(&self) -> Seq<u8> {
        self.inner@
    }

    /// The position.
    pub closed spec fn pos(&self) -> nat {
        self.pos as nat
    }

    /// A cursor over `inner`, at position zero.
    pub fn new(inner: Vec<u8>) -> (r: Cursor)
        ensures
            r.data() == inner@,
            r.pos() == 0,
    {
        Cursor { inner, pos: 0 }
    }

    /// The position.
    pub fn position(&self) -> (r: u64)
        ensures
            r as nat == self.pos(),
    {
        self.pos
    }

    /// Moves to `pos`, which may lie past the end.
    pub fn set_position(&mut self, pos: u64)
        ensures
            final(self).pos() == pos as nat,
            final(self).data() == old(self).data(),
    {
        self.pos = pos;
    }

    /// The bytes held.
    pub fn get_ref(&self) -> (r: &Vec<u8>)
        ensures
            r@ == self.data(),
    {
        &self.inner
    }

    /// Gives up the cursor for the bytes it holds.
    pub fn into_inner(self) -> (r: Vec<u8>)
        ensures
            r@ == self.data(),
    {
        self.inner
    }
}

impl ByteSource for Cursor {
    open spec fn unread(&self) -> Seq<u8> {
        if self.pos() < self.data().len() {
            self.data().skip(self.pos() as int)
        } else {
            Seq::empty()
        }
    }

    fn read_byte(&mut self) -> (r: Option<u8>) {
        if self.pos < self.inner.len() as u64 {
            let b = self.inner[self.pos as usize];
            let ghost before = self.inner@.skip(self.pos as int);
            self.pos = self.pos + 1;
            assert(self.inner@.skip(self.pos as int) =~= before.drop_first());
            Some(b)
        } else {
            None
        }
    }
}

impl ByteSink for Cursor {
    open spec fn wrote(before: Self, bytes: Seq<u8>, after: Self) -> bool {
        &&& after.data() == overwrite(before.data(), before.pos(), bytes)
        &&& after.pos() == before.pos() + bytes.len()
    }

    open spec fn accepts(&self, n: nat) -> bool {
        self.pos() + n <= usize::MAX
    }

    fn write_bytes(&mut self, bytes: &[u8]) -> (r: Result<(), VlqError>) {
        if self.pos > usize::MAX as u64 || bytes.len() > usize::MAX - self.pos as usize {
            return Err(VlqError::Rejected);
        }
        let ghost before = self.inner@;
        let start: usize = self.pos as usize;
        assert(start + bytes@.len() <= usize::MAX);
        while self.inner.len() < start
            invariant
                self.pos == start as u64,
                before.len() <= self.inner@.len(),
                self.inner@.len() > before.len() ==> self.inner@.len() <= start,
                forall|k: int| 0 <= k < before.len() ==> self.inner@[k] == before[k],
                forall|k: int| before.len() <= k < self.inner@.len() ==> self.inner@[k] == 0u8,
            decreases start - self.inner@.len(),
        {
            self.inner.push(0);
        }
        let mut i: usize = 0;
        while i < bytes.len()
            invariant
                self.pos == start as u64,
                start + bytes@.len() <= usize::MAX,
                i <= bytes@.len(),
                self.inner@.len() == if before.len() > start + i {
                    before.len()
                } else {
                    (start + i) as nat
                },
                forall|k: int|
                    0 <= k < self.inner@.len() ==> #[trigger] self.inner@[k] == if start <= k < start
                        + i {
                        bytes@[k - start]
                    } else if k < before.len() {
                        before[k]
                    } else {
                        0u8
                    },
            decreases bytes@.len() - i,
        {
            if start + i < self.inner.len() {
                self.inner[start + i] = bytes[i];
            } else {
                self.inner.push(bytes[i]);
            }
            i += 1;
        }
        assert(usize::MAX <= u64::MAX);
        self.pos = self.pos + bytes.len() as u64;
        assert(self.inner@ =~= overwrite(before, start as nat, bytes@));
        Ok(())
    }
}

} // verus!
