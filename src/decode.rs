//! Reading values back from little-endian, length-prefixed bytes.
use crate::numbers::{le_value, lemma_le_value_bound, lemma_pow256_values, pow256};
use vstd::prelude::*;

verus! {

/// The error that `String::from_utf8` reports.
#[verifier::external_type_specification]
#[verifier::external_body]
pub struct ExUtf8Error(std::str::Utf8Error);

/// A cursor that reads a sequence of bytes from front to back.
pub struct Cursor {
    inner: Vec<u8>,
    cursor: usize,
}

impl Cursor {
    /// All the bytes, read or not.
    pub closed spec fn bytes(&self) -> Seq<u8> {
        self.inner@
    }

    /// How many bytes have been read.
    pub closed spec fn pos(&self) -> int {
        self.cursor as int
    }

    pub open spec fn wf(&self) -> bool {
        0 <= self.pos() <= self.bytes().len()
    }

    /// The bytes not read yet.
    pub open spec fn rest(&self) -> Seq<u8> {
        self.bytes().skip(self.pos())
    }

    /// Create a cursor at the start of `inner`.
    pub fn new(inner: Vec<u8>) -> (r: Cursor)
        ensures
            r.wf(),
            r.bytes() == inner@,
            r.pos() == 0,
    {
        Cursor { inner, cursor: 0 }
    }

    /// Copy as many of the unread bytes as fit into `buf`, and move past
    /// them. Returns how many were copied.
    pub fn read(&mut self, buf: &mut [u8]) -> (r: usize)
        requires
            old(self).wf(),
        ensures
            final(self).wf(),
            final(self).bytes() == old(self).bytes(),
            r == if old(buf)@.len() <= old(self).rest().len() {
                old(buf)@.len()
            } else {
                old(self).rest().len()
            },
            final(self).pos() == old(self).pos() + r,
            final(buf)@ == old(self).rest().take(r as int) + old(buf)@.skip(r as int),
    {
        let remaining = self.inner.len() - self.cursor;
        let n = if buf.len() <= remaining { buf.len() } else { remaining };
        let ghost start = buf@;
        let base = self.cursor;
        let len = self.inner.len();
        let mut i: usize = 0;
        while i < n
            invariant
                self.wf(),
                n <= buf@.len(),
                n <= self.bytes().len() - self.pos(),
                i <= n,
                buf@.len() == start.len(),
                base == self.cursor,
                len == self.inner@.len(),
                base + n <= len,
                buf@ == self.rest().take(i as int) + start.skip(i as int),
            decreases n - i,
        {
            buf[i] = self.inner[base + i];
            i = i + 1;
            assert(buf@ =~= self.rest().take(i as int) + start.skip(i as int));
        }
        self.cursor = self.cursor + n;
        n
    }

    /// Read the next `n` bytes as a little-endian number. Where fewer are
    /// left, move to the end and return `None`.
    pub fn read_le(&mut self, n: usize) -> (r: Option<u128>)
        requires
            old(self).wf(),
            n <= 16,
        ensures
            final(self).wf(),
            final(self).bytes() == old(self).bytes(),
            n <= old(self).rest().len() ==> r == Some(le_value(old(self).rest().take(n as int)) as u128)
                && final(self).pos() == old(self).pos() + n,
            n > old(self).rest().len() ==> r is None && final(self).pos() == old(self).bytes().len(),
            n <= old(self).rest().len() ==> le_value(old(self).rest().take(n as int)) < pow256(
                n as nat,
            ),
    {
        proof {
            if n <= self.rest().len() {
                lemma_le_value_bound(self.rest().take(n as int));
            }
        }
        let remaining = self.inner.len() - self.cursor;
        if n > remaining {
            self.cursor = self.inner.len();
            return None;
        }
        let ghost s = self.rest().take(n as int);
        let mut acc: u128 = 0;
        let base = self.cursor;
        let len = self.inner.len();
        let mut j: usize = n;
        proof {
            lemma_le_value_bound(s);
        }
        while j > 0
            invariant
                self.wf(),
                n <= self.bytes().len() - self.pos(),
                n <= 16,
                s == self.rest().take(n as int),
                base == self.cursor,
                len == self.inner@.len(),
                base + n <= len,
                j <= n,
                acc == le_value(s.skip(j as int)),
                le_value(s) < pow256(n as nat),
            decreases j,
        {
            proof {
                lemma_le_value_bound(s.skip(j as int));
                lemma_pow256_le16((n - j) as nat);
                assert(s.skip(j - 1).drop_first() =~= s.skip(j as int));
            }
            let b = self.inner[base + j - 1];
            acc = b as u128 + 256 * acc;
            j = j - 1;
        }
        assert(s.skip(0) =~= s);
        self.cursor = self.cursor + n;
        Some(acc)
    }

    /// Decode a value at the cursor.
    pub fn decode<U: Decode>(&mut self) -> (r: Result<U, Error>)
        requires
            old(self).wf(),
        ensures
            final(self).wf(),
            final(self).bytes() == old(self).bytes(),
            final(self).pos() == old(self).pos() + U::parse(old(self).rest()).1,
            match U::parse(old(self).rest()).0 {
                Ok(v) => r is Ok && r->Ok_0@ == v,
                Err(f) => r is Err && r->Err_0.fault() == f,
            },
    {
        U::decode(self)
    }
}

/// `256^k` for `k < 16` leaves room for one more byte below `2^128`.
proof fn lemma_pow256_le16(k: nat)
    requires
        k < 16,
    ensures
        pow256(k) * 256 <= 0x1_0000_0000_0000_0000_0000_0000_0000_0000,
{
    lemma_pow256_monotone(k + 1, 16);
    lemma_pow256_values();
    assert(pow256(k + 1) == 256 * pow256(k));
}

proof fn lemma_pow256_monotone(a: nat, b: nat)
    requires
        a <= b,
    ensures
        pow256(a) <= pow256(b),
    decreases b,
{
    if a < b {
        lemma_pow256_monotone(a, (b - 1) as nat);
    }
}

/// The kinds of decoding failure.
#[derive(Clone, Copy, PartialEq, Eq, Structural, Debug)]
pub enum DecodeFault {
    UnexpectedEnd,
    Utf8,
}

/// An error that can occur during decoding.
pub enum Error {
    /// The bytes ended before the value did.
    UnexpectedEnd,
    /// A string's bytes are not valid UTF-8.
    Utf8(std::str::Utf8Error),
}

impl Error {
    /// The kind of this error.
    pub open spec fn fault(&self) -> DecodeFault {
        match self {
            Error::UnexpectedEnd => DecodeFault::UnexpectedEnd,
            Error::Utf8(_) => DecodeFault::Utf8,
        }
    }

    /// Create a new unexpected end error.
    pub fn unexpected_end() -> (r: Error)
        ensures
            r.fault() == DecodeFault::UnexpectedEnd,
    {
        Error::UnexpectedEnd
    }

    /// Create a new UTF-8 error.
    pub fn utf8(error: std::str::Utf8Error) -> (r: Error)
        ensures
            r == Error::Utf8(error),
    {
        Error::Utf8(error)
    }
}

/// A type that can be decoded from a [`Cursor`].
pub trait Decode: Sized + View {
    /// What decoding from the front of `bytes` gives, and how many bytes it
    /// reads.
    spec fn parse(bytes: Seq<u8>) -> (Result<Self::V, DecodeFault>, nat);

    fn decode(cursor: &mut Cursor) -> (r: Result<Self, Error>)
        requires
            old(cursor).wf(),
        ensures
            final(cursor).wf(),
            final(cursor).bytes() == old(cursor).bytes(),
            final(cursor).pos() == old(cursor).pos() + Self::parse(old(cursor).rest()).1,
            match Self::parse(old(cursor).rest()).0 {
                Ok(v) => r is Ok && r->Ok_0@ == v,
                Err(f) => r is Err && r->Err_0.fault() == f,
            },
    ;
}

} // verus!
