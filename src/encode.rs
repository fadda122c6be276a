//! Writing values as little-endian, length-prefixed bytes.
use crate::numbers::{le_bytes, lemma_le_bytes_step, pow256};
use vstd::prelude::*;

verus! {

/// A growing buffer of encoded bytes.
pub struct CursorMut {
    inner: Vec<u8>,
}

impl View for CursorMut {
    type V = Seq<u8>;

    closed spec fn view(&self) -> Seq<u8> {
        self.inner@
    }
}

impl CursorMut {
    /// Create a new, empty `CursorMut`.
    pub fn new() -> (r: CursorMut)
        ensures
            r@ == Seq::<u8>::empty(),
    {
        CursorMut { inner: Vec::with_capacity(512) }
    }

    /// Append a series of bytes.
    pub fn write(&mut self, buf: &[u8])
        ensures
            final(self)@ == old(self)@ + buf@,
    {
        let ghost start = self@;
        let mut i: usize = 0;
        while i < buf.len()
            invariant
                i <= buf@.len(),
                self@ == start + buf@.take(i as int),
            decreases buf@.len() - i,
        {
            self.inner.push(buf[i]);
            i = i + 1;
            assert(self@ =~= start + buf@.take(i as int));
        }
        assert(buf@.take(i as int) =~= buf@);
    }

    /// Encode a value at the end of the buffer.
    pub fn encode<T: Encode>(&mut self, ty: &T) -> (r: Result<(), Error>)
        ensures
            match ty.encoding() {
                Some(b) => r is Ok && final(self)@ == old(self)@ + b,
                None => r is Err && final(self)@ == old(self)@,
            },
    {
        ty.encode(self)
    }

    /// The bytes written so far.
    pub fn into_bytes(self) -> (r: Vec<u8>)
        ensures
            r@ == self@,
    {
        self.inner
    }

    /// Append the `n` low bytes of `v`, least significant first.
    pub fn write_le(&mut self, v: u128, n: usize)
        requires
            n <= 16,
        ensures
            final(self)@ == old(self)@ + le_bytes(v as nat, n as nat),
    {
        let ghost start = self@;
        let mut x: u128 = v;
        let mut i: usize = 0;
        assert(pow256(0) == 1);
        assert(self@ =~= start + le_bytes(v as nat, 0));
        while i < n
            invariant
                i <= n,
                x == v as nat / pow256(i as nat),
                self@ == start + le_bytes(v as nat, i as nat),
            decreases n - i,
        {
            self.inner.push((x % 256) as u8);
            proof {
                lemma_le_bytes_step(v as nat, i as nat);
            }
            x = x / 256;
            i = i + 1;
            assert(self@ =~= start + le_bytes(v as nat, i as nat));
        }
    }
}

/// The one way encoding can fail: a value too long for its length prefix.
pub struct Error;

/// A type that can be encoded into a [`CursorMut`].
pub trait Encode {
    /// The bytes that encode the value, or `None` where it cannot be encoded.
    spec fn encoding(&self) -> Option<Seq<u8>>;

    /// Append the encoding of the value; on failure append nothing.
    fn encode(&self, cursor: &mut CursorMut) -> (r: Result<(), Error>)
        ensures
            match self.encoding() {
                Some(b) => r is Ok && final(cursor)@ == old(cursor)@ + b,
                None => r is Err && final(cursor)@ == old(cursor)@,
            },
    ;
}

} // verus!
