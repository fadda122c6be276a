//! Little-endian integers, and the encodings of the integer types and of
//! `String`.
use crate::decode::{Cursor, Decode, DecodeFault, Error as DecodeError};
use crate::encode::{CursorMut, Encode, Error as EncodeError};
use vstd::arithmetic::div_mod::lemma_div_denominator;
use vstd::prelude::*;
use vstd::utf8::{decode_utf8, encode_utf8, valid_utf8};

verus! {

/// `256` to the power `k`.
pub open spec fn pow256(k: nat) -> nat
    decreases k,
{
    if k == 0 { 1 } else { 256 * pow256((k - 1) as nat) }
}

/// The first `n` bytes of `v`, least significant first.
pub open spec fn le_bytes(v: nat, n: nat) -> Seq<u8> {
    Seq::new(n, |i: int| ((v / pow256(i as nat)) % 256) as u8)
}

/// The number that `bytes` encode, least significant first.
pub open spec fn le_value(bytes: Seq<u8>) -> nat
    decreases bytes.len(),
{
    if bytes.len() == 0 {
        0
    } else {
        bytes[0] as nat + 256 * le_value(bytes.drop_first())
    }
}

/// Reading back the `n` low bytes of a number below `256^n` gives the number.
pub proof fn lemma_le_round_trip(v: nat, n: nat)
    requires
        v < pow256(n),
    ensures
        le_value(le_bytes(v, n)) == v,
    decreases n,
{
    let b = le_bytes(v, n);
    if n > 0 {
        let p = pow256((n - 1) as nat);
        assert(v / 256 < p) by (nonlinear_arith)
            requires
                v < 256 * p,
        ;
        assert forall|i: int| 0 <= i < n - 1 implies #[trigger] b.drop_first()[i] == le_bytes(
            v / 256,
            (n - 1) as nat,
        )[i] by {
            lemma_pow256_positive(i as nat);
            lemma_div_denominator(v as int, 256, pow256(i as nat) as int);
            assert(pow256((i + 1) as nat) == 256 * pow256(i as nat));
        }
        assert(b.drop_first() =~= le_bytes(v / 256, (n - 1) as nat));
        lemma_le_round_trip(v / 256, (n - 1) as nat);
        assert(pow256(0) == 1);
        assert(v / pow256(0) == v);
        assert(b[0] as nat == v % 256);
        assert(v == 256 * (v / 256) + v % 256);
        assert(le_value(b) == b[0] as nat + 256 * le_value(b.drop_first()));
    } else {
        assert(pow256(0) == 1);
        assert(b.len() == 0);
    }
}

/// Dividing by `256^(i+1)` is dividing by `256^i`, then by `256`.
pub proof fn lemma_le_bytes_step(v: nat, i: nat)
    ensures
        pow256(i) > 0,
        v / pow256(i + 1) == (v / pow256(i)) / 256,
        le_bytes(v, i + 1) == le_bytes(v, i).push(((v / pow256(i)) % 256) as u8),
{
    lemma_pow256_positive(i);
    lemma_div_denominator(v as int, pow256(i) as int, 256);
    assert(pow256(i + 1) == pow256(i) * 256);
    assert(le_bytes(v, i + 1) =~= le_bytes(v, i).push(((v / pow256(i)) % 256) as u8));
}

pub proof fn lemma_pow256_positive(k: nat)
    ensures
        pow256(k) > 0,
    decreases k,
{
    if k > 0 {
        lemma_pow256_positive((k - 1) as nat);
    }
}

/// The powers used by the integer types.
pub proof fn lemma_pow256_values()
    ensures
        pow256(1) == 0x100,
        pow256(2) == 0x1_0000,
        pow256(4) == 0x1_0000_0000,
        pow256(8) == 0x1_0000_0000_0000_0000,
        pow256(16) == 0x1_0000_0000_0000_0000_0000_0000_0000_0000,
{
    reveal_with_fuel(pow256, 17);
}

/// `n` bytes encode a number below `256^n`.
pub proof fn lemma_le_value_bound(bytes: Seq<u8>)
    ensures
        le_value(bytes) < pow256(bytes.len()),
    decreases bytes.len(),
{
    if bytes.len() > 0 {
        lemma_le_value_bound(bytes.drop_first());
        assert(pow256(bytes.len()) == 256 * pow256(bytes.drop_first().len()));
    }
}

impl Decode for u8 {
    open spec fn parse(bytes: Seq<u8>) -> (Result<u8, DecodeFault>, nat) {
        if bytes.len() >= 1 {
            (Ok(le_value(bytes.take(1)) as u8), 1)
        } else {
            (Err(DecodeFault::UnexpectedEnd), bytes.len())
        }
    }

    fn decode(cursor: &mut Cursor) -> (r: Result<u8, DecodeError>) {
        proof {
            lemma_pow256_values();
        }
        match cursor.read_le(1) {
            Some(v) => Ok(v as u8),
            None => Err(DecodeError::unexpected_end()),
        }
    }
}

impl Encode for u8 {
    open spec fn encoding(&self) -> Option<Seq<u8>> {
        Some(le_bytes(*self as nat, 1))
    }

    fn encode(&self, cursor: &mut CursorMut) -> (r: Result<(), EncodeError>) {
        cursor.write_le(*self as u128, 1);
        Ok(())
    }
}

impl Decode for u16 {
    open spec fn parse(bytes: Seq<u8>) -> (Result<u16, DecodeFault>, nat) {
        if bytes.len() >= 2 {
            (Ok(le_value(bytes.take(2)) as u16), 2)
        } else {
            (Err(DecodeFault::UnexpectedEnd), bytes.len())
        }
    }

    fn decode(cursor: &mut Cursor) -> (r: Result<u16, DecodeError>) {
        proof {
            lemma_pow256_values();
        }
        match cursor.read_le(2) {
            Some(v) => Ok(v as u16),
            None => Err(DecodeError::unexpected_end()),
        }
    }
}

impl Encode for u16 {
    open spec fn encoding(&self) -> Option<Seq<u8>> {
        Some(le_bytes(*self as nat, 2))
    }

    fn encode(&self, cursor: &mut CursorMut) -> (r: Result<(), EncodeError>) {
        cursor.write_le(*self as u128, 2);
        Ok(())
    }
}

impl Decode for u32 {
    open spec fn parse(bytes: Seq<u8>) -> (Result<u32, DecodeFault>, nat) {
        if bytes.len() >= 4 {
            (Ok(le_value(bytes.take(4)) as u32), 4)
        } else {
            (Err(DecodeFault::UnexpectedEnd), bytes.len())
        }
    }

    fn decode(cursor: &mut Cursor) -> (r: Result<u32, DecodeError>) {
        proof {
            lemma_pow256_values();
        }
        match cursor.read_le(4) {
            Some(v) => Ok(v as u32),
            None => Err(DecodeError::unexpected_end()),
        }
    }
}

impl Encode for u32 {
    open spec fn encoding(&self) -> Option<Seq<u8>> {
        Some(le_bytes(*self as nat, 4))
    }

    fn encode(&self, cursor: &mut CursorMut) -> (r: Result<(), EncodeError>) {
        cursor.write_le(*self as u128, 4);
        Ok(())
    }
}

impl Decode for u64 {
    open spec fn parse(bytes: Seq<u8>) -> (Result<u64, DecodeFault>, nat) {
        if bytes.len() >= 8 {
            (Ok(le_value(bytes.take(8)) as u64), 8)
        } else {
            (Err(DecodeFault::UnexpectedEnd), bytes.len())
        }
    }

    fn decode(cursor: &mut Cursor) -> (r: Result<u64, DecodeError>) {
        proof {
            lemma_pow256_values();
        }
        match cursor.read_le(8) {
            Some(v) => Ok(v as u64),
            None => Err(DecodeError::unexpected_end()),
        }
    }
}

impl Encode for u64 {
    open spec fn encoding(&self) -> Option<Seq<u8>> {
        Some(le_bytes(*self as nat, 8))
    }

    fn encode(&self, cursor: &mut CursorMut) -> (r: Result<(), EncodeError>) {
        cursor.write_le(*self as u128, 8);
        Ok(())
    }
}

impl Decode for u128 {
    open spec fn parse(bytes: Seq<u8>) -> (Result<u128, DecodeFault>, nat) {
        if bytes.len() >= 16 {
            (Ok(le_value(bytes.take(16)) as u128), 16)
        } else {
            (Err(DecodeFault::UnexpectedEnd), bytes.len())
        }
    }

    fn decode(cursor: &mut Cursor) -> (r: Result<u128, DecodeError>) {
        proof {
            lemma_pow256_values();
        }
        match cursor.read_le(16) {
            Some(v) => Ok(v as u128),
            None => Err(DecodeError::unexpected_end()),
        }
    }
}

impl Encode for u128 {
    open spec fn encoding(&self) -> Option<Seq<u8>> {
        Some(le_bytes(*self as nat, 16))
    }

    fn encode(&self, cursor: &mut CursorMut) -> (r: Result<(), EncodeError>) {
        cursor.write_le(*self as u128, 16);
        Ok(())
    }
}

impl Decode for i8 {
    /// Two's complement: the top half of the unsigned range is negative.
    open spec fn parse(bytes: Seq<u8>) -> (Result<i8, DecodeFault>, nat) {
        if bytes.len() >= 1 {
            let u = le_value(bytes.take(1));
            (Ok(if u < 128 { u as i8 } else { (u - 256) as i8 }), 1)
        } else {
            (Err(DecodeFault::UnexpectedEnd), bytes.len())
        }
    }

    fn decode(cursor: &mut Cursor) -> (r: Result<i8, DecodeError>) {
        proof {
            lemma_pow256_values();
        }
        match cursor.read_le(1) {
            Some(v) => if v < 128 {
                Ok(v as i8)
            } else {
                Ok(((v - 128) as i8) - 127 - 1)
            },
            None => Err(DecodeError::unexpected_end()),
        }
    }
}

impl Encode for i8 {
    /// Two's complement: a negative value is written as itself plus
    /// `2^8`.
    open spec fn encoding(&self) -> Option<Seq<u8>> {
        Some(le_bytes(if *self >= 0 { *self as nat } else { (*self + 256) as nat }, 1))
    }

    fn encode(&self, cursor: &mut CursorMut) -> (r: Result<(), EncodeError>) {
        let u: u128 = if *self >= 0 {
            *self as u128
        } else {
            ((*self as i128) + 127 + 1) as u128 + 128
        };
        cursor.write_le(u, 1);
        Ok(())
    }
}

impl Decode for i16 {
    /// Two's complement: the top half of the unsigned range is negative.
    open spec fn parse(bytes: Seq<u8>) -> (Result<i16, DecodeFault>, nat) {
        if bytes.len() >= 2 {
            let u = le_value(bytes.take(2));
            (Ok(if u < 32768 { u as i16 } else { (u - 65536) as i16 }), 2)
        } else {
            (Err(DecodeFault::UnexpectedEnd), bytes.len())
        }
    }

    fn decode(cursor: &mut Cursor) -> (r: Result<i16, DecodeError>) {
        proof {
            lemma_pow256_values();
        }
        match cursor.read_le(2) {
            Some(v) => if v < 32768 {
                Ok(v as i16)
            } else {
                Ok(((v - 32768) as i16) - 32767 - 1)
            },
            None => Err(DecodeError::unexpected_end()),
        }
    }
}

impl Encode for i16 {
    /// Two's complement: a negative value is written as itself plus
    /// `2^16`.
    open spec fn encoding(&self) -> Option<Seq<u8>> {
        Some(le_bytes(if *self >= 0 { *self as nat } else { (*self + 65536) as nat }, 2))
    }

    fn encode(&self, cursor: &mut CursorMut) -> (r: Result<(), EncodeError>) {
        let u: u128 = if *self >= 0 {
            *self as u128
        } else {
            ((*self as i128) + 32767 + 1) as u128 + 32768
        };
        cursor.write_le(u, 2);
        Ok(())
    }
}

impl Decode for i32 {
    /// Two's complement: the top half of the unsigned range is negative.
    open spec fn parse(bytes: Seq<u8>) -> (Result<i32, DecodeFault>, nat) {
        if bytes.len() >= 4 {
            let u = le_value(bytes.take(4));
            (Ok(if u < 2147483648 { u as i32 } else { (u - 4294967296) as i32 }), 4)
        } else {
            (Err(DecodeFault::UnexpectedEnd), bytes.len())
        }
    }

    fn decode(cursor: &mut Cursor) -> (r: Result<i32, DecodeError>) {
        proof {
            lemma_pow256_values();
        }
        match cursor.read_le(4) {
            Some(v) => if v < 2147483648 {
                Ok(v as i32)
            } else {
                Ok(((v - 2147483648) as i32) - 2147483647 - 1)
            },
            None => Err(DecodeError::unexpected_end()),
        }
    }
}

impl Encode for i32 {
    /// Two's complement: a negative value is written as itself plus
    /// `2^32`.
    open spec fn encoding(&self) -> Option<Seq<u8>> {
        Some(le_bytes(if *self >= 0 { *self as nat } else { (*self + 4294967296) as nat }, 4))
    }

    fn encode(&self, cursor: &mut CursorMut) -> (r: Result<(), EncodeError>) {
        let u: u128 = if *self >= 0 {
            *self as u128
        } else {
            ((*self as i128) + 2147483647 + 1) as u128 + 2147483648
        };
        cursor.write_le(u, 4);
        Ok(())
    }
}

impl Decode for i64 {
    /// Two's complement: the top half of the unsigned range is negative.
    open spec fn parse(bytes: Seq<u8>) -> (Result<i64, DecodeFault>, nat) {
        if bytes.len() >= 8 {
            let u = le_value(bytes.take(8));
            (Ok(if u < 9223372036854775808 { u as i64 } else { (u - 18446744073709551616) as i64 }), 8)
        } else {
            (Err(DecodeFault::UnexpectedEnd), bytes.len())
        }
    }

    fn decode(cursor: &mut Cursor) -> (r: Result<i64, DecodeError>) {
        proof {
            lemma_pow256_values();
        }
        match cursor.read_le(8) {
            Some(v) => if v < 9223372036854775808 {
                Ok(v as i64)
            } else {
                Ok(((v - 9223372036854775808) as i64) - 9223372036854775807 - 1)
            },
            None => Err(DecodeError::unexpected_end()),
        }
    }
}

impl Encode for i64 {
    /// Two's complement: a negative value is written as itself plus
    /// `2^64`.
    open spec fn encoding(&self) -> Option<Seq<u8>> {
        Some(le_bytes(if *self >= 0 { *self as nat } else { (*self + 18446744073709551616) as nat }, 8))
    }

    fn encode(&self, cursor: &mut CursorMut) -> (r: Result<(), EncodeError>) {
        let u: u128 = if *self >= 0 {
            *self as u128
        } else {
            ((*self as i128) + 9223372036854775807 + 1) as u128 + 9223372036854775808
        };
        cursor.write_le(u, 8);
        Ok(())
    }
}

impl Decode for i128 {
    /// Two's complement: the top half of the unsigned range is negative.
    open spec fn parse(bytes: Seq<u8>) -> (Result<i128, DecodeFault>, nat) {
        if bytes.len() >= 16 {
            let u = le_value(bytes.take(16));
            (Ok(if u < 170141183460469231731687303715884105728 { u as i128 } else { (u - 340282366920938463463374607431768211456) as i128 }), 16)
        } else {
            (Err(DecodeFault::UnexpectedEnd), bytes.len())
        }
    }

    fn decode(cursor: &mut Cursor) -> (r: Result<i128, DecodeError>) {
        proof {
            lemma_pow256_values();
        }
        match cursor.read_le(16) {
            Some(v) => if v < 170141183460469231731687303715884105728 {
                Ok(v as i128)
            } else {
                Ok(((v - 170141183460469231731687303715884105728) as i128) - 170141183460469231731687303715884105727 - 1)
            },
            None => Err(DecodeError::unexpected_end()),
        }
    }
}

impl Encode for i128 {
    /// Two's complement: a negative value is written as itself plus
    /// `2^128`.
    open spec fn encoding(&self) -> Option<Seq<u8>> {
        Some(le_bytes(if *self >= 0 { *self as nat } else { (*self + 340282366920938463463374607431768211456) as nat }, 16))
    }

    fn encode(&self, cursor: &mut CursorMut) -> (r: Result<(), EncodeError>) {
        let u: u128 = if *self >= 0 {
            *self as u128
        } else {
            ((*self as i128) + 170141183460469231731687303715884105727 + 1) as u128 + 170141183460469231731687303715884105728
        };
        cursor.write_le(u, 16);
        Ok(())
    }
}

/// Relies on `String::from_utf8`: it accepts exactly the byte sequences that
/// are valid UTF-8 and keeps the characters they encode; where it refuses,
/// `FromUtf8Error::utf8_error` gives the `Utf8Error`.
#[verifier::external_body]
fn string_from_utf8(bytes: Vec<u8>) -> (r: Result<String, std::str::Utf8Error>)
    ensures
        r is Ok <==> valid_utf8(bytes@),
        r is Ok ==> r->Ok_0@ == decode_utf8(bytes@),
{
    match String::from_utf8(bytes) {
        Ok(s) => Ok(s),
        Err(e) => Err(e.utf8_error()),
    }
}

impl Decode for String {
    /// A `u16` byte count, then that many bytes of UTF-8.
    open spec fn parse(bytes: Seq<u8>) -> (Result<Seq<char>, DecodeFault>, nat) {
        if bytes.len() < 2 {
            (Err(DecodeFault::UnexpectedEnd), bytes.len())
        } else {
            let count = le_value(bytes.take(2));
            if bytes.len() - 2 < count {
                (Err(DecodeFault::UnexpectedEnd), bytes.len())
            } else {
                let body = bytes.subrange(2, 2 + count as int);
                if valid_utf8(body) {
                    (Ok(decode_utf8(body)), (2 + count) as nat)
                } else {
                    (Err(DecodeFault::Utf8), (2 + count) as nat)
                }
            }
        }
    }

    fn decode(cursor: &mut Cursor) -> (r: Result<String, DecodeError>) {
        let ghost rest = cursor.rest();
        let count = match cursor.decode::<u16>() {
            Ok(c) => c as usize,
            Err(e) => return Err(e),
        };
        proof {
            lemma_le_value_bound(rest.take(2));
            lemma_pow256_values();
            assert(cursor.rest() =~= rest.skip(2));
        }
        let mut buf: Vec<u8> = vec![0u8; count];
        let got = cursor.read(buf.as_mut_slice());
        if got < count {
            return Err(DecodeError::unexpected_end());
        }
        assert(buf@ =~= rest.subrange(2, 2 + count));
        match string_from_utf8(buf) {
            Ok(s) => Ok(s),
            Err(e) => Err(DecodeError::utf8(e)),
        }
    }
}

impl Encode for String {
    /// A `u16` byte count, then the UTF-8 bytes; nothing for a string
    /// longer than a `u16` can count.
    open spec fn encoding(&self) -> Option<Seq<u8>> {
        let b = encode_utf8(self@);
        if b.len() <= 0xffff {
            Some(le_bytes(b.len(), 2) + b)
        } else {
            None
        }
    }

    fn encode(&self, cursor: &mut CursorMut) -> (r: Result<(), EncodeError>) {
        let bytes = self.as_str().as_bytes();
        if bytes.len() > 0xffff {
            return Err(EncodeError);
        }
        let count = bytes.len() as u16;
        match cursor.encode(&count) {
            Ok(()) => {},
            Err(e) => return Err(e),
        }
        cursor.write(bytes);
        Ok(())
    }
}

} // verus!
