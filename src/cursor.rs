use crate::error::DecodeError;
use vstd::arithmetic::power2::pow2;
use vstd::prelude::*;

verus! {

/// The low seven bits of a varint byte.
pub open spec fn low7(b: u8) -> nat {
    (b % 128) as nat
}

/// The value of the first `n` bytes of `s` read as little-endian base-128 digits.
pub open spec fn varuint_sum(s: Seq<u8>, n: nat) -> nat
    decreases n,
{
    if n == 0 || s.len() == 0 {
        0
    } else {
        low7(s[0]) + 128 * varuint_sum(s.drop_first(), (n - 1) as nat)
    }
}

/// The first `n` bytes of `s` are one complete unsigned varint whose value fits in 64 bits.
pub open spec fn varuint_ends_at(s: Seq<u8>, n: nat) -> bool {
    &&& 1 <= n <= 10
    &&& n <= s.len()
    &&& forall|i: int| 0 <= i < n - 1 ==> s[i] >= 128
    &&& s[n - 1] < 128
    &&& n == 10 ==> s[9] <= 1
}

/// `s` holds no complete varint: it ends before a byte without the continuation bit.
pub open spec fn varuint_truncated(s: Seq<u8>) -> bool {
    s.len() < 10 && forall|i: int| 0 <= i < s.len() ==> s[i] >= 128
}

/// The first `n` bytes of `s` are one complete signed varint whose value fits in 64 bits.
pub open spec fn varint_ends_at(s: Seq<u8>, n: nat) -> bool {
    &&& 1 <= n <= 10
    &&& n <= s.len()
    &&& forall|i: int| 0 <= i < n - 1 ==> s[i] >= 128
    &&& s[n - 1] < 128
    &&& n == 10 ==> (s[9] == 0 || s[9] == 0x7f)
}

/// The value of a signed varint of `n` bytes: its digits, less `2^(7n)` when the sign bit
/// (0x40) of the last byte is set; at ten bytes the last one only decides bit 63.
pub open spec fn varint_value(s: Seq<u8>, n: nat) -> int {
    if n == 10 {
        varuint_sum(s, 9) - (if s[9] == 0x7f { 0x8000_0000_0000_0000int } else { 0int })
    } else {
        varuint_sum(s, n) - (if s[n - 1] >= 64 { pow2(7 * n) as int } else { 0int })
    }
}

/// The error a failed varint read at the front of `s` gives: `Truncated` when the input
/// ends inside it, `MalformedConnectivity` when it is too long for 64 bits.
pub open spec fn varint_error(s: Seq<u8>) -> DecodeError {
    if varuint_truncated(s) {
        DecodeError::Truncated
    } else {
        DecodeError::MalformedConnectivity
    }
}

/// The unsigned varint at the front of `s`: its value and length in bytes.
pub open spec fn varuint_at(s: Seq<u8>) -> Option<(nat, nat)> {
    if exists|n: nat| varuint_ends_at(s, n) {
        let n = choose|n: nat| varuint_ends_at(s, n);
        Some((varuint_sum(s, n), n))
    } else {
        None
    }
}

/// An unsigned varint has one length: the first byte without the continuation bit ends it.
pub proof fn lemma_varuint_length_unique(s: Seq<u8>, n1: nat, n2: nat)
    requires
        varuint_ends_at(s, n1),
        varuint_ends_at(s, n2),
    ensures
        n1 == n2,
{
    if n1 < n2 {
        assert(s[n1 - 1] >= 128);
    } else if n2 < n1 {
        assert(s[n2 - 1] >= 128);
    }
}

/// Little-endian value of two bytes.
pub open spec fn le16(a: u8, b: u8) -> nat {
    a as nat + 256 * (b as nat)
}

/// Little-endian value of four bytes.
pub open spec fn le32(a: u8, b: u8, c: u8, d: u8) -> nat {
    a as nat + 256 * (b as nat) + 65536 * (c as nat) + 16777216 * (d as nat)
}

/// Relies on leb128::read::unsigned: it reads bytes until one without the continuation
/// bit, ORs their low seven bits in at shifts 0, 7, 14, ..., and fails when the input
/// ends first or when the byte at shift 63 is neither 0 nor 1.
/// Returns the value and how many bytes of `bytes[pos..]` are left after it.
#[verifier::external_body]
fn leb128_unsigned_at(bytes: &[u8], pos: usize) -> (r: Option<(u64, usize)>)
    requires
        pos <= bytes@.len(),
    ensures
        r is Some <==> exists|n: nat| varuint_ends_at(bytes@.subrange(pos as int, bytes@.len() as int), n),
        r matches Some((v, rest)) ==> {
            let s = bytes@.subrange(pos as int, bytes@.len() as int);
            &&& rest <= s.len()
            &&& varuint_ends_at(s, (s.len() - rest) as nat)
            &&& v == varuint_sum(s, (s.len() - rest) as nat)
        },
{
    let mut r: &[u8] = &bytes[pos..];
    match leb128::read::unsigned(&mut r) {
        Ok(v) => Some((v, r.len())),
        Err(_) => None,
    }
}

/// Relies on leb128::read::signed: it reads bytes until one without the continuation bit,
/// ORs their low seven bits in at shifts 0, 7, 14, ..., sign-extends from the last byte's
/// 0x40 bit while the shift is below 64, and fails when the input ends first or when the
/// byte at shift 63 is neither 0x00 nor 0x7f.
/// Returns the value and how many bytes of `bytes[pos..]` are left after it.
#[verifier::external_body]
fn leb128_signed_at(bytes: &[u8], pos: usize) -> (r: Option<(i64, usize)>)
    requires
        pos <= bytes@.len(),
    ensures
        r is Some <==> exists|n: nat| varint_ends_at(bytes@.subrange(pos as int, bytes@.len() as int), n),
        r matches Some((v, rest)) ==> {
            let s = bytes@.subrange(pos as int, bytes@.len() as int);
            &&& rest <= s.len()
            &&& varint_ends_at(s, (s.len() - rest) as nat)
            &&& v == varint_value(s, (s.len() - rest) as nat)
        },
{
    let mut r: &[u8] = &bytes[pos..];
    match leb128::read::signed(&mut r) {
        Ok(v) => Some((v, r.len())),
        Err(_) => None,
    }
}

/// A forward-only reader over an input buffer.
pub struct ByteCursor {
    data: Vec<u8>,
    pos: usize,
}

impl ByteCursor {
    pub closed spec fn wf(&self) -> bool {
        self.pos <= self.data@.len()
    }

    /// The bytes not yet read.
    pub closed spec fn rest(&self) -> Seq<u8> {
        self.data@.subrange(self.pos as int, self.data@.len() as int)
    }

    pub fn new(data: Vec<u8>) -> (r: ByteCursor)
        ensures
            r.wf(),
            r.rest() == data@,
    {
        let r = ByteCursor { data, pos: 0 };
        assert(r.rest() =~= data@);
        r
    }

    pub fn remaining_len(&self) -> (r: usize)
        requires
            self.wf(),
        ensures
            r == self.rest().len(),
    {
        self.data.len() - self.pos
    }

    pub fn read_u8(&mut self) -> (r: Result<u8, DecodeError>)
        requires
            old(self).wf(),
        ensures
            final(self).wf(),
            old(self).rest().len() < 1 ==> r == Err::<u8, DecodeError>(DecodeError::Truncated)
                && final(self).rest() == old(self).rest(),
            old(self).rest().len() >= 1 ==> r == Ok::<u8, DecodeError>(old(self).rest()[0])
                && final(self).rest() == old(self).rest().skip(1),
    {
        if self.pos >= self.data.len() {
            return Err(DecodeError::Truncated);
        }
        let b = self.data[self.pos];
        self.pos = self.pos + 1;
        proof {
            assert(self.rest() =~= old(self).rest().skip(1));
        }
        Ok(b)
    }

    pub fn read_u16_le(&mut self) -> (r: Result<u16, DecodeError>)
        requires
            old(self).wf(),
        ensures
            final(self).wf(),
            old(self).rest().len() < 2 ==> r == Err::<u16, DecodeError>(DecodeError::Truncated)
                && final(self).rest() == old(self).rest(),
            old(self).rest().len() >= 2 ==> r is Ok && final(self).rest() == old(self).rest().skip(2),
            r matches Ok(v) ==> v == le16(old(self).rest()[0], old(self).rest()[1]),
    {
        if self.data.len() - self.pos < 2 {
            return Err(DecodeError::Truncated);
        }
        let v = bytes_to_u16(self.data[self.pos], self.data[self.pos + 1]);
        self.pos = self.pos + 2;
        proof {
            assert(self.rest() =~= old(self).rest().skip(2));
        }
        Ok(v)
    }

    pub fn read_u32_le(&mut self) -> (r: Result<u32, DecodeError>)
        requires
            old(self).wf(),
        ensures
            final(self).wf(),
            old(self).rest().len() < 4 ==> r == Err::<u32, DecodeError>(DecodeError::Truncated)
                && final(self).rest() == old(self).rest(),
            old(self).rest().len() >= 4 ==> r is Ok && final(self).rest() == old(self).rest().skip(4),
            r matches Ok(v) ==> v == le32(
                old(self).rest()[0],
                old(self).rest()[1],
                old(self).rest()[2],
                old(self).rest()[3],
            ),
    {
        if self.data.len() - self.pos < 4 {
            return Err(DecodeError::Truncated);
        }
        let a = self.data[self.pos] as u32;
        let b = self.data[self.pos + 1] as u32;
        let c = self.data[self.pos + 2] as u32;
        let d = self.data[self.pos + 3] as u32;
        let v = a + 256 * b + 65536 * c + 16777216 * d;
        self.pos = self.pos + 4;
        proof {
            assert(self.rest() =~= old(self).rest().skip(4));
        }
        Ok(v)
    }

    /// Why no varint could be read here: `Truncated` when the input ends inside one,
    /// `MalformedConnectivity` when it is too long for 64 bits.
    fn varint_failure(&self) -> (e: DecodeError)
        requires
            self.wf(),
        ensures
            e == DecodeError::Truncated <==> varuint_truncated(self.rest()),
            e == DecodeError::Truncated || e == DecodeError::MalformedConnectivity,
    {
        let ghost s = self.rest();
        let len = self.data.len();
        let mut i: usize = self.pos;
        let mut all_cont = true;
        while i < len
            invariant
                self.pos <= i <= len,
                len == self.data@.len(),
                s == self.data@.subrange(self.pos as int, len as int),
                all_cont <==> forall|j: int| 0 <= j < i - self.pos ==> s[j] >= 128,
            decreases len - i,
        {
            assert(s[i - self.pos] == self.data@[i as int]);
            if self.data[i] < 128 {
                all_cont = false;
            }
            i = i + 1;
        }
        if all_cont && len - self.pos < 10 {
            DecodeError::Truncated
        } else {
            DecodeError::MalformedConnectivity
        }
    }

    /// Reads an unsigned varint. Fails with `Truncated` when the input ends inside it and
    /// with `MalformedConnectivity` when its value does not fit in 64 bits; on failure
    /// nothing is consumed.
    pub fn read_varuint(&mut self) -> (r: Result<u64, DecodeError>)
        requires
            old(self).wf(),
        ensures
            final(self).wf(),
            r is Ok <==> exists|n: nat| varuint_ends_at(old(self).rest(), n),
            r matches Ok(v) ==> exists|n: nat|
                varuint_ends_at(old(self).rest(), n) && v == varuint_sum(old(self).rest(), n)
                    && final(self).rest() == old(self).rest().skip(n as int),
            r is Err ==> final(self).rest() == old(self).rest(),
            r matches Err(e) ==> (e == DecodeError::Truncated <==> varuint_truncated(old(self).rest())),
            r matches Err(e) ==> (e == DecodeError::Truncated || e == DecodeError::MalformedConnectivity),
            match varuint_at(old(self).rest()) {
                Some((v, n)) => r == Ok::<u64, DecodeError>(v as u64) && final(self).rest()
                    == old(self).rest().skip(n as int),
                None => r == Err::<u64, DecodeError>(varint_error(old(self).rest())),
            },
    {
        let ghost s = self.rest();
        assert(self.data@.subrange(self.pos as int, self.data@.len() as int) == s);
        match leb128_unsigned_at(self.data.as_slice(), self.pos) {
            Some((v, rest)) => {
                let ghost n = (s.len() - rest) as nat;
                self.pos = self.data.len() - rest;
                assert(self.rest() =~= s.skip(n as int));
                Ok(v)
            },
            None => Err(self.varint_failure()),
        }
    }
}

impl ByteCursor {
    /// Reads a signed varint. Fails with `Truncated` when the input ends inside it and with
    /// `MalformedConnectivity` when its value does not fit in 64 bits; on failure nothing
    /// is consumed.
    pub fn read_varint(&mut self) -> (r: Result<i64, DecodeError>)
        requires
            old(self).wf(),
        ensures
            final(self).wf(),
            r is Ok <==> exists|n: nat| varint_ends_at(old(self).rest(), n),
            r matches Ok(v) ==> exists|n: nat|
                varint_ends_at(old(self).rest(), n) && v == varint_value(old(self).rest(), n)
                    && final(self).rest() == old(self).rest().skip(n as int),
            r is Err ==> final(self).rest() == old(self).rest(),
            r matches Err(e) ==> (e == DecodeError::Truncated <==> varuint_truncated(old(self).rest())),
            r matches Err(e) ==> (e == DecodeError::Truncated || e == DecodeError::MalformedConnectivity),
    {
        let ghost s = self.rest();
        assert(self.data@.subrange(self.pos as int, self.data@.len() as int) == s);
        match leb128_signed_at(self.data.as_slice(), self.pos) {
            Some((v, rest)) => {
                let ghost n = (s.len() - rest) as nat;
                self.pos = self.data.len() - rest;
                assert(self.rest() =~= s.skip(n as int));
                Ok(v)
            },
            None => Err(self.varint_failure()),
        }
    }
}

/// A signed varint has one length: the first byte without the continuation bit ends it.
pub proof fn lemma_varint_length_unique(s: Seq<u8>, n1: nat, n2: nat)
    requires
        varint_ends_at(s, n1),
        varint_ends_at(s, n2),
    ensures
        n1 == n2,
{
    if n1 < n2 {
        assert(s[n1 - 1] >= 128);
    } else if n2 < n1 {
        assert(s[n2 - 1] >= 128);
    }
}

/// Reads a little-endian 16-bit value from its two bytes.
pub fn bytes_to_u16(lo: u8, hi: u8) -> (r: u16)
    ensures
        r == le16(lo, hi),
{
    lo as u16 + 256 * (hi as u16)
}

} // verus!
