//! Little-endian primitives shared by every encoding in the crate: the bytes
//! of integers and length-prefixed fields, how they are read back from the
//! front of a buffer, and the bounds-checked reader that does it.

use vstd::prelude::*;
use vstd::slice::slice_subrange;

verus! {

/// The `n` lowest bytes of `x`, the lowest first.
#[verifier::opaque]
pub open spec fn le_bytes(x: nat, n: nat) -> Seq<u8>
    decreases n,
{
    if n == 0 {
        Seq::empty()
    } else {
        seq![(x % 256) as u8] + le_bytes(x / 256, (n - 1) as nat)
    }
}

/// The number whose bytes are `b`, the lowest first.
#[verifier::opaque]
pub open spec fn le_value(b: Seq<u8>) -> nat
    decreases b.len(),
{
    if b.len() == 0 {
        0
    } else {
        b[0] as nat + 256 * le_value(b.drop_first())
    }
}

/// Whether `x` has no more than `n` bytes.
pub open spec fn fits(x: nat, n: nat) -> bool
    decreases n,
{
    if n == 0 {
        x == 0
    } else {
        fits(x / 256, (n - 1) as nat)
    }
}

/// The four little-endian bytes of `x`.
pub open spec fn u32_bytes(x: u32) -> Seq<u8> {
    le_bytes(x as nat, 4)
}

/// The eight little-endian bytes of `x`.
pub open spec fn u64_bytes(x: u64) -> Seq<u8> {
    le_bytes(x as nat, 8)
}

pub proof fn lemma_le_bytes(x: nat, n: nat)
    ensures
        le_bytes(x, n).len() == n,
        fits(x, n) ==> le_value(le_bytes(x, n)) == x,
    decreases n,
{
    reveal(le_bytes);
    reveal(le_value);
    if n > 0 {
        let rest = le_bytes(x / 256, (n - 1) as nat);
        lemma_le_bytes(x / 256, (n - 1) as nat);
        assert(le_bytes(x, n).drop_first() =~= rest);
    }
}

pub proof fn lemma_le_value(b: Seq<u8>)
    ensures
        le_bytes(le_value(b), b.len()) == b,
        fits(le_value(b), b.len()),
    decreases b.len(),
{
    reveal(le_bytes);
    reveal(le_value);
    if b.len() > 0 {
        let rest = b.drop_first();
        lemma_le_value(rest);
        let v = le_value(b);
        assert(v % 256 == b[0]);
        assert(v / 256 == le_value(rest));
        assert(b =~= seq![b[0]] + rest);
    } else {
        assert(le_bytes(le_value(b), b.len()) =~= b);
    }
}

proof fn lemma_fits(x: nat)
    ensures
        fits(x, 4) <==> x <= u32::MAX,
        fits(x, 8) <==> x <= u64::MAX,
{
    reveal_with_fuel(fits, 9);
}

/// A length-prefixed byte string. The length field is 32 bits wide; longer
/// strings have their length truncated to it.
pub open spec fn field_bytes(data: Seq<u8>) -> Seq<u8> {
    u32_bytes(data.len() as u32) + data
}

/// Splits the first `n` bytes off `b`.
pub open spec fn take_bytes(b: Seq<u8>, n: nat) -> Option<(Seq<u8>, Seq<u8>)> {
    if n <= b.len() {
        Some((b.subrange(0, n as int), b.subrange(n as int, b.len() as int)))
    } else {
        None
    }
}

/// Reads one byte off the front of `b`.
pub open spec fn take_u8(b: Seq<u8>) -> Option<(u8, Seq<u8>)> {
    match take_bytes(b, 1) {
        Some((x, rest)) => Some((x[0], rest)),
        None => None,
    }
}

/// Reads a 32-bit integer off the front of `b`.
pub open spec fn take_u32(b: Seq<u8>) -> Option<(u32, Seq<u8>)> {
    match take_bytes(b, 4) {
        Some((x, rest)) => Some((le_value(x) as u32, rest)),
        None => None,
    }
}

/// Reads a 64-bit integer off the front of `b`.
pub open spec fn take_u64(b: Seq<u8>) -> Option<(u64, Seq<u8>)> {
    match take_bytes(b, 8) {
        Some((x, rest)) => Some((le_value(x) as u64, rest)),
        None => None,
    }
}

/// Reads a length-prefixed byte string off the front of `b`.
pub open spec fn take_field(b: Seq<u8>) -> Option<(Seq<u8>, Seq<u8>)> {
    match take_u32(b) {
        Some((n, rest)) => take_bytes(rest, n as nat),
        None => None,
    }
}

pub proof fn lemma_take_u8(x: u8, rest: Seq<u8>)
    ensures
        take_u8(seq![x] + rest) == Some((x, rest)),
{
    assert((seq![x] + rest).subrange(1, 1 + rest.len() as int) =~= rest);
}

pub proof fn lemma_take_u8_sound(b: Seq<u8>)
    ensures
        take_u8(b) matches Some((x, rest)) ==> b == seq![x] + rest,
{
    if b.len() >= 1 {
        assert(b =~= seq![b[0]] + b.subrange(1, b.len() as int));
    }
}

pub proof fn lemma_take_u32(x: u32, rest: Seq<u8>)
    ensures
        take_u32(u32_bytes(x) + rest) == Some((x, rest)),
        u32_bytes(x).len() == 4,
{
    lemma_le_bytes(x as nat, 4);
    lemma_fits(x as nat);
    let b = u32_bytes(x) + rest;
    assert(b.subrange(0, 4) =~= u32_bytes(x));
    assert(b.subrange(4, b.len() as int) =~= rest);
}

pub proof fn lemma_take_u32_sound(b: Seq<u8>)
    ensures
        take_u32(b) matches Some((x, rest)) ==> b == u32_bytes(x) + rest,
{
    if b.len() >= 4 {
        lemma_le_value(b.subrange(0, 4));
        lemma_fits(le_value(b.subrange(0, 4)));
        assert(b =~= b.subrange(0, 4) + b.subrange(4, b.len() as int));
    }
}

pub proof fn lemma_take_u64(x: u64, rest: Seq<u8>)
    ensures
        take_u64(u64_bytes(x) + rest) == Some((x, rest)),
        u64_bytes(x).len() == 8,
{
    lemma_le_bytes(x as nat, 8);
    lemma_fits(x as nat);
    let b = u64_bytes(x) + rest;
    assert(b.subrange(0, 8) =~= u64_bytes(x));
    assert(b.subrange(8, b.len() as int) =~= rest);
}

pub proof fn lemma_take_u64_sound(b: Seq<u8>)
    ensures
        take_u64(b) matches Some((x, rest)) ==> b == u64_bytes(x) + rest,
{
    if b.len() >= 8 {
        lemma_le_value(b.subrange(0, 8));
        lemma_fits(le_value(b.subrange(0, 8)));
        assert(b =~= b.subrange(0, 8) + b.subrange(8, b.len() as int));
    }
}

pub proof fn lemma_take_field(data: Seq<u8>, rest: Seq<u8>)
    requires
        data.len() <= u32::MAX,
    ensures
        take_field(field_bytes(data) + rest) == Some((data, rest)),
{
    let n = data.len() as u32;
    lemma_take_u32(n, data + rest);
    assert(field_bytes(data) + rest =~= u32_bytes(n) + (data + rest));
    assert((data + rest).subrange(0, n as int) =~= data);
    assert((data + rest).subrange(n as int, (data + rest).len() as int) =~= rest);
}

pub proof fn lemma_take_field_sound(b: Seq<u8>)
    ensures
        take_field(b) matches Some((data, rest)) ==> data.len() <= u32::MAX && b == field_bytes(
            data,
        ) + rest,
{
    lemma_take_u32_sound(b);
    if let Some((n, mid)) = take_u32(b) {
        if let Some((data, rest)) = take_bytes(mid, n as nat) {
            assert(mid =~= data + rest);
            assert(data.len() as u32 == n);
            assert(b =~= field_bytes(data) + rest);
        }
    }
}

/// The eight bytes of a number are the four of its low half and the four of
/// its high half.
proof fn lemma_halves(x: u64)
    ensures
        u64_bytes(x) == u32_bytes((x % 0x1_0000_0000) as u32) + u32_bytes(
            (x / 0x1_0000_0000) as u32,
        ),
{
    let low = u32_bytes((x % 0x1_0000_0000) as u32);
    let high = u32_bytes((x / 0x1_0000_0000) as u32);
    lemma_le_bytes((x % 0x1_0000_0000) as nat, 4);
    lemma_le_bytes((x / 0x1_0000_0000) as nat, 4);
    lemma_fits((x % 0x1_0000_0000) as nat);
    lemma_fits((x / 0x1_0000_0000) as nat);
    lemma_le_value_halves(low, high);
    lemma_le_value(low + high);
}

/// The number that eight bytes make up, by halves.
proof fn lemma_le_value_halves(low: Seq<u8>, high: Seq<u8>)
    requires
        low.len() == 4,
    ensures
        le_value(low + high) == le_value(low) + 0x1_0000_0000 * le_value(high),
{
    let all = low + high;
    reveal_with_fuel(le_value, 5);
    assert(all.drop_first().drop_first().drop_first().drop_first() =~= high);
}

/// Appends the four little-endian bytes of `x`.
pub fn put_u32(out: &mut Vec<u8>, x: u32)
    ensures
        final(out)@ == old(out)@ + u32_bytes(x),
{
    let x1 = x / 256;
    let x2 = x1 / 256;
    let x3 = x2 / 256;
    out.push((x % 256) as u8);
    out.push((x1 % 256) as u8);
    out.push((x2 % 256) as u8);
    out.push((x3 % 256) as u8);
    proof {
        reveal_with_fuel(le_bytes, 5);
        assert(out@ =~= old(out)@ + u32_bytes(x));
    }
}

/// Appends the eight little-endian bytes of `x`.
pub fn put_u64(out: &mut Vec<u8>, x: u64)
    ensures
        final(out)@ == old(out)@ + u64_bytes(x),
{
    let low = (x % 0x1_0000_0000) as u32;
    let high = (x / 0x1_0000_0000) as u32;
    put_u32(out, low);
    put_u32(out, high);
    proof {
        lemma_halves(x);
        assert(out@ =~= old(out)@ + (u32_bytes(low) + u32_bytes(high)));
    }
}

/// Appends `data` as it is.
pub fn put_slice(out: &mut Vec<u8>, data: &[u8])
    ensures
        final(out)@ == old(out)@ + data@,
{
    out.extend_from_slice(data);
    assert(out@ =~= old(out)@ + data@);
}

/// Appends `data` with its length in front.
pub fn encode_bytes(out: &mut Vec<u8>, data: &[u8])
    ensures
        final(out)@ == old(out)@ + field_bytes(data@),
{
    put_u32(out, data.len() as u32);
    put_slice(out, data);
    assert(out@ =~= old(out)@ + field_bytes(data@));
}

/// Bounds-checked little-endian reader used by all decoding in the crate.
pub struct Cursor<'a> {
    pub buf: &'a [u8],
    pub pos: usize,
}

impl<'a> Cursor<'a> {
    /// The position lies inside the buffer or at its end.
    pub open spec fn wf(&self) -> bool {
        self.pos <= self.buf@.len()
    }

    /// The bytes not read yet.
    pub open spec fn rest(&self) -> Seq<u8> {
        self.buf@.subrange(self.pos as int, self.buf@.len() as int)
    }

    pub fn new(buf: &'a [u8]) -> (c: Cursor<'a>)
        ensures
            c.wf(),
            c.rest() == buf@,
    {
        let c = Cursor { buf, pos: 0 };
        assert(c.rest() =~= buf@);
        c
    }

    pub fn u8(&mut self) -> (r: Option<u8>)
        requires
            old(self).wf(),
        ensures
            final(self).wf(),
            match take_u8(old(self).rest()) {
                Some((x, rest)) => r == Some(x) && final(self).rest() == rest,
                None => r is None,
            },
    {
        let bytes = self.bytes(1)?;
        Some(bytes[0])
    }

    pub fn u32(&mut self) -> (r: Option<u32>)
        requires
            old(self).wf(),
        ensures
            final(self).wf(),
            match take_u32(old(self).rest()) {
                Some((x, rest)) => r == Some(x) && final(self).rest() == rest,
                None => r is None,
            },
    {
        let bytes = self.bytes(4)?;
        proof {
            reveal_with_fuel(le_value, 5);
        }
        Some(
            bytes[0] as u32 + 0x100 * (bytes[1] as u32) + 0x1_0000 * (bytes[2] as u32) + 0x100_0000
                * (bytes[3] as u32),
        )
    }

    pub fn u64(&mut self) -> (r: Option<u64>)
        requires
            old(self).wf(),
        ensures
            final(self).wf(),
            match take_u64(old(self).rest()) {
                Some((x, rest)) => r == Some(x) && final(self).rest() == rest,
                None => r is None,
            },
    {
        let ghost before = self.rest();
        let ghost tail = before.subrange(4, before.len() as int);
        if self.buf.len() - self.pos < 8 {
            return None;
        }
        let low = self.u32()?;
        let high = self.u32()?;
        proof {
            let all = before.subrange(0, 8);
            assert(tail.subrange(0, 4) =~= before.subrange(4, 8));
            assert(tail.subrange(4, tail.len() as int) =~= before.subrange(8, before.len() as int));
            assert(all =~= before.subrange(0, 4) + before.subrange(4, 8));
            lemma_le_value_halves(before.subrange(0, 4), before.subrange(4, 8));
            lemma_le_value(before.subrange(0, 4));
            lemma_le_value(before.subrange(4, 8));
            lemma_fits(le_value(before.subrange(0, 4)));
            lemma_fits(le_value(before.subrange(4, 8)));
        }
        Some(low as u64 + 0x1_0000_0000 * (high as u64))
    }

    pub fn bytes(&mut self, len: usize) -> (r: Option<&'a [u8]>)
        requires
            old(self).wf(),
        ensures
            final(self).wf(),
            match take_bytes(old(self).rest(), len as nat) {
                Some((x, rest)) => r matches Some(slice) && slice@ == x && final(self).rest()
                    == rest,
                None => r is None,
            },
    {
        if len > self.buf.len() - self.pos {
            return None;
        }
        let end = self.pos + len;
        let slice = slice_subrange(self.buf, self.pos, end);
        self.pos = end;
        assert(slice@ =~= old(self).rest().subrange(0, len as int));
        assert(self.rest() =~= old(self).rest().subrange(
            len as int,
            old(self).rest().len() as int,
        ));
        Some(slice)
    }

    /// Reads a length-prefixed byte string.
    pub fn field(&mut self) -> (r: Option<&'a [u8]>)
        requires
            old(self).wf(),
        ensures
            final(self).wf(),
            match take_field(old(self).rest()) {
                Some((x, rest)) => r matches Some(slice) && slice@ == x && final(self).rest()
                    == rest,
                None => r is None,
            },
    {
        let len = self.u32()? as usize;
        self.bytes(len)
    }

    pub fn finished(&self) -> (r: bool)
        requires
            self.wf(),
        ensures
            r == (self.rest().len() == 0),
    {
        self.pos == self.buf.len()
    }
}

} // verus!
