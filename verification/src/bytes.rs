//! Little-endian integers and positions in byte sequences.

use vstd::prelude::*;
use vstd::slice::slice_subrange;
use crate::error::{unexpected_eof, ErrorKind};

verus! {

/// The two bytes that hold `x`, least significant first.
pub open spec fn le_u16(x: u16) -> Seq<u8> {
    seq![(x % 256) as u8, (x / 256) as u8]
}

/// The four bytes that hold `x`, least significant first.
pub open spec fn le_u32(x: u32) -> Seq<u8> {
    seq![
        (x % 256) as u8,
        (x / 256 % 256) as u8,
        (x / 65536 % 256) as u8,
        (x / 16777216) as u8,
    ]
}

/// The number whose little-endian bytes are the first two of `s`.
pub open spec fn u16_of_le(s: Seq<u8>) -> u16 {
    (s[0] + 256 * s[1]) as u16
}

/// The number whose little-endian bytes are the first four of `s`.
pub open spec fn u32_of_le(s: Seq<u8>) -> u32 {
    (s[0] + 256 * s[1] + 65536 * s[2] + 16777216 * s[3]) as u32
}

/// `chunk` stands in `s` at position `pos`.
pub open spec fn has_at(s: Seq<u8>, pos: int, chunk: Seq<u8>) -> bool {
    &&& 0 <= pos
    &&& pos + chunk.len() <= s.len()
    &&& s.subrange(pos, pos + chunk.len()) == chunk
}

/// What an exact read of `len` bytes at `pos` gives: the bytes, or `None`
/// where the range passes the end of `file`. A read of no bytes gives the
/// empty sequence wherever it is made.
pub open spec fn piece(file: Seq<u8>, pos: int, len: int) -> Option<Seq<u8>> {
    if len <= 0 {
        Some(Seq::empty())
    } else if 0 <= pos && pos + len <= file.len() {
        Some(file.subrange(pos, pos + len))
    } else {
        None
    }
}

/// A chunk of two parts stands at `pos` exactly where the first part stands
/// there and the second right behind it.
pub proof fn lemma_has_at_split(s: Seq<u8>, pos: int, a: Seq<u8>, b: Seq<u8>)
    ensures
        has_at(s, pos, a + b) <==> has_at(s, pos, a) && has_at(s, pos + a.len(), b),
{
    if has_at(s, pos, a + b) {
        let whole = s.subrange(pos, pos + (a + b).len());
        assert(s.subrange(pos, pos + a.len()) =~= whole.subrange(0, a.len() as int));
        assert(whole.subrange(0, a.len() as int) =~= a);
        assert(s.subrange(pos + a.len(), pos + a.len() + b.len()) =~= whole.subrange(
            a.len() as int,
            (a + b).len() as int,
        ));
        assert(whole.subrange(a.len() as int, (a + b).len() as int) =~= b);
    }
    if has_at(s, pos, a) && has_at(s, pos + a.len(), b) {
        assert(s.subrange(pos, pos + (a + b).len()) =~= s.subrange(pos, pos + a.len())
            + s.subrange(pos + a.len(), pos + a.len() + b.len()));
    }
}

/// A part of a chunk that stands in `s` stands there too.
pub proof fn lemma_has_at_within(s: Seq<u8>, pos: int, chunk: Seq<u8>, from: int, to: int)
    requires
        has_at(s, pos, chunk),
        0 <= from <= to <= chunk.len(),
    ensures
        has_at(s, pos + from, chunk.subrange(from, to)),
{
    let whole = s.subrange(pos, pos + chunk.len());
    assert(s.subrange(pos + from, pos + from + (to - from)) =~= whole.subrange(from, to));
}

/// Reading the bytes of a 16 bit number gives the number back.
pub proof fn lemma_le_u16_round_trip(x: u16)
    ensures
        le_u16(x).len() == 2,
        u16_of_le(le_u16(x)) == x,
{
    let lo = (x % 256) as int;
    let hi = (x / 256) as int;
    assert(x == lo + 256 * hi);
    assert(le_u16(x)[0] == lo && le_u16(x)[1] == hi);
}

/// Reading the bytes of a 32 bit number gives the number back.
pub proof fn lemma_le_u32_round_trip(x: u32)
    ensures
        le_u32(x).len() == 4,
        u32_of_le(le_u32(x)) == x,
{
    let b0 = (x % 256) as int;
    let r1 = (x / 256) as int;
    let b1 = r1 % 256;
    let r2 = r1 / 256;
    let b2 = r2 % 256;
    let b3 = r2 / 256;
    assert(x == b0 + 256 * r1);
    assert(r1 == b1 + 256 * r2);
    assert(r2 == b2 + 256 * b3);
    assert(r2 == x / 65536);
    assert(b3 == x / 16777216);
    assert(le_u32(x)[0] == b0);
    assert(le_u32(x)[1] == b1);
    assert(le_u32(x)[2] == b2);
    assert(le_u32(x)[3] == b3);
}

/// Writing the number that two bytes stand for gives the bytes back.
pub proof fn lemma_u16_of_le_round_trip(s: Seq<u8>)
    requires
        s.len() == 2,
    ensures
        le_u16(u16_of_le(s)) == s,
{
    let x = s[0] + 256 * s[1];
    assert(x % 256 == s[0]);
    assert(x / 256 == s[1]);
    assert(le_u16(u16_of_le(s)) =~= s);
}

/// Writing the number that four bytes stand for gives the bytes back.
pub proof fn lemma_u32_of_le_round_trip(s: Seq<u8>)
    requires
        s.len() == 4,
    ensures
        le_u32(u32_of_le(s)) == s,
{
    let r2 = s[2] + 256 * s[3];
    let r1 = s[1] + 256 * r2;
    let x = s[0] + 256 * r1;
    assert(x == s[0] + 256 * s[1] + 65536 * s[2] + 16777216 * s[3]);
    assert(x % 256 == s[0] && x / 256 == r1);
    assert(r1 % 256 == s[1] && r1 / 256 == r2);
    assert(r2 % 256 == s[2] && r2 / 256 == s[3]);
    assert(x / 65536 == r2);
    assert(x / 16777216 == s[3]);
    let y = u32_of_le(s);
    assert(y == x);
    assert(le_u32(y)[0] == s[0]);
    assert(le_u32(y)[1] == s[1]);
    assert(le_u32(y)[2] == s[2]);
    assert(le_u32(y)[3] == s[3]);
    assert(le_u32(y) =~= s);
}

/// Appends the little-endian bytes of `x` to `out`.
pub fn put_u16(out: &mut Vec<u8>, x: u16)
    ensures
        final(out)@ == old(out)@ + le_u16(x),
{
    out.push((x % 256) as u8);
    out.push((x / 256) as u8);
}

/// Appends the little-endian bytes of `x` to `out`.
pub fn put_u32(out: &mut Vec<u8>, x: u32)
    ensures
        final(out)@ == old(out)@ + le_u32(x),
{
    out.push((x % 256) as u8);
    out.push((x / 256 % 256) as u8);
    out.push((x / 65536 % 256) as u8);
    out.push((x / 16777216) as u8);
}

/// Reads the little-endian number that stands at `pos`.
pub fn get_u16(s: &[u8], pos: usize) -> (x: u16)
    requires
        pos + 2 <= s.len(),
    ensures
        x == u16_of_le(s@.subrange(pos as int, pos + 2)),
{
    let lo: u16 = s[pos] as u16;
    let hi: u16 = s[pos + 1] as u16;
    lo + 256 * hi
}

/// Reads the little-endian number that stands at `pos`.
pub fn get_u32(s: &[u8], pos: usize) -> (x: u32)
    requires
        pos + 4 <= s.len(),
    ensures
        x == u32_of_le(s@.subrange(pos as int, pos + 4)),
{
    let b0: u32 = s[pos] as u32;
    let b1: u32 = s[pos + 1] as u32;
    let b2: u32 = s[pos + 2] as u32;
    let b3: u32 = s[pos + 3] as u32;
    b0 + 256 * b1 + 65536 * b2 + 16777216 * b3
}

/// Appends a copy of `s` to `out`.
pub fn append_bytes(out: &mut Vec<u8>, s: &[u8])
    ensures
        final(out)@ == old(out)@ + s@,
{
    out.extend_from_slice(s);
    assert(out@ =~= old(out)@ + s@);
}

/// Whether two byte strings are the same.
pub fn bytes_equal(a: &[u8], b: &[u8]) -> (same: bool)
    ensures
        same == (a@ == b@),
{
    if a.len() != b.len() {
        return false;
    }
    let mut i: usize = 0;
    while i < a.len()
        invariant
            i <= a.len(),
            a.len() == b.len(),
            forall|j: int| 0 <= j < i ==> a@[j] == b@[j],
        decreases a.len() - i,
    {
        if a[i] != b[i] {
            return false;
        }
        i = i + 1;
    }
    assert(a@ =~= b@);
    true
}

/// The `len` bytes that stand at `pos` in a file that is held in memory:
/// what a seek to `pos` and an exact read of `len` bytes give. A range that
/// passes the end of the file is an `IO` error.
pub fn read_range(file: &[u8], pos: u64, len: u64) -> (r: Result<&[u8], ErrorKind>)
    ensures
        match r {
            Ok(bytes) => pos + len <= file@.len() && bytes@ == file@.subrange(
                pos as int,
                pos + len,
            ),
            Err(ErrorKind::IO(_)) => pos + len > file@.len(),
            Err(_) => false,
        },
{
    let size: u64 = file.len() as u64;
    if pos > size || len > size - pos {
        return Err(unexpected_eof());
    }
    Ok(slice_subrange(file, pos as usize, (pos + len) as usize))
}

/// An exact read of `len` bytes at `pos` in a file that is held in memory.
/// A read of no bytes succeeds wherever it is made; any other read that
/// passes the end of the file is an `IO` error.
pub fn read_piece(file: &[u8], pos: u64, len: u64) -> (r: Result<&[u8], ErrorKind>)
    ensures
        match r {
            Ok(bytes) => piece(file@, pos as int, len as int) == Some(bytes@),
            Err(ErrorKind::IO(_)) => piece(file@, pos as int, len as int) is None,
            Err(_) => false,
        },
{
    if len == 0 {
        let bytes = slice_subrange(file, 0, 0);
        assert(bytes@ =~= Seq::<u8>::empty());
        Ok(bytes)
    } else {
        read_range(file, pos, len)
    }
}

} // verus!
