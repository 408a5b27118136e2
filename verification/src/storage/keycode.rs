//! How numbers and the keys of the transaction layer are written as bytes.
//!
//! A number takes eight bytes, the highest first, so that numbers compare
//! as their bytes do.
use vstd::prelude::*;

use crate::storage::order::less;

verus! {

/// The eight bytes of a number, the highest first.
pub open spec fn be64(x: u64) -> Seq<u8> {
    seq![
        ((x >> 56) & 0xff) as u8,
        ((x >> 48) & 0xff) as u8,
        ((x >> 40) & 0xff) as u8,
        ((x >> 32) & 0xff) as u8,
        ((x >> 24) & 0xff) as u8,
        ((x >> 16) & 0xff) as u8,
        ((x >> 8) & 0xff) as u8,
        (x & 0xff) as u8,
    ]
}

/// The number that eight bytes spell, the highest first.
pub open spec fn from_be64(s: Seq<u8>) -> u64
    recommends
        s.len() == 8,
{
    (s[0] as u64) << 56 | (s[1] as u64) << 48 | (s[2] as u64) << 40 | (s[3] as u64) << 32 | (
    s[4] as u64) << 24 | (s[5] as u64) << 16 | (s[6] as u64) << 8 | (s[7] as u64)
}

/// A number is read back from its bytes.
pub proof fn lemma_be64_read_back(x: u64)
    ensures
        be64(x).len() == 8,
        from_be64(be64(x)) == x,
{
    assert((((x >> 56) & 0xff) as u8 as u64) << 56 | (((x >> 48) & 0xff) as u8 as u64) << 48 | (((x
        >> 40) & 0xff) as u8 as u64) << 40 | (((x >> 32) & 0xff) as u8 as u64) << 32 | (((x >> 24)
        & 0xff) as u8 as u64) << 24 | (((x >> 16) & 0xff) as u8 as u64) << 16 | (((x >> 8) & 0xff)
        as u8 as u64) << 8 | ((x & 0xff) as u8 as u64) == x) by (bit_vector);
}

/// Eight bytes are the bytes of the number they spell.
pub proof fn lemma_be64_of_bytes(s: Seq<u8>)
    requires
        s.len() == 8,
    ensures
        be64(from_be64(s)) == s,
{
    let (a, b, c, d, e, f, g, h) = (s[0], s[1], s[2], s[3], s[4], s[5], s[6], s[7]);
    let x = from_be64(s);
    assert(x == (a as u64) << 56 | (b as u64) << 48 | (c as u64) << 40 | (d as u64) << 32 | (
    e as u64) << 24 | (f as u64) << 16 | (g as u64) << 8 | (h as u64));
    assert(x == (a as u64) << 56 | (b as u64) << 48 | (c as u64) << 40 | (d as u64) << 32 | (
    e as u64) << 24 | (f as u64) << 16 | (g as u64) << 8 | (h as u64) ==> ((x >> 56) & 0xff) as u8
        == a && ((x >> 48) & 0xff) as u8 == b && ((x >> 40) & 0xff) as u8 == c && ((x >> 32)
        & 0xff) as u8 == d && ((x >> 24) & 0xff) as u8 == e && ((x >> 16) & 0xff) as u8 == f && ((x
        >> 8) & 0xff) as u8 == g && (x & 0xff) as u8 == h) by (bit_vector);
    assert(be64(x) =~= s);
}

/// Different numbers have different bytes.
pub proof fn lemma_be64_injective(x: u64, y: u64)
    requires
        be64(x) == be64(y),
    ensures
        x == y,
{
    lemma_be64_read_back(x);
    lemma_be64_read_back(y);
}

/// The bytes of the smaller number come first.
pub proof fn lemma_be64_order(x: u64, y: u64)
    requires
        x < y,
    ensures
        less(be64(x), be64(y)),
{
    let a = be64(x);
    let b = be64(y);
    assert(x < y ==> ((((x >> 56) & 0xff) as u8) < (((y >> 56) & 0xff) as u8) || ((((x >> 56) & 0xff) as u8) == (((y >> 56) & 0xff) as u8) && (((((x >> 48) & 0xff) as u8) < (((y >> 48) & 0xff) as u8) || ((((x >> 48) & 0xff) as u8) == (((y >> 48) & 0xff) as u8) && (((((x >> 40) & 0xff) as u8) < (((y >> 40) & 0xff) as u8) || ((((x >> 40) & 0xff) as u8) == (((y >> 40) & 0xff) as u8) && (((((x >> 32) & 0xff) as u8) < (((y >> 32) & 0xff) as u8) || ((((x >> 32) & 0xff) as u8) == (((y >> 32) & 0xff) as u8) && (((((x >> 24) & 0xff) as u8) < (((y >> 24) & 0xff) as u8) || ((((x >> 24) & 0xff) as u8) == (((y >> 24) & 0xff) as u8) && (((((x >> 16) & 0xff) as u8) < (((y >> 16) & 0xff) as u8) || ((((x >> 16) & 0xff) as u8) == (((y >> 16) & 0xff) as u8) && (((((x >> 8) & 0xff) as u8) < (((y >> 8) & 0xff) as u8) || ((((x >> 8) & 0xff) as u8) == (((y >> 8) & 0xff) as u8) && (((x & 0xff) as u8) < ((y & 0xff) as u8))))))))))))))))))))))) by (bit_vector);
    let a1 = a.drop_first();
    let b1 = b.drop_first();
    let a2 = a1.drop_first();
    let b2 = b1.drop_first();
    let a3 = a2.drop_first();
    let b3 = b2.drop_first();
    let a4 = a3.drop_first();
    let b4 = b3.drop_first();
    let a5 = a4.drop_first();
    let b5 = b4.drop_first();
    let a6 = a5.drop_first();
    let b6 = b5.drop_first();
    let a7 = a6.drop_first();
    let b7 = b6.drop_first();
    assert(a7[0] == a[7] && b7[0] == b[7]);
    assert(a7.drop_first().len() == 0);
    assert(less(a7, b7) == (a[7] < b[7] || (a[7] == b[7] && less(
        a7.drop_first(),
        b7.drop_first(),
    ))));
    assert(less(a6, b6) == (if a[6] != b[6] {
        a[6] < b[6]
    } else {
        less(a7, b7)
    }));
    assert(less(a5, b5) == (if a[5] != b[5] {
        a[5] < b[5]
    } else {
        less(a6, b6)
    }));
    assert(less(a4, b4) == (if a[4] != b[4] {
        a[4] < b[4]
    } else {
        less(a5, b5)
    }));
    assert(less(a3, b3) == (if a[3] != b[3] {
        a[3] < b[3]
    } else {
        less(a4, b4)
    }));
    assert(less(a2, b2) == (if a[2] != b[2] {
        a[2] < b[2]
    } else {
        less(a3, b3)
    }));
    assert(less(a1, b1) == (if a[1] != b[1] {
        a[1] < b[1]
    } else {
        less(a2, b2)
    }));
    assert(less(a, b) == (if a[0] != b[0] {
        a[0] < b[0]
    } else {
        less(a1, b1)
    }));
}

/// Writes a number behind `out`.
pub fn put_u64(out: &mut Vec<u8>, x: u64)
    ensures
        final(out)@ == old(out)@ + be64(x),
{
    let ghost before = out@;
    assert((x >> 56) & 0xff < 256 && (x >> 48) & 0xff < 256 && (x >> 40) & 0xff < 256 && (x >> 32)
        & 0xff < 256 && (x >> 24) & 0xff < 256 && (x >> 16) & 0xff < 256 && (x >> 8) & 0xff < 256
        && x & 0xff < 256) by (bit_vector);
    out.push(((x >> 56) & 0xff) as u8);
    out.push(((x >> 48) & 0xff) as u8);
    out.push(((x >> 40) & 0xff) as u8);
    out.push(((x >> 32) & 0xff) as u8);
    out.push(((x >> 24) & 0xff) as u8);
    out.push(((x >> 16) & 0xff) as u8);
    out.push(((x >> 8) & 0xff) as u8);
    out.push((x & 0xff) as u8);
    assert(out@ =~= before + be64(x));
}

/// Reads the number that stands at `at`.
pub fn get_u64(bytes: &Vec<u8>, at: usize) -> (x: u64)
    requires
        at + 8 <= bytes.len(),
    ensures
        x == from_be64(bytes@.subrange(at as int, at + 8)),
{
    (bytes[at] as u64) << 56 | (bytes[at + 1] as u64) << 48 | (bytes[at + 2] as u64) << 40 | (
    bytes[at + 3] as u64) << 32 | (bytes[at + 4] as u64) << 24 | (bytes[at + 5] as u64) << 16 | (
    bytes[at + 6] as u64) << 8 | (bytes[at + 7] as u64)
}

} // verus!
