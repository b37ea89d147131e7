//! Fixed-width integers on the wire.
//!
//! Bulk-Only Transport headers are little-endian, SCSI command blocks and
//! their responses are big-endian.
use vstd::prelude::*;

verus! {

/// The four bytes of `x`, least significant byte first.
pub open spec fn le32(x: u32) -> Seq<u8> {
    seq![
        (x % 0x100) as u8,
        (x / 0x100 % 0x100) as u8,
        (x / 0x1_0000 % 0x100) as u8,
        (x / 0x100_0000) as u8,
    ]
}

/// The four bytes of `x`, most significant byte first.
pub open spec fn be32(x: u32) -> Seq<u8> {
    seq![
        (x / 0x100_0000) as u8,
        (x / 0x1_0000 % 0x100) as u8,
        (x / 0x100 % 0x100) as u8,
        (x % 0x100) as u8,
    ]
}

/// The two bytes of `x`, most significant byte first.
pub open spec fn be16(x: u16) -> Seq<u8> {
    seq![(x / 0x100) as u8, (x % 0x100) as u8]
}

/// The number that four bytes write down, least significant byte first.
pub open spec fn le32_value(b: Seq<u8>) -> u32
    recommends
        b.len() == 4,
{
    (b[0] + 0x100 * b[1] + 0x1_0000 * b[2] + 0x100_0000 * b[3]) as u32
}

/// The number that four bytes write down, most significant byte first.
pub open spec fn be32_value(b: Seq<u8>) -> u32
    recommends
        b.len() == 4,
{
    (0x100_0000 * b[0] + 0x1_0000 * b[1] + 0x100 * b[2] + b[3]) as u32
}

/// The number that two bytes write down, most significant byte first.
pub open spec fn be16_value(b: Seq<u8>) -> u16
    recommends
        b.len() == 2,
{
    (0x100 * b[0] + b[1]) as u16
}

/// A run of `n` zero bytes.
pub open spec fn zeros(n: nat) -> Seq<u8> {
    Seq::new(n, |i: int| 0u8)
}

proof fn lemma_split(b0: int, b1: int, b2: int, b3: int, y: int)
    requires
        0 <= b0 < 0x100,
        0 <= b1 < 0x100,
        0 <= b2 < 0x100,
        0 <= b3 < 0x100,
        y == b0 + 0x100 * b1 + 0x1_0000 * b2 + 0x100_0000 * b3,
    ensures
        y % 0x100 == b0,
        y / 0x100 % 0x100 == b1,
        y / 0x1_0000 % 0x100 == b2,
        y / 0x100_0000 == b3,
{
    assert(y / 0x100 == b1 + 0x100 * b2 + 0x1_0000 * b3);
    assert(y / 0x1_0000 == b2 + 0x100 * b3);
}

/// Reading back the little-endian bytes of a number gives the number, and
/// writing down the number that four bytes hold gives the bytes.
pub proof fn law_le32_round_trip(x: u32, b: Seq<u8>)
    requires
        b.len() == 4,
    ensures
        le32_value(le32(x)) == x,
        le32(le32_value(b)) == b,
{
    let y = le32_value(b);
    lemma_split(b[0] as int, b[1] as int, b[2] as int, b[3] as int, y as int);
    assert(le32(y) =~= b);
    let d = le32(x);
    assert(d[0] == x % 0x100 && d[1] == x / 0x100 % 0x100 && d[2] == x / 0x1_0000 % 0x100 && d[3]
        == x / 0x100_0000);
    assert(x / 0x1_0000 == x / 0x100 / 0x100);
    assert(x / 0x100_0000 == x / 0x100 / 0x100 / 0x100);
}

/// Reading back the big-endian bytes of a number gives the number, and
/// writing down the number that four bytes hold gives the bytes.
pub proof fn law_be32_round_trip(x: u32, b: Seq<u8>)
    requires
        b.len() == 4,
    ensures
        be32_value(be32(x)) == x,
        be32(be32_value(b)) == b,
{
    let r = seq![b[3], b[2], b[1], b[0]];
    law_le32_round_trip(x, r);
    assert(be32_value(b) == le32_value(r));
    assert(be32_value(be32(x)) == le32_value(le32(x)));
    let y = be32_value(b);
    assert(le32(y) == r);
    assert(forall|i: int| 0 <= i < 4 ==> be32(y)[i] == le32(y)[3 - i]);
    assert(be32(y) =~= b);
}

/// Reading back the big-endian bytes of a number gives the number, and
/// writing down the number that two bytes hold gives the bytes.
pub proof fn law_be16_round_trip(x: u16, b: Seq<u8>)
    requires
        b.len() == 2,
    ensures
        be16_value(be16(x)) == x,
        be16(be16_value(b)) == b,
{
    assert(be16(be16_value(b)) =~= b);
}

/// The four bytes of a number are its digits in base 256, from the lowest on in
/// the little-endian form and from the highest on in the big-endian form.
pub proof fn law_weights_32(x: u32)
    ensures
        le32(x).len() == 4,
        be32(x).len() == 4,
        x == le32(x)[0] + 0x100 * le32(x)[1] + 0x1_0000 * le32(x)[2] + 0x100_0000 * le32(x)[3],
        x == 0x100_0000 * be32(x)[0] + 0x1_0000 * be32(x)[1] + 0x100 * be32(x)[2] + be32(x)[3],
{
    assert(x / 0x1_0000 == x / 0x100 / 0x100);
    assert(x / 0x100_0000 == x / 0x100 / 0x100 / 0x100);
}

/// The two bytes of a number are its digits in base 256, the highest first.
pub proof fn law_weights_16(x: u16)
    ensures
        be16(x).len() == 2,
        x == 0x100 * be16(x)[0] + be16(x)[1],
{
}

/// The number that bytes write down is the sum of their weights.
pub proof fn law_values(b: Seq<u8>)
    ensures
        le32_value(b) == b[0] + 0x100 * b[1] + 0x1_0000 * b[2] + 0x100_0000 * b[3],
        be32_value(b) == 0x100_0000 * b[0] + 0x1_0000 * b[1] + 0x100 * b[2] + b[3],
        be16_value(b) == 0x100 * b[0] + b[1],
{
}

/// The little-endian bytes of `x`.
pub fn u32_to_le(x: u32) -> (b: [u8; 4])
    ensures
        b@ == le32(x),
        x == b@[0] + 0x100 * b@[1] + 0x1_0000 * b@[2] + 0x100_0000 * b@[3],
{
    let b: [u8; 4] = [
        (x % 0x100) as u8,
        (x / 0x100 % 0x100) as u8,
        (x / 0x1_0000 % 0x100) as u8,
        (x / 0x100_0000) as u8,
    ];
    assert(b@ =~= le32(x));
    proof {
        law_weights_32(x);
    }
    b
}

/// The big-endian bytes of `x`.
pub fn u32_to_be(x: u32) -> (b: [u8; 4])
    ensures
        b@ == be32(x),
        x == 0x100_0000 * b@[0] + 0x1_0000 * b@[1] + 0x100 * b@[2] + b@[3],
{
    let b: [u8; 4] = [
        (x / 0x100_0000) as u8,
        (x / 0x1_0000 % 0x100) as u8,
        (x / 0x100 % 0x100) as u8,
        (x % 0x100) as u8,
    ];
    assert(b@ =~= be32(x));
    proof {
        law_weights_32(x);
    }
    b
}

/// The big-endian bytes of `x`.
pub fn u16_to_be(x: u16) -> (b: [u8; 2])
    ensures
        b@ == be16(x),
        x == 0x100 * b@[0] + b@[1],
{
    let b: [u8; 2] = [(x / 0x100) as u8, (x % 0x100) as u8];
    assert(b@ =~= be16(x));
    b
}

/// The little-endian number at `at..at + 4` of `b`.
pub fn u32_from_le(b: &[u8], at: usize) -> (x: u32)
    requires
        at + 4 <= b@.len(),
    ensures
        x == le32_value(b@.subrange(at as int, at + 4)),
        x == b@[at as int] + 0x100 * b@[at + 1] + 0x1_0000 * b@[at + 2] + 0x100_0000 * b@[at + 3],
{
    b[at] as u32 + 0x100 * b[at + 1] as u32 + 0x1_0000 * b[at + 2] as u32 + 0x100_0000 * b[at
        + 3] as u32
}

/// The big-endian number at `at..at + 4` of `b`.
pub fn u32_from_be(b: &[u8], at: usize) -> (x: u32)
    requires
        at + 4 <= b@.len(),
    ensures
        x == be32_value(b@.subrange(at as int, at + 4)),
        x == 0x100_0000 * b@[at as int] + 0x1_0000 * b@[at + 1] + 0x100 * b@[at + 2] + b@[at + 3],
{
    0x100_0000 * b[at] as u32 + 0x1_0000 * b[at + 1] as u32 + 0x100 * b[at + 2] as u32 + b[at
        + 3] as u32
}

} // verus!
