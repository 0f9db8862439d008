use vstd::prelude::*;

verus! {

/// The four bytes of `i`, least significant first.
pub open spec fn le_bytes_i32(i: i32) -> Seq<u8> {
    let u = i as u32;
    seq![(u & 0xff) as u8, ((u >> 8u32) & 0xff) as u8, ((u >> 16u32) & 0xff) as u8, ((u >> 24u32) & 0xff) as u8]
}

/// The four bytes of `i`, most significant first.
pub open spec fn be_bytes_i32(i: i32) -> Seq<u8> {
    let u = i as u32;
    seq![((u >> 24u32) & 0xff) as u8, ((u >> 16u32) & 0xff) as u8, ((u >> 8u32) & 0xff) as u8, (u & 0xff) as u8]
}

/// The number whose bytes, least significant first, are `a`, `b`, `c`, `d`.
pub open spec fn i32_from_bytes(a: u8, b: u8, c: u8, d: u8) -> i32 {
    ((a as u32) | ((b as u32) << 8u32) | ((c as u32) << 16u32) | ((d as u32) << 24u32)) as i32
}

/// The number spelled by the four bytes `s`, least significant first.
pub open spec fn le_value_i32(s: Seq<u8>) -> i32 {
    i32_from_bytes(s[0], s[1], s[2], s[3])
}

/// The number spelled by the four bytes `s`, most significant first.
pub open spec fn be_value_i32(s: Seq<u8>) -> i32 {
    i32_from_bytes(s[3], s[2], s[1], s[0])
}

/// The four bytes of `i` in the byte order of the machine that runs the code.
pub open spec fn ne_bytes_i32(i: i32) -> Seq<u8> {
    match vstd::endian::endianness() {
        vstd::endian::Endian::Little => le_bytes_i32(i),
        vstd::endian::Endian::Big => be_bytes_i32(i),
    }
}

/// The number spelled by the four bytes `s` in the byte order of the machine that
/// runs the code.
pub open spec fn ne_value_i32(s: Seq<u8>) -> i32 {
    match vstd::endian::endianness() {
        vstd::endian::Endian::Little => le_value_i32(s),
        vstd::endian::Endian::Big => be_value_i32(s),
    }
}

/// Calls `i32::to_ne_bytes`: the memory representation of `i` in the machine's byte
/// order, which is little- or big-endian as `vstd::endian::endianness` says.
#[verifier::external_body]
fn i32_to_ne_bytes(i: i32) -> (b: [u8; 4])
    ensures
        b@ == ne_bytes_i32(i),
{
    i.to_ne_bytes()
}

/// Calls `i32::from_ne_bytes`: the number whose memory representation, in the
/// machine's byte order, is `b`.
#[verifier::external_body]
fn i32_from_ne_bytes(b: [u8; 4]) -> (i: i32)
    ensures
        i == ne_value_i32(b@),
{
    i32::from_ne_bytes(b)
}

/// The four bytes of `i` as they lie in memory.
pub fn i32tou8(i: i32) -> (b: [u8; 4])
    ensures
        b@ == ne_bytes_i32(i),
{
    i32_to_ne_bytes(i)
}

/// The number whose four bytes in memory are `v`.
pub fn u8toi32(v: [u8; 4]) -> (i: i32)
    ensures
        i == ne_value_i32(v@),
{
    i32_from_ne_bytes(v)
}

/// Writing a number out as bytes and reading it back gives the number again.
pub proof fn law_i32_bytes_roundtrip(i: i32)
    ensures
        ne_bytes_i32(i).len() == 4,
        ne_value_i32(ne_bytes_i32(i)) == i,
{
    let u = i as u32;
    assert(((((u & 0xff) as u8) as u32) | (((((u >> 8u32) & 0xff) as u8) as u32) << 8u32)
        | (((((u >> 16u32) & 0xff) as u8) as u32) << 16u32) | (((((u >> 24u32) & 0xff) as u8) as u32)
        << 24u32)) as i32 == i) by (bit_vector)
        requires
            u == i as u32,
    ;
}

/// Reading four bytes as a number and writing the number out gives the bytes again.
pub proof fn law_bytes_i32_roundtrip(s: Seq<u8>)
    requires
        s.len() == 4,
    ensures
        ne_bytes_i32(ne_value_i32(s)) == s,
{
    lemma_bytes_of_from_bytes(s[0], s[1], s[2], s[3]);
    lemma_bytes_of_from_bytes(s[3], s[2], s[1], s[0]);
    assert(ne_bytes_i32(ne_value_i32(s)) =~= s);
}

proof fn lemma_bytes_of_from_bytes(a: u8, b: u8, c: u8, d: u8)
    ensures
        le_bytes_i32(i32_from_bytes(a, b, c, d)) == seq![a, b, c, d],
        be_bytes_i32(i32_from_bytes(d, c, b, a)) == seq![a, b, c, d],
{
    let x = i32_from_bytes(a, b, c, d);
    let u = x as u32;
    assert(
        (u & 0xff) as u8 == a && ((u >> 8u32) & 0xff) as u8 == b && ((u >> 16u32) & 0xff) as u8 == c
            && ((u >> 24u32) & 0xff) as u8 == d) by (bit_vector)
        requires
            u == (((a as u32) | ((b as u32) << 8u32) | ((c as u32) << 16u32) | ((d as u32) << 24u32)) as i32) as u32,
    ;
    let y = i32_from_bytes(d, c, b, a);
    let w = y as u32;
    assert(
        (w & 0xff) as u8 == d && ((w >> 8u32) & 0xff) as u8 == c && ((w >> 16u32) & 0xff) as u8 == b
            && ((w >> 24u32) & 0xff) as u8 == a) by (bit_vector)
        requires
            w == (((d as u32) | ((c as u32) << 8u32) | ((b as u32) << 16u32) | ((a as u32) << 24u32)) as i32) as u32,
    ;
    assert(le_bytes_i32(x) =~= seq![a, b, c, d]);
    assert(be_bytes_i32(y) =~= seq![a, b, c, d]);
}

} // verus!
