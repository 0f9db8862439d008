use vstd::prelude::*;

verus! {

/// The number of bytes of a block header on the wire.
pub const HEADER_LEN: usize = 40;

/// What the receiver knows of one block: the five fields of its header, and the
/// time at which its last byte arrived together with the completion time derived
/// from it.
#[derive(Clone, Copy, Debug, PartialEq, Eq)]
pub struct BlockInfo {
    pub id: u64,
    pub start_timestamp: u64,
    pub end_timestamp: u64,
    pub bct: u64,
    pub block_size: i32,
    pub priority: i32,
    pub deadline: i32,
}

/// The block with every field zero.
pub open spec fn empty_block() -> BlockInfo {
    BlockInfo {
        id: 0,
        start_timestamp: 0,
        end_timestamp: 0,
        bct: 0,
        block_size: 0,
        priority: 0,
        deadline: 0,
    }
}

impl Default for BlockInfo {
    /// The block with every field zero.
    fn default() -> (b: Self)
        ensures
            b == empty_block(),
    {
        BlockInfo {
            id: 0,
            start_timestamp: 0,
            end_timestamp: 0,
            bct: 0,
            block_size: 0,
            priority: 0,
            deadline: 0,
        }
    }
}

/// The number that the bytes `s` spell in big-endian order.
pub open spec fn be_value(s: Seq<u8>) -> nat
    decreases s.len(),
{
    if s.len() == 0 {
        0
    } else {
        be_value(s.drop_last()) * 256 + s.last() as nat
    }
}

/// `256` to the power `n`.
pub open spec fn pow256(n: nat) -> nat
    decreases n,
{
    if n == 0 {
        1
    } else {
        256 * pow256((n - 1) as nat)
    }
}

/// A number spelled with `n` bytes is below `256` to the power `n`.
pub proof fn lemma_be_value_bound(s: Seq<u8>)
    ensures
        be_value(s) < pow256(s.len()),
    decreases s.len(),
{
    if s.len() > 0 {
        lemma_be_value_bound(s.drop_last());
        let a = be_value(s.drop_last());
        let b = pow256((s.len() - 1) as nat);
        let c = s.last() as int;
        assert(a * 256 + c < b * 256) by (nonlinear_arith)
            requires
                a < b,
                0 <= c < 256,
        ;
    }
}

/// The unsigned 64-bit number stored big-endian in `s[at .. at + 8]`.
pub open spec fn be_u64_at(s: Seq<u8>, at: int) -> u64 {
    be_value(s.subrange(at, at + 8)) as u64
}

/// Reads the unsigned 64-bit number stored big-endian in `bytes[at .. at + 8]`.
pub fn read_be_u64(bytes: &[u8], at: usize) -> (v: u64)
    requires
        at + 8 <= bytes@.len(),
    ensures
        v == be_u64_at(bytes@, at as int),
        v as nat == be_value(bytes@.subrange(at as int, at + 8)),
{
    let mut v: u64 = 0;
    let mut k: usize = 0;
    while k < 8
        invariant
            k <= 8,
            at + 8 <= bytes.len(),
            v as nat == be_value(bytes@.subrange(at as int, at + k)),
        decreases 8 - k,
    {
        let ghost prefix = bytes@.subrange(at as int, at + k);
        let ghost next = bytes@.subrange(at as int, at + k + 1);
        proof {
            assert(next.drop_last() =~= prefix);
            lemma_be_value_bound(prefix);
            assert(pow256(0) == 1);
            reveal_with_fuel(pow256, 8);
            assert(pow256(7) == 0x100_0000_0000_0000);
            lemma_pow256_mono(k as nat, 7);
            assert(v * 256 + 255 <= u64::MAX) by (nonlinear_arith)
                requires
                    v < 0x100_0000_0000_0000,
            ;
        }
        v = v * 256 + bytes[at + k] as u64;
        k += 1;
    }
    v
}

/// `256` to a power grows with the power.
pub proof fn lemma_pow256_mono(a: nat, b: nat)
    requires
        a <= b,
    ensures
        pow256(a) <= pow256(b),
    decreases b,
{
    if a < b {
        lemma_pow256_mono(a, (b - 1) as nat);
    }
}

/// The eight bytes of `x`, most significant first.
pub open spec fn be8(x: u64) -> Seq<u8> {
    Seq::<u8>::empty().push(((x >> 56u64) & 0xff) as u8).push(((x >> 48u64) & 0xff) as u8).push(
        ((x >> 40u64) & 0xff) as u8,
    ).push(((x >> 32u64) & 0xff) as u8).push(((x >> 24u64) & 0xff) as u8).push(
        ((x >> 16u64) & 0xff) as u8,
    ).push(((x >> 8u64) & 0xff) as u8).push((x & 0xff) as u8)
}

/// Appending a byte to a big-endian number shifts it up by a byte.
pub proof fn lemma_be_value_push(s: Seq<u8>, b: u8)
    ensures
        be_value(s.push(b)) == be_value(s) * 256 + b,
{
    assert(s.push(b).drop_last() =~= s);
}

/// The eight bytes of `x` spell `x` again.
pub proof fn lemma_be8_value(x: u64)
    ensures
        be8(x).len() == 8,
        be_value(be8(x)) == x,
{
    let b0 = ((x >> 56u64) & 0xff) as u8;
    let b1 = ((x >> 48u64) & 0xff) as u8;
    let b2 = ((x >> 40u64) & 0xff) as u8;
    let b3 = ((x >> 32u64) & 0xff) as u8;
    let b4 = ((x >> 24u64) & 0xff) as u8;
    let b5 = ((x >> 16u64) & 0xff) as u8;
    let b6 = ((x >> 8u64) & 0xff) as u8;
    let b7 = (x & 0xff) as u8;
    let s0 = Seq::<u8>::empty();
    lemma_be_value_push(s0, b0);
    lemma_be_value_push(s0.push(b0), b1);
    lemma_be_value_push(s0.push(b0).push(b1), b2);
    lemma_be_value_push(s0.push(b0).push(b1).push(b2), b3);
    lemma_be_value_push(s0.push(b0).push(b1).push(b2).push(b3), b4);
    lemma_be_value_push(s0.push(b0).push(b1).push(b2).push(b3).push(b4), b5);
    lemma_be_value_push(s0.push(b0).push(b1).push(b2).push(b3).push(b4).push(b5), b6);
    lemma_be_value_push(s0.push(b0).push(b1).push(b2).push(b3).push(b4).push(b5).push(b6), b7);
    assert(be_value(s0) == 0);
    assert(x == ((((((((((x >> 56u64) & 0xff) as u8) as u64 * 256 + (((x >> 48u64) & 0xff) as u8) as u64) * 256
        + (((x >> 40u64) & 0xff) as u8) as u64) * 256 + (((x >> 32u64) & 0xff) as u8) as u64) * 256
        + (((x >> 24u64) & 0xff) as u8) as u64) * 256 + (((x >> 16u64) & 0xff) as u8) as u64) * 256
        + (((x >> 8u64) & 0xff) as u8) as u64) * 256 + ((x & 0xff) as u8) as u64)) by (bit_vector);
}

/// The header bytes of block `b` as the sender writes them: id, start time, size,
/// priority and deadline, each as a big-endian 64-bit number.
pub open spec fn encode_header(b: BlockInfo) -> Seq<u8> {
    be8(b.id) + be8(b.start_timestamp) + be8(b.block_size as u64) + be8(b.priority as u64) + be8(
        b.deadline as u64,
    )
}

/// Reading the header of a block gives the block back, with no end time yet.
pub proof fn law_decode_encoded_header(b: BlockInfo, more: Seq<u8>)
    ensures
        decode_header(encode_header(b) + more) == (BlockInfo { end_timestamp: 0, bct: 0, ..b }),
{
    let h = encode_header(b) + more;
    lemma_be8_value(b.id);
    lemma_be8_value(b.start_timestamp);
    lemma_be8_value(b.block_size as u64);
    lemma_be8_value(b.priority as u64);
    lemma_be8_value(b.deadline as u64);
    assert(h.subrange(0, 8) =~= be8(b.id));
    assert(h.subrange(8, 16) =~= be8(b.start_timestamp));
    assert(h.subrange(16, 24) =~= be8(b.block_size as u64));
    assert(h.subrange(24, 32) =~= be8(b.priority as u64));
    assert(h.subrange(32, 40) =~= be8(b.deadline as u64));
    let bs = b.block_size;
    let pr = b.priority;
    let dl = b.deadline;
    assert((bs as u64) as i32 == bs && (pr as u64) as i32 == pr && (dl as u64) as i32 == dl)
        by (bit_vector);
}

/// The header bytes `h` (at least [`HEADER_LEN`] of them) read as a block: five
/// big-endian 64-bit fields, the last three cut to 32 bits; no end time yet.
pub open spec fn decode_header(h: Seq<u8>) -> BlockInfo {
    BlockInfo {
        id: be_u64_at(h, 0),
        start_timestamp: be_u64_at(h, 8),
        end_timestamp: 0,
        bct: 0,
        block_size: be_u64_at(h, 16) as i32,
        priority: be_u64_at(h, 24) as i32,
        deadline: be_u64_at(h, 32) as i32,
    }
}

/// A header that a receiver accepts: a size other than zero, and a priority and a
/// deadline that are not negative.
pub open spec fn header_ok(b: BlockInfo) -> bool {
    b.block_size != 0 && b.priority >= 0 && b.deadline >= 0
}

/// The block completion time in milliseconds: the microseconds from the start time
/// to the end time, divided by 1000; zero when the end time reads earlier than the
/// start time.
pub open spec fn completion_ms(start: u64, end: u64) -> u64 {
    if end >= start {
        ((end - start) / 1000) as u64
    } else {
        0
    }
}

/// The block `b` once its last byte arrived at time `end`.
pub open spec fn finished(b: BlockInfo, end: u64) -> BlockInfo {
    BlockInfo { end_timestamp: end, bct: completion_ms(b.start_timestamp, end), ..b }
}

/// The completion time is the whole number of milliseconds from the start time to
/// the end time (the microseconds between them, rounded down to a thousand), and
/// zero when the end time reads earlier than the start time; finishing a block sets
/// its end time and completion time and keeps every header field.
pub proof fn law_completion_ms(b: BlockInfo, end: u64)
    ensures
        end >= b.start_timestamp ==> completion_ms(b.start_timestamp, end) * 1000 <= end
            - b.start_timestamp < (completion_ms(b.start_timestamp, end) + 1) * 1000,
        end < b.start_timestamp ==> completion_ms(b.start_timestamp, end) == 0,
        finished(b, end).end_timestamp == end,
        finished(b, end).bct == completion_ms(b.start_timestamp, end),
        finished(b, end).id == b.id,
        finished(b, end).start_timestamp == b.start_timestamp,
        finished(b, end).block_size == b.block_size,
        finished(b, end).priority == b.priority,
        finished(b, end).deadline == b.deadline,
{
    if end >= b.start_timestamp {
        let d = end - b.start_timestamp;
        assert((d / 1000) * 1000 <= d < (d / 1000 + 1) * 1000) by (nonlinear_arith)
            requires
                d >= 0,
        ;
    }
}

impl BlockInfo {
    /// This block once its last byte arrived at time `end`: the end time set, and the
    /// completion time in milliseconds from the start time (zero when the end time
    /// reads earlier than the start time).
    pub fn finish(&self, end: u64) -> (b: BlockInfo)
        ensures
            b == finished(*self, end),
    {
        let bct: u64 = if end >= self.start_timestamp {
            (end - self.start_timestamp) / 1000
        } else {
            0
        };
        BlockInfo { end_timestamp: end, bct, ..*self }
    }
}

} // verus!
