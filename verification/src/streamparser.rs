use vstd::prelude::*;
use crate::block::BlockInfo;
use crate::block::HEADER_LEN;
use crate::block::decode_header;
use crate::block::empty_block;
use crate::block::encode_header;
use crate::block::law_decode_encoded_header;
use crate::block::finished;
use crate::block::header_ok;
use crate::block::read_be_u64;
use crate::clock::get_current_usec;
use crate::loopbytes::LoopBytes;
use crate::loopbytes::accepted;

verus! {

/// The number of body bytes that follow a header: its size field, taken as an
/// unsigned machine word (a negative size reads as a huge one).
pub open spec fn body_len(h: BlockInfo) -> nat {
    (h.block_size as usize) as nat
}

/// Where a run of the parser over some bytes ends.
pub struct ParseRun {
    /// The block whose header was read and whose body is still coming, with the
    /// number of body bytes still to come; `None` while waiting for a header.
    pub pending: Option<(BlockInfo, nat)>,
    /// The bytes left over: a partial header.
    pub rest: Seq<u8>,
    /// The blocks whose body ended, in stream order, before their end time is set.
    pub blocks: Seq<BlockInfo>,
    /// Every header read on the way was accepted (see [`header_ok`]).
    pub valid: bool,
}

/// The run of the parser over `data`, from the state `pending`: read a header as soon
/// as [`HEADER_LEN`] bytes are there, then skip its body; a block ends when its last
/// body byte has been skipped. Body bytes are skipped as they come; a partial header
/// waits for the rest of it.
pub open spec fn parse(pending: Option<(BlockInfo, nat)>, data: Seq<u8>) -> ParseRun
    decreases data.len(), if pending is Some { 1int } else { 0int },
{
    match pending {
        None => {
            if data.len() >= HEADER_LEN {
                let h = decode_header(data.take(HEADER_LEN as int));
                let r = parse(Some((h, body_len(h))), data.skip(HEADER_LEN as int));
                ParseRun { valid: header_ok(h) && r.valid, ..r }
            } else {
                ParseRun { pending: None, rest: data, blocks: Seq::empty(), valid: true }
            }
        },
        Some((h, left)) => {
            if data.len() >= left {
                let r = parse(None, data.skip(left as int));
                ParseRun { blocks: seq![h] + r.blocks, ..r }
            } else {
                ParseRun {
                    pending: Some((h, (left - data.len()) as nat)),
                    rest: Seq::empty(),
                    blocks: Seq::empty(),
                    valid: true,
                }
            }
        },
    }
}

/// Cuts a byte stream into blocks: a header of [`HEADER_LEN`] bytes, then as many
/// body bytes as the header's size field says. The bytes wait in a ring until they
/// are parsed.
pub struct StreamParser {
    target: usize,
    has_hdr: bool,
    cur_block: BlockInfo,
    bytes: LoopBytes,
}

impl StreamParser {
    /// The parser's fields agree: the ring is well formed and not empty, and while no
    /// header is read the parser waits for [`HEADER_LEN`] bytes with a zero block.
    pub closed spec fn wf(&self) -> bool {
        &&& self.bytes.wf()
        &&& self.bytes.capacity > 0
        &&& !self.has_hdr ==> self.target == HEADER_LEN && self.cur_block == empty_block()
    }

    /// The block whose body is coming, with the body bytes still to come; `None`
    /// while the parser waits for a header.
    pub closed spec fn pending(&self) -> Option<(BlockInfo, nat)> {
        if self.has_hdr {
            Some((self.cur_block, self.target as nat))
        } else {
            None
        }
    }

    /// The bytes received and not parsed yet, oldest first.
    pub closed spec fn held(&self) -> Seq<u8> {
        self.bytes@
    }

    /// The number of cells of the ring; it holds one byte less.
    pub closed spec fn capacity(&self) -> nat {
        self.bytes.capacity as nat
    }

    /// A parser that waits for a header, with room for `size` bytes.
    pub fn new(size: usize) -> (p: Self)
        requires
            size < usize::MAX,
        ensures
            p.wf(),
            p.pending() == None::<(BlockInfo, nat)>,
            p.held() == Seq::<u8>::empty(),
            p.capacity() == size + 1,
            p.held().len() < p.capacity(),
    {
        StreamParser {
            target: HEADER_LEN,
            has_hdr: false,
            cur_block: BlockInfo::default(),
            bytes: LoopBytes::new(size + 1),
        }
    }

    /// Takes in as many of the first `size` bytes of `buf` as there is room for, and
    /// returns how many it took.
    pub fn recv(&mut self, buf: &[u8], size: usize) -> (n: usize)
        requires
            old(self).wf(),
            accepted(old(self).held().len() as int, old(self).capacity() as int, size as int)
                <= buf@.len(),
        ensures
            final(self).wf(),
            n == accepted(old(self).held().len() as int, old(self).capacity() as int, size as int),
            final(self).held() == old(self).held() + buf@.take(n as int),
            final(self).pending() == old(self).pending(),
            final(self).capacity() == old(self).capacity(),
            final(self).held().len() < final(self).capacity(),
    {
        self.bytes.push(buf, size)
    }

    /// Tells whether every header that [`consume`](Self::consume) would read now is
    /// accepted (see [`header_ok`]), without parsing anything.
    pub fn headers_ok(&self) -> (ok: bool)
        requires
            self.wf(),
        ensures
            ok == parse(self.pending(), self.held()).valid,
    {
        let n = self.bytes.size();
        let ghost held = self.held();
        let mut pos: usize = 0;
        let mut in_body: bool = self.has_hdr;
        let mut left: usize = self.target;
        let ghost mut cur: BlockInfo = self.cur_block;
        let mut hdr: Vec<u8> = vec![0u8; 40];
        assert(held.skip(0) =~= held);
        loop
            invariant
                self.wf(),
                held == self.held(),
                n == held.len(),
                pos <= n,
                hdr@.len() == 40,
                !in_body ==> left == HEADER_LEN,
                parse(self.pending(), held).valid == parse(
                    if in_body { Some((cur, left as nat)) } else { None },
                    held.skip(pos as int),
                ).valid,
            decreases (n - pos) * 2 + if in_body { 1int } else { 0int },
        {
            let ghost d = held.skip(pos as int);
            if !in_body {
                if n - pos < HEADER_LEN {
                    return true;
                }
                self.bytes.peek(pos, hdr.as_mut_slice(), HEADER_LEN);
                assert(hdr@.take(40) =~= d.take(40));
                assert(hdr@.subrange(0, 8) =~= d.take(40).subrange(0, 8));
                assert(hdr@.subrange(8, 16) =~= d.take(40).subrange(8, 16));
                assert(hdr@.subrange(16, 24) =~= d.take(40).subrange(16, 24));
                assert(hdr@.subrange(24, 32) =~= d.take(40).subrange(24, 32));
                assert(hdr@.subrange(32, 40) =~= d.take(40).subrange(32, 40));
                let size = read_be_u64(hdr.as_slice(), 16) as i32;
                let priority = read_be_u64(hdr.as_slice(), 24) as i32;
                let deadline = read_be_u64(hdr.as_slice(), 32) as i32;
                if !(size != 0 && priority >= 0 && deadline >= 0) {
                    return false;
                }
                proof {
                    cur = decode_header(d.take(40));
                    assert(d.skip(40) =~= held.skip(pos + 40));
                }
                in_body = true;
                left = size as usize;
                pos = pos + HEADER_LEN;
            } else {
                if n - pos < left {
                    return true;
                }
                assert(d.skip(left as int) =~= held.skip(pos + left));
                let skip: usize = left;
                in_body = false;
                left = HEADER_LEN;
                pos = pos + skip;
            }
        }
    }

    /// Parses what was received: reports each block whose body ended, stamped with
    /// the clock reading taken when it ended (see [`BlockInfo::finish`]), and keeps
    /// the partial header or the count of body bytes still to come. Every header read
    /// must be accepted (see [`header_ok`], and [`headers_ok`](Self::headers_ok) to
    /// test it first).
    pub fn consume(&mut self) -> (res: Vec<BlockInfo>)
        requires
            old(self).wf(),
            parse(old(self).pending(), old(self).held()).valid,
        ensures
            final(self).wf(),
            final(self).capacity() == old(self).capacity(),
            final(self).pending() == parse(old(self).pending(), old(self).held()).pending,
            final(self).held() == parse(old(self).pending(), old(self).held()).rest,
            final(self).held().len() < final(self).capacity(),
            final(self).held().len() < HEADER_LEN,
            final(self).pending() is Some ==> final(self).held().len() == 0,
            res@.len() == parse(old(self).pending(), old(self).held()).blocks.len(),
            forall|i: int|
                0 <= i < res@.len() ==> #[trigger] res@[i] == finished(
                    parse(old(self).pending(), old(self).held()).blocks[i],
                    res@[i].end_timestamp,
                ),
    {
        let ghost run = parse(self.pending(), self.held());
        let ghost mut done: Seq<BlockInfo> = Seq::empty();
        let mut ret: Vec<BlockInfo> = Vec::new();
        while self.bytes.size() >= self.target
            invariant
                self.wf(),
                self.capacity() == old(self).capacity(),
                parse(self.pending(), self.held()).valid,
                parse(self.pending(), self.held()).pending == run.pending,
                parse(self.pending(), self.held()).rest == run.rest,
                run.blocks == done + parse(self.pending(), self.held()).blocks,
                ret@.len() == done.len(),
                forall|i: int|
                    0 <= i < ret@.len() ==> #[trigger] ret@[i] == finished(
                        done[i],
                        ret@[i].end_timestamp,
                    ),
            decreases self.bytes@.len() * 2 + if self.has_hdr { 1int } else { 0int },
        {
            let cost = self.target;
            if !self.has_hdr {
                let ghost data = self.bytes@;
                let mut hdr: Vec<u8> = vec![0u8; 50];
                let popped = self.bytes.pop(hdr.as_mut_slice(), cost);
                assert(hdr@.take(40) =~= data.take(40));
                assert(hdr@.subrange(0, 8) =~= data.take(40).subrange(0, 8));
                assert(hdr@.subrange(8, 16) =~= data.take(40).subrange(8, 16));
                assert(hdr@.subrange(16, 24) =~= data.take(40).subrange(16, 24));
                assert(hdr@.subrange(24, 32) =~= data.take(40).subrange(24, 32));
                assert(hdr@.subrange(32, 40) =~= data.take(40).subrange(32, 40));
                self.cur_block.id = read_be_u64(hdr.as_slice(), 0);
                self.cur_block.start_timestamp = read_be_u64(hdr.as_slice(), 8);
                self.cur_block.block_size = read_be_u64(hdr.as_slice(), 16) as i32;
                self.cur_block.priority = read_be_u64(hdr.as_slice(), 24) as i32;
                self.cur_block.deadline = read_be_u64(hdr.as_slice(), 32) as i32;
                assert(self.cur_block == decode_header(data.take(40)));
                self.target = self.cur_block.block_size as usize;
                self.has_hdr = true;
            } else {
                let ghost h = self.cur_block;
                let dropped = self.bytes.drop(cost);
                let end: u64 = get_current_usec();
                ret.push(self.cur_block.finish(end));
                proof {
                    done = done.push(h);
                    assert(run.blocks =~= done + parse(None, self.bytes@).blocks);
                }
                self.target = HEADER_LEN;
                self.cur_block = BlockInfo::default();
                self.has_hdr = false;
            }
        }
        if self.has_hdr {
            let cost = self.bytes.size();
            let dropped = self.bytes.drop(cost);
            self.target = self.target - cost;
        }
        proof {
            assert(run.blocks =~= done);
            lemma_parse_settles(old(self).pending(), old(self).held());
        }
        ret
    }
}

/// Parsing does not depend on how the stream is cut into pieces: a run over `a + b`
/// ends where a run over `b`, started where the run over `a` stopped with its
/// leftover bytes before `b`, ends, and it reports the blocks of both runs.
pub proof fn law_parse_in_pieces(p: Option<(BlockInfo, nat)>, a: Seq<u8>, b: Seq<u8>)
    ensures
        ({
            let r1 = parse(p, a);
            let r2 = parse(r1.pending, r1.rest + b);
            let whole = parse(p, a + b);
            &&& whole.pending == r2.pending
            &&& whole.rest == r2.rest
            &&& whole.blocks == r1.blocks + r2.blocks
            &&& whole.valid == (r1.valid && r2.valid)
        }),
    decreases a.len(), if p is Some { 1int } else { 0int },
{
    let r1 = parse(p, a);
    match p {
        None => {
            if a.len() >= HEADER_LEN {
                let h = decode_header(a.take(HEADER_LEN as int));
                assert((a + b).take(HEADER_LEN as int) =~= a.take(HEADER_LEN as int));
                assert((a + b).skip(HEADER_LEN as int) =~= a.skip(HEADER_LEN as int) + b);
                law_parse_in_pieces(Some((h, body_len(h))), a.skip(HEADER_LEN as int), b);
            } else {
                assert(r1.rest + b =~= a + b);
                let r2 = parse(r1.pending, r1.rest + b);
                assert(r1.blocks + r2.blocks =~= r2.blocks);
            }
        },
        Some((h, left)) => {
            if a.len() >= left {
                assert((a + b).skip(left as int) =~= a.skip(left as int) + b);
                law_parse_in_pieces(None, a.skip(left as int), b);
                let ra = parse(None, a.skip(left as int));
                let r2 = parse(ra.pending, ra.rest + b);
                assert(seq![h] + (ra.blocks + r2.blocks) =~= (seq![h] + ra.blocks) + r2.blocks);
            } else {
                let l2 = (left - a.len()) as nat;
                assert(r1.rest + b =~= b);
                let r2 = parse(Some((h, l2)), b);
                if a.len() + b.len() >= left {
                    assert((a + b).skip(left as int) =~= b.skip(l2 as int));
                }
                assert(r1.blocks + r2.blocks =~= r2.blocks);
            }
        },
    }
}

/// Where a run of the parser stops: waiting for a header with less than a header's
/// bytes at hand, or inside a body with no bytes at hand and some still to come.
pub open spec fn settled(r: ParseRun) -> bool {
    match r.pending {
        None => r.rest.len() < HEADER_LEN,
        Some((h, left)) => r.rest.len() == 0 && left > 0,
    }
}

/// Every run of the parser stops settled.
pub proof fn lemma_parse_settles(p: Option<(BlockInfo, nat)>, d: Seq<u8>)
    ensures
        settled(parse(p, d)),
    decreases d.len(), if p is Some { 1int } else { 0int },
{
    match p {
        None => {
            if d.len() >= HEADER_LEN {
                let h = decode_header(d.take(HEADER_LEN as int));
                lemma_parse_settles(Some((h, body_len(h))), d.skip(HEADER_LEN as int));
            }
        },
        Some((h, left)) => {
            if d.len() >= left {
                lemma_parse_settles(None, d.skip(left as int));
            }
        },
    }
}

/// Parsing is done once it is done: running the parser again from where a run
/// stopped, over the bytes it left, reports no block and changes nothing.
pub proof fn law_parse_again_is_idle(p: Option<(BlockInfo, nat)>, d: Seq<u8>)
    ensures
        ({
            let r = parse(p, d);
            let again = parse(r.pending, r.rest);
            &&& again.pending == r.pending
            &&& again.rest == r.rest
            &&& again.blocks == Seq::<BlockInfo>::empty()
            &&& again.valid
        }),
{
    lemma_parse_settles(p, d);
}

/// The bytes of blocks `hs` as the sender writes them: each header followed by its
/// body `bodies[i]`.
pub open spec fn encode_stream(hs: Seq<BlockInfo>, bodies: Seq<Seq<u8>>) -> Seq<u8>
    decreases hs.len(),
{
    if hs.len() == 0 || bodies.len() == 0 {
        Seq::empty()
    } else {
        encode_stream(hs.drop_last(), bodies.drop_last()) + encode_header(hs.last())
            + bodies.last()
    }
}

/// Blocks that carry no end time yet, with accepted headers and bodies of the
/// lengths their headers give.
pub open spec fn well_framed(hs: Seq<BlockInfo>, bodies: Seq<Seq<u8>>) -> bool {
    &&& hs.len() == bodies.len()
    &&& forall|i: int|
        0 <= i < hs.len() ==> {
            &&& header_ok(#[trigger] hs[i])
            &&& hs[i].end_timestamp == 0
            &&& hs[i].bct == 0
            &&& bodies[i].len() == body_len(hs[i])
        }
}

/// What the parser reads is what the sender wrote: the bytes of well-framed blocks,
/// parsed from the start, give back those blocks, in order, with nothing left over.
pub proof fn law_parse_encoded_stream(hs: Seq<BlockInfo>, bodies: Seq<Seq<u8>>)
    requires
        well_framed(hs, bodies),
    ensures
        ({
            let r = parse(None, encode_stream(hs, bodies));
            &&& r.pending == None::<(BlockInfo, nat)>
            &&& r.rest == Seq::<u8>::empty()
            &&& r.blocks == hs
            &&& r.valid
        }),
    decreases hs.len(),
{
    if hs.len() > 0 {
        let hs0 = hs.drop_last();
        let bodies0 = bodies.drop_last();
        assert(well_framed(hs0, bodies0)) by {
            assert forall|i: int| 0 <= i < hs0.len() implies {
                &&& header_ok(#[trigger] hs0[i])
                &&& hs0[i].end_timestamp == 0
                &&& hs0[i].bct == 0
                &&& bodies0[i].len() == body_len(hs0[i])
            } by {
                assert(hs0[i] == hs[i]);
            }
        }
        law_parse_encoded_stream(hs0, bodies0);
        let front = encode_stream(hs0, bodies0);
        let h = hs.last();
        let body = bodies.last();
        let one = encode_header(h) + body;
        assert(encode_stream(hs, bodies) == front + one) by {
            assert(front + encode_header(h) + body =~= front + one);
        }
        law_parse_in_pieces(None, front, one);
        let r1 = parse(None, front);
        assert(r1.rest + one =~= one);
        assert(encode_header(h).len() == 40) by {
            crate::block::lemma_be8_value(h.id);
            crate::block::lemma_be8_value(h.start_timestamp);
            crate::block::lemma_be8_value(h.block_size as u64);
            crate::block::lemma_be8_value(h.priority as u64);
            crate::block::lemma_be8_value(h.deadline as u64);
        }
        assert(one.take(HEADER_LEN as int) =~= encode_header(h));
        assert(encode_header(h) =~= encode_header(h) + Seq::<u8>::empty());
        law_decode_encoded_header(h, Seq::<u8>::empty());
        assert(decode_header(one.take(HEADER_LEN as int)) == h);
        assert(one.skip(HEADER_LEN as int) =~= body);
        assert(body.skip(body.len() as int) =~= Seq::<u8>::empty());
        let tail_run = parse(None, body.skip(body.len() as int));
        assert(tail_run.blocks =~= Seq::<BlockInfo>::empty());
        let inner = parse(Some((h, body_len(h))), body);
        assert(inner.blocks =~= seq![h] + tail_run.blocks);
        let r2 = parse(None, one);
        assert(r2.blocks =~= seq![h]);
        assert(r1.blocks + r2.blocks =~= hs);
    } else {
        assert(hs =~= Seq::<BlockInfo>::empty());
    }
}

/// The chunks `chunks`, one after the other.
pub open spec fn joined(chunks: Seq<Seq<u8>>) -> Seq<u8>
    decreases chunks.len(),
{
    if chunks.len() == 0 {
        Seq::empty()
    } else {
        chunks[0] + joined(chunks.skip(1))
    }
}

/// Where feeding a parser chunk by chunk ends: its state and the bytes it holds,
/// the blocks reported, whether every header read was accepted, and whether every
/// receive took its whole chunk.
pub struct Feeding {
    pub pending: Option<(BlockInfo, nat)>,
    pub held: Seq<u8>,
    pub blocks: Seq<BlockInfo>,
    pub valid: bool,
    pub took_all: bool,
}

/// A parser with `capacity` cells, in state `pending` and holding `held`, fed the
/// chunks `chunks`: for each chunk a receive of the whole chunk (see
/// [`StreamParser::recv`]) and then a parse (see [`StreamParser::consume`]).
pub open spec fn feed_chunks(
    pending: Option<(BlockInfo, nat)>,
    held: Seq<u8>,
    capacity: int,
    chunks: Seq<Seq<u8>>,
) -> Feeding
    decreases chunks.len(),
{
    if chunks.len() == 0 {
        Feeding { pending, held, blocks: Seq::empty(), valid: true, took_all: true }
    } else {
        let c = chunks[0];
        let n = accepted(held.len() as int, capacity, c.len() as int);
        let r = parse(pending, held + c.take(n));
        let f = feed_chunks(r.pending, r.rest, capacity, chunks.skip(1));
        Feeding {
            blocks: r.blocks + f.blocks,
            valid: r.valid && f.valid,
            took_all: n == c.len() && f.took_all,
            ..f
        }
    }
}

/// Blocks come out the same however the stream is cut: a parser with room for
/// `capacity - 1` bytes, in a state a parse leaves it in (see [`settled`]), fed chunks of at most
/// `capacity - HEADER_LEN` bytes each, receive by receive and parse by parse, takes
/// every chunk whole and ends where one parse of all the bytes at once ends, having
/// reported the same blocks.
pub proof fn law_feed_in_chunks(
    pending: Option<(BlockInfo, nat)>,
    held: Seq<u8>,
    capacity: int,
    chunks: Seq<Seq<u8>>,
)
    requires
        settled(ParseRun { pending, rest: held, blocks: Seq::empty(), valid: true }),
        forall|i: int| 0 <= i < chunks.len() ==> #[trigger] chunks[i].len() <= capacity - HEADER_LEN,
    ensures
        ({
            let f = feed_chunks(pending, held, capacity, chunks);
            let whole = parse(pending, held + joined(chunks));
            &&& f.took_all
            &&& f.pending == whole.pending
            &&& f.held == whole.rest
            &&& f.blocks == whole.blocks
            &&& f.valid == whole.valid
        }),
    decreases chunks.len(),
{
    if chunks.len() == 0 {
        assert(held + joined(chunks) =~= held);
    } else {
        let c = chunks[0];
        assert(chunks[0].len() <= capacity - HEADER_LEN);
        let n = accepted(held.len() as int, capacity, c.len() as int);
        assert(n == c.len());
        assert(c.take(n) =~= c);
        let h1 = held + c;
        let r = parse(pending, h1);
        lemma_parse_settles(pending, h1);
        let rest = chunks.skip(1);
        assert forall|i: int| 0 <= i < rest.len() implies #[trigger] rest[i].len() <= capacity
            - HEADER_LEN by {
            assert(rest[i] == chunks[i + 1]);
        }
        law_feed_in_chunks(r.pending, r.rest, capacity, rest);
        law_parse_in_pieces(pending, h1, joined(rest));
        assert(held + joined(chunks) =~= h1 + joined(rest));
    }
}

/// What the sender wrote comes out whole however the receiver is fed: a new parser
/// with room for `capacity - 1` bytes, fed the bytes of well-framed blocks `hs` and
/// then a partial header `t`, cut into chunks of at most `capacity - HEADER_LEN` bytes
/// each, takes every chunk whole, reports exactly the blocks `hs` in order, and ends
/// waiting for a header with `t` at hand.
pub proof fn law_feed_encoded_stream(
    hs: Seq<BlockInfo>,
    bodies: Seq<Seq<u8>>,
    t: Seq<u8>,
    capacity: int,
    chunks: Seq<Seq<u8>>,
)
    requires
        well_framed(hs, bodies),
        t.len() < HEADER_LEN,
        joined(chunks) == encode_stream(hs, bodies) + t,
        forall|i: int| 0 <= i < chunks.len() ==> #[trigger] chunks[i].len() <= capacity - HEADER_LEN,
    ensures
        ({
            let f = feed_chunks(None, Seq::empty(), capacity, chunks);
            &&& f.took_all
            &&& f.blocks == hs
            &&& f.pending == None::<(BlockInfo, nat)>
            &&& f.held == t
            &&& f.valid
        }),
{
    let e = encode_stream(hs, bodies);
    law_feed_in_chunks(None, Seq::empty(), capacity, chunks);
    assert(Seq::<u8>::empty() + joined(chunks) =~= e + t);
    law_parse_in_pieces(None, e, t);
    law_parse_encoded_stream(hs, bodies);
    let r1 = parse(None, e);
    assert(r1.rest + t =~= t);
    let r2 = parse(None, t);
    assert(r1.blocks + r2.blocks =~= hs);
}

/// A parser with room for fewer bytes than a header never gets anywhere: fed any
/// chunks from the waiting state, it reports no block, keeps waiting for a header,
/// and only piles up the first `capacity - 1` bytes it was offered; once it holds
/// that many, every receive takes nothing.
pub proof fn law_small_parser_stalls(held: Seq<u8>, capacity: int, chunks: Seq<Seq<u8>>)
    requires
        capacity <= HEADER_LEN,
        held.len() < capacity,
    ensures
        ({
            let f = feed_chunks(None, held, capacity, chunks);
            let all = held + joined(chunks);
            &&& f.blocks == Seq::<BlockInfo>::empty()
            &&& f.pending == None::<(BlockInfo, nat)>
            &&& f.valid
            &&& f.held == all.take(if all.len() < capacity - 1 { all.len() as int } else { capacity - 1 })
        }),
        forall|size: int| 0 <= size ==> #[trigger] accepted(capacity - 1, capacity, size) == 0,
    decreases chunks.len(),
{
    let all = held + joined(chunks);
    if chunks.len() == 0 {
        assert(all =~= held);
        assert(all.take(all.len() as int) =~= held);
    } else {
        let c = chunks[0];
        let n = accepted(held.len() as int, capacity, c.len() as int);
        let h1 = held + c.take(n);
        let rest = chunks.skip(1);
        law_small_parser_stalls(h1, capacity, rest);
        assert(all =~= held + c + joined(rest));
        let all1 = h1 + joined(rest);
        if n == c.len() {
            assert(c.take(n) =~= c);
            assert(all1 =~= all);
        } else {
            assert(h1.len() == capacity - 1);
            assert(all1.take(capacity - 1) =~= h1);
            assert(all.take(capacity - 1) =~= h1);
        }
    }
}

/// One call on a parser: a receive of the whole of some bytes, or a parse.
pub enum ParserOp {
    Recv(Seq<u8>),
    Consume,
}

/// The calls `ops`, made one after the other on a parser with `capacity` cells in
/// state `pending` holding `held`: each receive of `bytes` stores what
/// [`StreamParser::recv`] stores of `recv(bytes, bytes.len())`, and each parse does
/// what [`StreamParser::consume`] does. The run ends in the state and with the held
/// bytes it gives, and with every block reported, in order.
pub open spec fn run_ops(
    pending: Option<(BlockInfo, nat)>,
    held: Seq<u8>,
    capacity: int,
    ops: Seq<ParserOp>,
) -> ParseRun
    decreases ops.len(),
{
    if ops.len() == 0 {
        ParseRun { pending, rest: held, blocks: Seq::empty(), valid: true }
    } else {
        match ops[0] {
            ParserOp::Recv(bytes) => {
                let n = accepted(held.len() as int, capacity, bytes.len() as int);
                run_ops(pending, held + bytes.take(n), capacity, ops.skip(1))
            },
            ParserOp::Consume => {
                let r = parse(pending, held);
                let f = run_ops(r.pending, r.rest, capacity, ops.skip(1));
                ParseRun { blocks: r.blocks + f.blocks, valid: r.valid && f.valid, ..f }
            },
        }
    }
}

/// A parser with room for fewer bytes than a header never gets anywhere, whatever
/// receives and parses are made on it and in whatever order: waiting for a header
/// with fewer than `capacity` bytes at hand, it reports no block, keeps waiting, and
/// keeps the bytes it held; once it holds `capacity - 1` bytes, every receive takes
/// nothing.
pub proof fn law_small_parser_stalls_always(held: Seq<u8>, capacity: int, ops: Seq<ParserOp>)
    requires
        capacity <= HEADER_LEN,
        held.len() < capacity,
    ensures
        ({
            let r = run_ops(None, held, capacity, ops);
            &&& r.blocks == Seq::<BlockInfo>::empty()
            &&& r.pending == None::<(BlockInfo, nat)>
            &&& r.valid
            &&& held.len() <= r.rest.len() < capacity
            &&& r.rest.take(held.len() as int) == held
        }),
        forall|size: int| 0 <= size ==> #[trigger] accepted(capacity - 1, capacity, size) == 0,
    decreases ops.len(),
{
    if ops.len() == 0 {
        assert(held.take(held.len() as int) =~= held);
    } else {
        match ops[0] {
            ParserOp::Recv(bytes) => {
                let n = accepted(held.len() as int, capacity, bytes.len() as int);
                let h1 = held + bytes.take(n);
                crate::loopbytes::law_push_bounded(held.len() as int, capacity, bytes.len() as int);
                law_small_parser_stalls_always(h1, capacity, ops.skip(1));
                let r = run_ops(None, h1, capacity, ops.skip(1));
                assert(r.rest.take(held.len() as int) =~= r.rest.take(h1.len() as int).take(
                    held.len() as int,
                ));
                assert(h1.take(held.len() as int) =~= held);
            },
            ParserOp::Consume => {
                law_small_parser_stalls_always(held, capacity, ops.skip(1));
                let f = run_ops(None, held, capacity, ops.skip(1));
                assert(Seq::<BlockInfo>::empty() + f.blocks =~= f.blocks);
            },
        }
    }
}

/// After a parse the parser holds at most a partial header (`k` bytes, fewer than a
/// header), so a parser with room for `room` bytes then takes `min(size, room - k)`
/// bytes of a receive of `size`.
pub proof fn law_recv_after_consume(k: int, room: int, size: int)
    requires
        0 <= k < HEADER_LEN,
        k <= room,
        0 <= size,
    ensures
        accepted(k, room + 1, size) == if size < room - k { size } else { room - k },
{
}

impl Default for StreamParser {
    /// A parser with room for 65535 bytes.
    fn default() -> (p: Self)
        ensures
            p.wf(),
            p.pending() == None::<(BlockInfo, nat)>,
            p.held() == Seq::<u8>::empty(),
            p.capacity() == 65536,
            p.held().len() < p.capacity(),
    {
        StreamParser::new(65535)
    }
}

} // verus!
