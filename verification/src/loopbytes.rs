use vstd::prelude::*;

verus! {

/// Folds an index `i` of the range `0 .. 2 * cap` back into a ring of `cap` cells.
pub open spec fn wrap(i: int, cap: int) -> int {
    if i < cap {
        i
    } else {
        i - cap
    }
}

/// How many bytes a push of `size` bytes stores, when `held` bytes already sit in a
/// ring of `capacity` cells (one cell always stays free).
pub open spec fn accepted(held: int, capacity: int, size: int) -> int {
    if size == 0 || capacity == 0 {
        0
    } else if size < capacity - 1 - held {
        size
    } else {
        capacity - 1 - held
    }
}

/// How many bytes a pop or a drop of `s` bytes removes, when `held` bytes are held.
pub open spec fn taken(held: int, s: int) -> int {
    if s < held {
        s
    } else {
        held
    }
}

/// `dst` with the `n` cells from `at` on replaced by `src[from .. from + n]`.
pub open spec fn overwrite(dst: Seq<u8>, at: int, src: Seq<u8>, from: int, n: int) -> Seq<u8> {
    dst.take(at) + src.subrange(from, from + n) + dst.skip(at + n)
}

/// How far cell `j` of a ring of `cap` cells lies after cell `from`, going forward.
pub open spec fn ring_offset(j: int, from: int, cap: int) -> int {
    if j >= from {
        j - from
    } else {
        j + cap - from
    }
}

/// The cells `cells` of a ring after `data` was written into them, starting at cell `at`
/// and going forward, past the last cell on to the first.
pub open spec fn write_ring(cells: Seq<u8>, at: int, data: Seq<u8>) -> Seq<u8> {
    Seq::new(
        cells.len(),
        |j: int|
            if ring_offset(j, at, cells.len() as int) < data.len() {
                data[ring_offset(j, at, cells.len() as int)]
            } else {
                cells[j]
            },
    )
}

/// Copies `src[from .. from + n]` over `dst[at .. at + n]`.
fn copy_run(dst: &mut [u8], at: usize, src: &[u8], from: usize, n: usize)
    requires
        at + n <= old(dst)@.len(),
        from + n <= src@.len(),
    ensures
        final(dst)@ == overwrite(old(dst)@, at as int, src@, from as int, n as int),
{
    let mut k: usize = 0;
    while k < n
        invariant
            k <= n,
            at + n <= dst.len(),
            from + n <= src.len(),
            dst@.len() == old(dst)@.len(),
            forall|j: int|
                0 <= j < dst@.len() ==> #[trigger] dst@[j] == (if at <= j < at + k {
                    src@[from + j - at]
                } else {
                    old(dst)@[j]
                }),
        decreases n - k,
    {
        dst[at + k] = src[from + k];
        k += 1;
    }
    assert(dst@ =~= overwrite(old(dst)@, at as int, src@, from as int, n as int));
}

/// A ring of bytes of fixed capacity. Bytes are pushed at `tail` and taken out at
/// `head`; `length` bytes are held, and one cell always stays free, so at most
/// `capacity - 1` bytes are held at a time.
pub struct LoopBytes {
    pub bytes: Vec<u8>,
    pub head: usize,
    pub tail: usize,
    pub length: usize,
    pub capacity: usize,
}

impl LoopBytes {
    /// The ring is well formed: the storage has `capacity` cells, `head` and `tail`
    /// lie inside it, and `tail` sits `length` cells after `head`.
    pub open spec fn wf(&self) -> bool {
        &&& self.bytes@.len() == self.capacity
        &&& self.capacity == 0 ==> (self.head == 0 && self.tail == 0 && self.length == 0)
        &&& self.capacity > 0 ==> {
            &&& self.head < self.capacity
            &&& self.length < self.capacity
            &&& self.tail == wrap(self.head + self.length, self.capacity as int)
        }
    }

    /// The bytes held, oldest first.
    pub open spec fn contents(&self) -> Seq<u8> {
        Seq::new(
            self.length as nat,
            |i: int| self.bytes@[wrap(self.head + i, self.capacity as int)],
        )
    }
}

impl LoopBytes {
    /// Makes an empty ring of `capacity` cells, all zero.
    pub fn new(capacity: usize) -> (lb: Self)
        ensures
            lb.wf(),
            lb.capacity == capacity,
            lb.head == 0,
            lb.tail == 0,
            lb.length == 0,
            lb@ == Seq::<u8>::empty(),
            lb.bytes@ == Seq::new(capacity as nat, |i: int| 0u8),
    {
        let bytes: Vec<u8> = vec![0u8; capacity];
        let lb = LoopBytes { bytes, head: 0, tail: 0, length: 0, capacity };
        assert(lb.bytes@ =~= Seq::new(capacity as nat, |i: int| 0u8));
        assert(lb@ =~= Seq::<u8>::empty());
        lb
    }

    /// The number of bytes held.
    pub fn size(&self) -> (n: usize)
        ensures
            n == self@.len(),
    {
        self.length
    }

    /// The number of bytes a push can still store.
    pub fn remaining(&self) -> (n: usize)
        requires
            self.length < self.capacity,
        ensures
            n == self.capacity - 1 - self@.len(),
    {
        self.capacity - 1 - self.size()
    }

    /// Stores the first bytes of `buf[.. size]` after the bytes held, as many as fit,
    /// and returns how many it stored.
    pub fn push(&mut self, buf: &[u8], size: usize) -> (pushed: usize)
        requires
            old(self).wf(),
            size == 0 || old(self).capacity > 0,
            accepted(old(self)@.len() as int, old(self).capacity as int, size as int) <= buf@.len(),
        ensures
            final(self).wf(),
            pushed == accepted(old(self)@.len() as int, old(self).capacity as int, size as int),
            final(self)@ == old(self)@ + buf@.take(pushed as int),
            final(self).capacity == old(self).capacity,
            final(self).head == old(self).head,
            final(self).tail == wrap(old(self).tail + pushed, old(self).capacity as int),
            final(self).bytes@ == write_ring(old(self).bytes@, old(self).tail as int, buf@.take(pushed as int)),
            ring_step(old(self)@, old(self).capacity as int, RingOp::Push(buf@, size as nat)) == (
                final(self)@,
                pushed as int,
            ),
    {
        if size == 0 {
            assert(old(self).bytes@ =~= write_ring(old(self).bytes@, old(self).tail as int, buf@.take(0)));
            assert(old(self)@ =~= old(self)@ + buf@.take(0));
            return 0;
        }
        let remaining = self.remaining();
        if remaining > 0 {
            let push_size = if size < remaining { size } else { remaining };
            let cap = self.capacity;
            let tail = self.tail;
            let ghost data = buf@.take(push_size as int);
            if push_size < cap - tail {
                copy_run(self.bytes.as_mut_slice(), tail, buf, 0, push_size);
                assert(self.bytes@ =~= write_ring(old(self).bytes@, tail as int, data));
                self.tail = tail + push_size;
            } else {
                let first = cap - tail;
                let remain = push_size - first;
                copy_run(self.bytes.as_mut_slice(), tail, buf, 0, first);
                copy_run(self.bytes.as_mut_slice(), 0, buf, first, remain);
                assert(self.bytes@ =~= write_ring(old(self).bytes@, tail as int, data));
                self.tail = remain;
            }
            self.length = self.length + push_size;
            proof {
                lemma_push_contents(*old(self), *self, data);
            }
            push_size
        } else {
            assert(old(self).bytes@ =~= write_ring(old(self).bytes@, old(self).tail as int, buf@.take(0)));
            assert(old(self)@ =~= old(self)@ + buf@.take(0));
            0
        }
    }

    /// Moves the oldest `min(s, held)` bytes out of the ring into the front of `buf`,
    /// and returns how many it moved.
    pub fn pop(&mut self, buf: &mut [u8], s: usize) -> (popped: usize)
        requires
            old(self).wf(),
            taken(old(self)@.len() as int, s as int) <= old(buf)@.len(),
        ensures
            final(self).wf(),
            popped == taken(old(self)@.len() as int, s as int),
            final(self)@ == old(self)@.skip(popped as int),
            final(buf)@ == old(self)@.take(popped as int) + old(buf)@.skip(popped as int),
            ring_step(old(self)@, old(self).capacity as int, RingOp::Pop(s as nat)) == (
                final(self)@,
                popped as int,
            ),
            final(self).capacity == old(self).capacity,
            final(self).bytes == old(self).bytes,
            final(self).tail == old(self).tail,
            final(self).head == wrap(old(self).head + popped, old(self).capacity as int),
    {
        if s == 0 {
            assert(old(self)@ =~= old(self)@.skip(0));
            assert(old(buf)@ =~= old(self)@.take(0) + old(buf)@.skip(0));
            return 0;
        }
        let size = self.size();
        if size > 0 {
            let pop_size = if s < size { s } else { size };
            let cap = self.capacity;
            let head = self.head;
            if pop_size < cap - head {
                copy_run(buf, 0, self.bytes.as_slice(), head, pop_size);
                assert(buf@ =~= old(self)@.take(pop_size as int) + old(buf)@.skip(pop_size as int));
                self.head = head + pop_size;
            } else {
                let first = cap - head;
                let remain = pop_size - first;
                copy_run(buf, 0, self.bytes.as_slice(), head, first);
                copy_run(buf, first, self.bytes.as_slice(), 0, remain);
                assert(buf@ =~= old(self)@.take(pop_size as int) + old(buf)@.skip(pop_size as int));
                self.head = remain;
            }
            self.length = self.length - pop_size;
            proof {
                lemma_take_contents(*old(self), *self, pop_size as int);
            }
            pop_size
        } else {
            assert(old(self)@ =~= old(self)@.skip(0));
            assert(old(buf)@ =~= old(self)@.take(0) + old(buf)@.skip(0));
            0
        }
    }

    /// Removes the oldest `min(s, held)` bytes from the ring, and returns how many it
    /// removed.
    pub fn drop(&mut self, s: usize) -> (dropped: usize)
        requires
            old(self).wf(),
        ensures
            final(self).wf(),
            dropped == taken(old(self)@.len() as int, s as int),
            final(self)@ == old(self)@.skip(dropped as int),
            ring_step(old(self)@, old(self).capacity as int, RingOp::Drop(s as nat)) == (
                final(self)@,
                dropped as int,
            ),
            final(self).capacity == old(self).capacity,
            final(self).bytes == old(self).bytes,
            final(self).tail == old(self).tail,
            final(self).head == wrap(old(self).head + dropped, old(self).capacity as int),
    {
        if s == 0 {
            assert(old(self)@ =~= old(self)@.skip(0));
            return 0;
        }
        let size = self.size();
        if size > 0 {
            let pop_size = if s < size { s } else { size };
            let cap = self.capacity;
            let head = self.head;
            if pop_size < cap - head {
                self.head = head + pop_size;
            } else {
                self.head = pop_size - (cap - head);
            }
            self.length = self.length - pop_size;
            proof {
                lemma_take_contents(*old(self), *self, pop_size as int);
            }
            pop_size
        } else {
            assert(old(self)@ =~= old(self)@.skip(0));
            0
        }
    }

    /// Copies the held bytes `at .. at + n`, counted from the oldest, into the front of
    /// `out`, and leaves the ring as it is.
    pub fn peek(&self, at: usize, out: &mut [u8], n: usize)
        requires
            self.wf(),
            at + n <= self@.len(),
            n <= old(out)@.len(),
        ensures
            final(out)@ == self@.subrange(at as int, at + n) + old(out)@.skip(n as int),
    {
        let cap = self.capacity;
        let head = self.head;
        let mut k: usize = 0;
        while k < n
            invariant
                self.wf(),
                cap == self.capacity,
                head == self.head,
                k <= n,
                at + n <= self@.len(),
                n <= out@.len(),
                out@.len() == old(out)@.len(),
                forall|j: int|
                    0 <= j < out@.len() ==> #[trigger] out@[j] == (if j < k {
                        self@[at + j]
                    } else {
                        old(out)@[j]
                    }),
            decreases n - k,
        {
            let off: usize = at + k;
            let p: usize = if off < cap - head {
                head + off
            } else {
                off - (cap - head)
            };
            out[k] = self.bytes[p];
            k += 1;
        }
        assert(out@ =~= self@.subrange(at as int, at + n) + old(out)@.skip(n as int));
    }
}

/// Moving the head of a well-formed ring `n` cells forward, over `n` held bytes,
/// leaves the ring holding the rest of them.
proof fn lemma_take_contents(before: LoopBytes, after: LoopBytes, n: int)
    requires
        before.wf(),
        before.capacity > 0,
        0 <= n <= before.length,
        after.capacity == before.capacity,
        after.bytes == before.bytes,
        after.tail == before.tail,
        after.length == before.length - n,
        after.head == wrap(before.head + n, before.capacity as int),
    ensures
        after.wf(),
        after@ == before@.skip(n),
{
    assert(after@ =~= before@.skip(n));
}

/// After `data` is written into the free cells of a well-formed ring, the ring holds
/// its old bytes followed by `data`.
proof fn lemma_push_contents(before: LoopBytes, after: LoopBytes, data: Seq<u8>)
    requires
        before.wf(),
        before.capacity > 0,
        data.len() <= before.capacity - 1 - before.length,
        after.capacity == before.capacity,
        after.head == before.head,
        after.length == before.length + data.len(),
        after.tail == wrap(before.tail + data.len(), before.capacity as int),
        after.bytes@ == write_ring(before.bytes@, before.tail as int, data),
    ensures
        after.wf(),
        after@ == before@ + data,
{
    let cap = before.capacity as int;
    assert forall|i: int| 0 <= i < after.length implies #[trigger] after@[i] == (before@ + data)[i] by {
        let p = wrap(before.head + i, cap);
        if i < before.length {
            assert(ring_offset(p, before.tail as int, cap) >= data.len());
        } else {
            assert(ring_offset(p, before.tail as int, cap) == i - before.length);
        }
    }
    assert(after@ =~= before@ + data);
}

/// A push never stores more than it was offered nor more than there is room for, and
/// it stores something whenever something is offered and there is room.
pub proof fn law_push_bounded(held: int, capacity: int, size: int)
    requires
        0 <= held < capacity,
        0 <= size,
    ensures
        0 <= accepted(held, capacity, size) <= size,
        held + accepted(held, capacity, size) <= capacity - 1,
        size > 0 && held < capacity - 1 ==> accepted(held, capacity, size) > 0,
        size <= capacity - 1 - held ==> accepted(held, capacity, size) == size,
{
}

/// A pop or a drop never removes more than was asked nor more than is held, and it
/// removes something whenever something is asked and held.
pub proof fn law_take_bounded(held: int, s: int)
    requires
        0 <= held,
        0 <= s,
    ensures
        0 <= taken(held, s) <= s,
        taken(held, s) <= held,
        s > 0 && held > 0 ==> taken(held, s) > 0,
        s >= held ==> taken(held, s) == held,
{
}

/// A well-formed ring of `capacity` cells holds at most `capacity - 1` bytes, and
/// what it holds and what it can still take add up to `capacity - 1`.
pub proof fn law_capacity(lb: LoopBytes)
    requires
        lb.wf(),
        lb.capacity > 0,
    ensures
        lb@.len() <= lb.capacity - 1,
        lb@.len() + (lb.capacity - 1 - lb@.len()) == lb.capacity - 1,
{
}

/// Bytes come out in the order they went in: after the ring holding `held` takes a
/// push of `buf[.. size]`, a pop of `s` bytes gives the oldest held bytes first, and
/// then the pushed ones.
pub proof fn law_first_in_first_out(held: Seq<u8>, capacity: int, buf: Seq<u8>, size: int, s: int)
    requires
        held.len() < capacity,
        0 <= size,
        0 <= s,
        accepted(held.len() as int, capacity, size) <= buf.len(),
    ensures
        ({
            let pushed = accepted(held.len() as int, capacity, size);
            let after = held + buf.take(pushed);
            let out = after.take(taken(after.len() as int, s));
            &&& out.len() <= held.len() ==> out == held.take(out.len() as int)
            &&& out.len() > held.len() ==> out == held + buf.take(out.len() - held.len())
        }),
{
    let pushed = accepted(held.len() as int, capacity, size);
    let after = held + buf.take(pushed);
    let out = after.take(taken(after.len() as int, s));
    if out.len() <= held.len() {
        assert(out =~= held.take(out.len() as int));
    } else {
        assert(out =~= held + buf.take(out.len() - held.len()));
    }
}

/// What goes in comes back out: an empty ring with room for `size` bytes takes all
/// of `buf[.. size]`, and a pop of `size` bytes then gives them back and leaves the
/// ring empty.
pub proof fn law_push_pop_round_trip(capacity: int, buf: Seq<u8>, size: int)
    requires
        0 <= size <= capacity - 1,
        size <= buf.len(),
    ensures
        ({
            let pushed = accepted(0, capacity, size);
            let after = Seq::<u8>::empty() + buf.take(pushed);
            &&& pushed == size
            &&& taken(after.len() as int, size) == size
            &&& after.take(size) == buf.take(size)
            &&& after.skip(size) == Seq::<u8>::empty()
        }),
{
    let after = Seq::<u8>::empty() + buf.take(size);
    assert(after.take(size) =~= buf.take(size));
    assert(after.skip(size) =~= Seq::<u8>::empty());
}

/// One call on a ring: a push of `buf[.. size]`, a pop of `s` bytes, or a drop of
/// `s` bytes.
pub enum RingOp {
    Push(Seq<u8>, nat),
    Pop(nat),
    Drop(nat),
}

/// What one call does to the held bytes `held` of a ring of `capacity` cells: the
/// bytes held after it, and the count it returns.
pub open spec fn ring_step(held: Seq<u8>, capacity: int, op: RingOp) -> (Seq<u8>, int) {
    match op {
        RingOp::Push(buf, size) => {
            let n = accepted(held.len() as int, capacity, size as int);
            (held + buf.take(n), n)
        },
        RingOp::Pop(s) => {
            let n = taken(held.len() as int, s as int);
            (held.skip(n), n)
        },
        RingOp::Drop(s) => {
            let n = taken(held.len() as int, s as int);
            (held.skip(n), n)
        },
    }
}

/// A run of calls on a ring: the bytes held at the end, every byte the pushes
/// stored (in order), the number of bytes the pops and drops removed, and whether
/// every push had a buffer long enough for what it stored.
pub struct RingHistory {
    pub held: Seq<u8>,
    pub stored: Seq<u8>,
    pub removed: int,
    pub fits: bool,
}

/// The calls `ops`, made one after the other on a ring of `capacity` cells that
/// holds `held`.
pub open spec fn ring_replay(held: Seq<u8>, capacity: int, ops: Seq<RingOp>) -> RingHistory
    decreases ops.len(),
{
    if ops.len() == 0 {
        RingHistory { held, stored: Seq::empty(), removed: 0, fits: true }
    } else {
        let (h1, n) = ring_step(held, capacity, ops[0]);
        let r = ring_replay(h1, capacity, ops.skip(1));
        match ops[0] {
            RingOp::Push(buf, size) => RingHistory {
                stored: buf.take(n) + r.stored,
                fits: n <= buf.len() && r.fits,
                ..r
            },
            RingOp::Pop(s) => RingHistory { removed: n + r.removed, ..r },
            RingOp::Drop(s) => RingHistory { removed: n + r.removed, ..r },
        }
    }
}

/// Over any run of pushes, pops and drops, the ring holds what was stored and not
/// yet removed, oldest first: the bytes it held at the start followed by every byte
/// the pushes stored, less as many from the front as the pops and drops removed. So
/// its size is its first size, plus every push's count, less every pop's and drop's
/// count, and it stays below the capacity.
pub proof fn law_ring_history(held: Seq<u8>, capacity: int, ops: Seq<RingOp>)
    requires
        held.len() < capacity,
        ring_replay(held, capacity, ops).fits,
    ensures
        ({
            let r = ring_replay(held, capacity, ops);
            &&& 0 <= r.removed <= held.len() + r.stored.len()
            &&& r.held == (held + r.stored).skip(r.removed)
            &&& r.held.len() == held.len() + r.stored.len() - r.removed
            &&& r.held.len() < capacity
        }),
    decreases ops.len(),
{
    if ops.len() > 0 {
        let (h1, n) = ring_step(held, capacity, ops[0]);
        let r = ring_replay(h1, capacity, ops.skip(1));
        match ops[0] {
            RingOp::Push(buf, size) => {
                law_push_bounded(held.len() as int, capacity, size as int);
                assert(h1.len() < capacity);
                law_ring_history(h1, capacity, ops.skip(1));
                assert(held + (buf.take(n) + r.stored) =~= h1 + r.stored);
            },
            RingOp::Pop(s) => {
                law_take_bounded(held.len() as int, s as int);
                law_ring_history(h1, capacity, ops.skip(1));
                assert((h1 + r.stored).skip(r.removed) =~= (held + r.stored).skip(n + r.removed));
            },
            RingOp::Drop(s) => {
                law_take_bounded(held.len() as int, s as int);
                law_ring_history(h1, capacity, ops.skip(1));
                assert((h1 + r.stored).skip(r.removed) =~= (held + r.stored).skip(n + r.removed));
            },
        }
    } else {
        assert((held + Seq::<u8>::empty()).skip(0) =~= held);
    }
}

impl Default for LoopBytes {
    /// A ring of 65535 cells.
    fn default() -> (lb: Self)
        ensures
            lb.wf(),
            lb.capacity == 65535,
            lb.head == 0,
            lb.tail == 0,
            lb@ == Seq::<u8>::empty(),
    {
        LoopBytes::new(65535)
    }
}

impl View for LoopBytes {
    type V = Seq<u8>;

    open spec fn view(&self) -> Seq<u8> {
        self.contents()
    }
}

} // verus!
