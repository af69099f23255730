//! The journal: a single-producer, single-consumer queue built as a chain of
//! fixed-capacity buffers. A full buffer is never grown: the producer starts a new
//! one and links it after the old; the consumer frees a buffer once it has read
//! it to the end and moves on to its successor.
use std::sync::Arc;

use vstd::prelude::*;
use vstd::rwlock::{RwLock, RwLockPredicate};

verus! {

/// Why `try_recv` returned no value.
#[derive(Clone, Copy, Debug, PartialEq, Eq, Structural)]
pub enum RecvResult {
    /// Nothing to read at the moment; more may come.
    Empty,
    /// The sender has hung up and everything it sent has been read.
    Disconnected,
}

/// The journal as its users see it: the items sent and not yet received, oldest
/// first, and whether the sender has hung up.
pub type JournalView<T> = (Seq<T>, bool);

/// The journal after `item` is sent.
pub open spec fn send_step<T>(v: JournalView<T>, item: T) -> JournalView<T> {
    (v.0.push(item), v.1)
}

/// The answer to a receive, and the journal after it.
pub open spec fn recv_step<T>(v: JournalView<T>) -> (Result<T, RecvResult>, JournalView<T>) {
    if v.0.len() > 0 {
        (Ok(v.0[0]), (v.0.drop_first(), v.1))
    } else if v.1 {
        (Err(RecvResult::Disconnected), v)
    } else {
        (Err(RecvResult::Empty), v)
    }
}

/// The journal after its sender hangs up.
pub open spec fn hang_up_step<T>(v: JournalView<T>) -> JournalView<T> {
    (v.0, true)
}

/// Whether a receive would answer `Disconnected`.
pub open spec fn spec_disconnected<T>(v: JournalView<T>) -> bool {
    v.1 && v.0.len() == 0
}

/// The answers and the final journal when `ops` is applied in order to `v`:
/// `Some(x)` sends `x`, `None` receives.
pub open spec fn run<T>(v: JournalView<T>, ops: Seq<Option<T>>) -> (
    Seq<Result<T, RecvResult>>,
    JournalView<T>,
)
    decreases ops.len(),
{
    if ops.len() == 0 {
        (Seq::empty(), v)
    } else {
        match ops[0] {
            Some(x) => run(send_step(v, x), ops.drop_first()),
            None => {
                let (r, v1) = recv_step(v);
                let (outs, vf) = run(v1, ops.drop_first());
                (seq![r] + outs, vf)
            },
        }
    }
}

/// The values that `ops` sends, in order.
pub open spec fn values_sent<T>(ops: Seq<Option<T>>) -> Seq<T>
    decreases ops.len(),
{
    if ops.len() == 0 {
        Seq::empty()
    } else {
        match ops[0] {
            Some(x) => seq![x] + values_sent(ops.drop_first()),
            None => values_sent(ops.drop_first()),
        }
    }
}

/// The values among a run's answers, in order.
pub open spec fn values_received<T>(outs: Seq<Result<T, RecvResult>>) -> Seq<T>
    decreases outs.len(),
{
    if outs.len() == 0 {
        Seq::empty()
    } else {
        match outs[0] {
            Ok(x) => seq![x] + values_received(outs.drop_first()),
            Err(_) => values_received(outs.drop_first()),
        }
    }
}

/// `n` receives in a row.
pub open spec fn receives<T>(n: nat) -> Seq<Option<T>> {
    Seq::new(n, |i: int| None)
}

/// A journal is first in, first out: what has been received, followed by what is
/// still pending, is what was pending at the start followed by all that was sent.
/// The sender's hang-up state is left as it was, and a receive answers `Empty`
/// only when nothing is pending.
pub proof fn lemma_journal_fifo<T>(v: JournalView<T>, ops: Seq<Option<T>>)
    ensures
        values_received(run(v, ops).0) + run(v, ops).1.0 == v.0 + values_sent(ops),
        run(v, ops).1.1 == v.1,
        !v.1 ==> !run(v, ops).0.contains(Err(RecvResult::Disconnected)),
    decreases ops.len(),
{
    if ops.len() == 0 {
        assert(values_received(Seq::<Result<T, RecvResult>>::empty()) == Seq::<T>::empty());
        assert(v.0 + Seq::<T>::empty() =~= v.0);
        assert(Seq::<T>::empty() + v.0 =~= v.0);
    } else {
        let rest = ops.drop_first();
        match ops[0] {
            Some(x) => {
                lemma_journal_fifo(send_step(v, x), rest);
                assert(values_sent(ops) == seq![x] + values_sent(rest));
                assert(v.0.push(x) + values_sent(rest) =~= v.0 + (seq![x] + values_sent(rest)));
            },
            None => {
                let (r, v1) = recv_step(v);
                lemma_journal_fifo(v1, rest);
                let (outs, vf) = run(v1, rest);
                assert(run(v, ops).0 == seq![r] + outs);
                assert((seq![r] + outs).drop_first() =~= outs);
                assert((seq![r] + outs)[0] == r);
                assert(values_sent(ops) == values_sent(rest));
                if v.0.len() > 0 {
                    assert(values_received(seq![r] + outs) == seq![v.0[0]] + values_received(outs));
                    assert(seq![v.0[0]] + values_received(outs) + vf.0 =~= seq![v.0[0]] + (
                    values_received(outs) + vf.0));
                    assert(seq![v.0[0]] + (v.0.drop_first() + values_sent(rest)) =~= v.0
                        + values_sent(rest));
                } else {
                    assert(values_received(seq![r] + outs) == values_received(outs));
                }
                if !v.1 {
                    assert(r == Err::<T, RecvResult>(RecvResult::Empty) || r is Ok);
                    if (seq![r] + outs).contains(Err(RecvResult::Disconnected)) {
                        let j = choose|j: int| 0 <= j < (seq![r] + outs).len() && (seq![r]
                            + outs)[j] == Err::<T, RecvResult>(RecvResult::Disconnected);
                        assert(j != 0);
                        assert(outs[j - 1] == (seq![r] + outs)[j]);
                    }
                }
            },
        }
    }
}

/// Once the sender has hung up, a receiver gets every pending item in order and
/// then `Disconnected`.
pub proof fn lemma_drain_after_hang_up<T>(v: JournalView<T>)
    requires
        v.1,
    ensures
        run(v, receives::<T>(v.0.len() + 1)).0 == v.0.map_values(|x: T| Ok::<T, RecvResult>(x)).push(
            Err(RecvResult::Disconnected),
        ),
        run(v, receives::<T>(v.0.len() + 1)).1 == (Seq::<T>::empty(), true),
    decreases v.0.len(),
{
    let ops = receives::<T>(v.0.len() + 1);
    assert(ops[0] == None::<T>);
    assert(ops.drop_first() =~= receives::<T>(v.0.len()));
    if v.0.len() == 0 {
        assert(receives::<T>(0) =~= Seq::<Option<T>>::empty());
        assert(recv_step(v) == (Err::<T, RecvResult>(RecvResult::Disconnected), v));
        assert(run(v, ops.drop_first()) == (Seq::<Result<T, RecvResult>>::empty(), v));
        assert(run(v, ops).0 =~= seq![Err::<T, RecvResult>(RecvResult::Disconnected)]);
        assert(v =~= (Seq::<T>::empty(), true));
        assert(v.0 =~= Seq::<T>::empty());
        assert(v.0.map_values(|x: T| Ok::<T, RecvResult>(x)) =~= Seq::<Result<T, RecvResult>>::empty());
    } else {
        let v1 = (v.0.drop_first(), true);
        lemma_drain_after_hang_up(v1);
        assert(receives::<T>(v.0.len()) =~= receives::<T>(v1.0.len() + 1));
        assert(recv_step(v) == (Ok::<T, RecvResult>(v.0[0]), v1));
        assert(run(v, ops).0 =~= seq![Ok::<T, RecvResult>(v.0[0])] + run(v1, receives::<T>(v1.0.len() + 1)).0);
        assert(v.0.map_values(|x: T| Ok::<T, RecvResult>(x)) =~= seq![Ok::<T, RecvResult>(v.0[0])]
            + v1.0.map_values(|x: T| Ok::<T, RecvResult>(x)));
    }
}

/// Whether `x` is a power of two.
pub open spec fn is_pow2(x: int) -> bool
    decreases x,
{
    if x <= 0 {
        false
    } else if x == 1 {
        true
    } else {
        x % 2 == 0 && is_pow2(x / 2)
    }
}

/// The least power of two that is at least `n` (one for zero).
pub fn round_up_pow2(n: usize) -> (r: usize)
    requires
        n <= usize::MAX / 2 + 1,
    ensures
        is_pow2(r as int),
        r >= n,
        r == 1 || r / 2 < n,
{
    let mut p: usize = 1;
    while p < n
        invariant
            is_pow2(p as int),
            p >= 1,
            p == 1 || p / 2 < n,
            n <= usize::MAX / 2 + 1,
        decreases usize::MAX - p,
    {
        assert(p <= usize::MAX / 2);
        p = p * 2;
        assert((p as int) / 2 == p / 2);
    }
    p
}

/// One buffer of the chain. `data` holds what was written (its length is the
/// tail), `head` the read position, and `tail_max` how far writing may go: the
/// capacity, or the tail once the buffer is completed.
pub struct Buffer<T> {
    data: Vec<T>,
    capacity: usize,
    head: usize,
    tail_max: usize,
}

impl<T> Buffer<T> {
    pub closed spec fn wf(&self, capacity: usize) -> bool {
        &&& self.capacity == capacity
        &&& self.head <= self.data@.len()
        &&& self.data@.len() <= self.tail_max
        &&& self.tail_max <= capacity
    }

    /// The items written and not yet read.
    pub closed spec fn unread(&self) -> Seq<T> {
        self.data@.subrange(self.head as int, self.data@.len() as int)
    }

    pub closed spec fn completed(&self) -> bool {
        self.data@.len() == self.tail_max
    }

    pub closed spec fn spec_head(&self) -> usize {
        self.head
    }

    pub closed spec fn spec_tail(&self) -> int {
        self.data@.len() as int
    }

    pub closed spec fn spec_tail_max(&self) -> usize {
        self.tail_max
    }

    fn new(capacity: usize) -> (r: Buffer<T>)
        ensures
            r.wf(capacity),
            r.unread() == Seq::<T>::empty(),
            r.spec_head() == 0,
            r.spec_tail_max() == capacity,
    {
        Buffer { data: Vec::new(), capacity, head: 0, tail_max: capacity }
    }
}

/// Whether every item of the chain is well formed for buffers of `capacity`.
pub open spec fn chain_wf<T>(bufs: Seq<Buffer<T>>, capacity: usize) -> bool {
    &&& bufs.len() >= 1
    &&& forall|i: int| 0 <= i < bufs.len() ==> #[trigger] bufs[i].wf(capacity)
    &&& forall|i: int| 0 <= i < bufs.len() - 1 ==> #[trigger] bufs[i].completed()
    &&& forall|i: int| 1 <= i < bufs.len() ==> (#[trigger] bufs[i]).spec_head() == 0
        && bufs[i].spec_tail() >= 1
}

/// The unread items of a chain of buffers, oldest first.
pub open spec fn chain_items<T>(bufs: Seq<Buffer<T>>) -> Seq<T>
    decreases bufs.len(),
{
    if bufs.len() == 0 {
        Seq::empty()
    } else {
        bufs[0].unread() + chain_items(bufs.drop_first())
    }
}

proof fn lemma_chain_items_push<T>(bufs: Seq<Buffer<T>>, b: Buffer<T>)
    ensures
        chain_items(bufs.push(b)) == chain_items(bufs) + b.unread(),
    decreases bufs.len(),
{
    if bufs.len() == 0 {
        assert(bufs.push(b).drop_first() == Seq::<Buffer<T>>::empty());
        assert(chain_items(Seq::<Buffer<T>>::empty()) == Seq::<T>::empty());
        assert(chain_items(bufs.push(b)) == b.unread() + Seq::<T>::empty());
        assert(b.unread() + Seq::<T>::empty() == b.unread());
    } else {
        assert(bufs.push(b).drop_first() == bufs.drop_first().push(b));
        lemma_chain_items_push(bufs.drop_first(), b);
        assert(chain_items(bufs.push(b)) == bufs[0].unread() + (chain_items(bufs.drop_first())
            + b.unread()));
    }
}

proof fn lemma_chain_items_nonempty<T>(bufs: Seq<Buffer<T>>, capacity: usize)
    requires
        chain_wf(bufs, capacity),
        bufs.len() > 1,
    ensures
        chain_items(bufs).len() > 0,
{
    assert(bufs[1].wf(capacity));
    lemma_chain_items_tail_nonempty(bufs.drop_first(), capacity);
}

proof fn lemma_chain_items_tail_nonempty<T>(bufs: Seq<Buffer<T>>, capacity: usize)
    requires
        bufs.len() >= 1,
        bufs[0].spec_head() == 0,
        bufs[0].spec_tail() >= 1,
    ensures
        chain_items(bufs).len() > 0,
{
    assert(bufs[0].unread().len() > 0);
}

/// The queue state shared by a journal's two ends.
pub struct BufferQueue<T> {
    buffers: Vec<Buffer<T>>,
    capacity: usize,
    hup: bool,
}

impl<T: Copy> View for BufferQueue<T> {
    type V = JournalView<T>;

    closed spec fn view(&self) -> JournalView<T> {
        (chain_items(self.buffers@), self.hup)
    }
}

impl<T: Copy> BufferQueue<T> {
    pub closed spec fn wf(&self) -> bool {
        &&& chain_wf(self.buffers@, self.capacity)
        &&& self.capacity >= 1
        &&& self.hup ==> self.buffers@.last().completed()
        &&& !self.hup ==> self.buffers@.last().spec_tail_max() == self.capacity
    }

    /// The capacity of each buffer.
    pub closed spec fn buffer_capacity(&self) -> usize {
        self.capacity
    }

    /// How many buffers the chain holds.
    pub closed spec fn num_buffers(&self) -> int {
        self.buffers@.len() as int
    }

    /// How many items the newest buffer holds, read or not.
    pub closed spec fn tail_fill(&self) -> int {
        self.buffers@.last().spec_tail()
    }

    /// A queue with one empty buffer of capacity `capacity` rounded up to a power
    /// of two.
    pub fn new(capacity: usize) -> (r: BufferQueue<T>)
        requires
            capacity <= usize::MAX / 2 + 1,
        ensures
            r.wf(),
            r@ == (Seq::<T>::empty(), false),
            is_pow2(r.buffer_capacity() as int),
            r.buffer_capacity() >= capacity,
            r.buffer_capacity() == 1 || r.buffer_capacity() / 2 < capacity,
            r.num_buffers() == 1,
            r.tail_fill() == 0,
    {
        let rounded = round_up_pow2(capacity);
        let first = Buffer::new(rounded);
        let mut buffers: Vec<Buffer<T>> = Vec::new();
        buffers.push(first);
        let r = BufferQueue { buffers, capacity: rounded, hup: false };
        proof {
            assert(r.buffers@.drop_first() == Seq::<Buffer<T>>::empty());
            assert(chain_items(r.buffers@.drop_first()) == Seq::<T>::empty());
            assert(r.buffers@[0].unread() == Seq::<T>::empty());
            assert(chain_items(r.buffers@) == Seq::<T>::empty() + Seq::<T>::empty());
        }
        r
    }

    /// Appends `item`: into the newest buffer while it has room, else into a new
    /// buffer linked after it.
    pub fn send(&mut self, item: T)
        requires
            old(self).wf(),
        ensures
            final(self).wf(),
            final(self)@ == send_step(old(self)@, item),
            final(self).buffer_capacity() == old(self).buffer_capacity(),
            old(self).tail_fill() < old(self).buffer_capacity() && !old(self)@.1 ==> (
            final(self).num_buffers() == old(self).num_buffers() && final(self).tail_fill()
                == old(self).tail_fill() + 1),
            old(self).tail_fill() == old(self).buffer_capacity() ==> (final(self).num_buffers()
                == old(self).num_buffers() + 1 && final(self).tail_fill() == 1),
    {
        let ghost old_bufs = self.buffers@;
        let mut last = self.buffers.pop().unwrap();
        let ghost front = self.buffers@;
        proof {
            assert(old_bufs == front.push(last));
            assert(old_bufs[old_bufs.len() - 1].wf(self.capacity));
            lemma_chain_items_push(front, last);
        }
        if last.data.len() < last.tail_max {
            let ghost lu = last.unread();
            last.data.push(item);
            proof {
                assert(last.unread() =~= lu.push(item));
            }
            self.buffers.push(last);
            proof {
                lemma_chain_items_push(front, last);
                assert(chain_items(front) + lu.push(item) == (chain_items(front) + lu).push(item));
                assert forall|i: int| 0 <= i < self.buffers@.len() - 1 implies #[trigger] self.buffers@[i].completed() by {
                    assert(self.buffers@[i] == old_bufs[i]);
                }
                assert forall|i: int| 0 <= i < self.buffers@.len() implies #[trigger] self.buffers@[i].wf(self.capacity) by {
                    if i < self.buffers@.len() - 1 {
                        assert(self.buffers@[i] == old_bufs[i]);
                    }
                }
                assert forall|i: int| 1 <= i < self.buffers@.len() implies (#[trigger] self.buffers@[i]).spec_head() == 0 && self.buffers@[i].spec_tail() >= 1 by {
                    if i < self.buffers@.len() - 1 {
                        assert(self.buffers@[i] == old_bufs[i]);
                    }
                }
            }
        } else {
            self.buffers.push(last);
            let mut next = Buffer::new(self.capacity);
            next.data.push(item);
            if self.hup {
                next.tail_max = 1;
            }
            proof {
                assert(next.unread() == seq![item]);
            }
            let ghost mid = self.buffers@;
            self.buffers.push(next);
            proof {
                assert(mid == old_bufs);
                lemma_chain_items_push(mid, next);
                assert(seq![item] == Seq::<T>::empty().push(item));
                assert(chain_items(mid) + seq![item] == chain_items(mid).push(item));
                assert forall|i: int| 0 <= i < self.buffers@.len() - 1 implies #[trigger] self.buffers@[i].completed() by {
                    assert(self.buffers@[i] == old_bufs[i]);
                }
                assert forall|i: int| 0 <= i < self.buffers@.len() implies #[trigger] self.buffers@[i].wf(self.capacity) by {
                    if i < self.buffers@.len() - 1 {
                        assert(self.buffers@[i] == old_bufs[i]);
                    }
                }
                assert forall|i: int| 1 <= i < self.buffers@.len() implies (#[trigger] self.buffers@[i]).spec_head() == 0 && self.buffers@[i].spec_tail() >= 1 by {
                    if i < self.buffers@.len() - 1 {
                        assert(self.buffers@[i] == old_bufs[i]);
                    }
                }
            }
        }
    }
}


proof fn lemma_chain_items_cons<T>(s: Seq<Buffer<T>>, b: Buffer<T>)
    ensures
        chain_items(s.insert(0, b)) == b.unread() + chain_items(s),
{
    assert(s.insert(0, b).drop_first() =~= s);
    assert(s.insert(0, b)[0] == b);
}

impl<T: Copy> BufferQueue<T> {
    /// Takes the oldest unread item. A drained, completed head buffer is freed on
    /// the way and reading goes on in its successor.
    pub fn try_recv(&mut self) -> (r: Result<T, RecvResult>)
        requires
            old(self).wf(),
        ensures
            final(self).wf(),
            (r, final(self)@) == recv_step(old(self)@),
            final(self).buffer_capacity() == old(self).buffer_capacity(),
    {
        let ghost old_bufs = self.buffers@;
        let mut head = self.buffers.remove(0);
        let ghost rest = self.buffers@;
        proof {
            assert(rest =~= old_bufs.drop_first());
            assert(old_bufs[0].wf(self.capacity));
            assert(chain_items(old_bufs) == head.unread() + chain_items(rest));
        }
        if head.head < head.data.len() {
            let v = head.data[head.head];
            let ghost hu = head.unread();
            head.head = head.head + 1;
            proof {
                assert(head.unread() =~= hu.drop_first());
                assert(hu[0] == v);
            }
            self.buffers.insert(0, head);
            proof {
                lemma_chain_items_cons(rest, head);
                assert((hu + chain_items(rest))[0] == v);
                assert((hu + chain_items(rest)).drop_first() =~= hu.drop_first() + chain_items(rest));
                assert(self.buffers@ =~= rest.insert(0, head));
                assert forall|i: int| 0 <= i < self.buffers@.len() implies #[trigger] self.buffers@[i].wf(self.capacity) by {
                    if i > 0 {
                        assert(self.buffers@[i] == old_bufs[i]);
                    }
                }
                assert forall|i: int| 0 <= i < self.buffers@.len() - 1 implies #[trigger] self.buffers@[i].completed() by {
                    assert(old_bufs[i].completed());
                    if i > 0 {
                        assert(self.buffers@[i] == old_bufs[i]);
                    }
                }
                assert forall|i: int| 1 <= i < self.buffers@.len() implies (#[trigger] self.buffers@[i]).spec_head() == 0 && self.buffers@[i].spec_tail() >= 1 by {
                    assert(self.buffers@[i] == old_bufs[i]);
                }
                assert(self.buffers@.last() == old_bufs.last() || self.buffers@.len() == 1);
            }
            Ok(v)
        } else if head.data.len() == head.tail_max && self.buffers.len() > 0 {
            let mut next = self.buffers.remove(0);
            let ghost rest2 = self.buffers@;
            proof {
                assert(head.unread() =~= Seq::<T>::empty());
                assert(rest2 =~= rest.drop_first());
                assert(rest[0] == old_bufs[1]);
                assert(old_bufs[1].wf(self.capacity));
                assert(old_bufs[1].spec_head() == 0 && old_bufs[1].spec_tail() >= 1);
                assert(chain_items(rest) == next.unread() + chain_items(rest2));
            }
            let v = next.data[next.head];
            let ghost nu = next.unread();
            next.head = next.head + 1;
            proof {
                assert(next.unread() =~= nu.drop_first());
                assert(nu[0] == v);
            }
            self.buffers.insert(0, next);
            proof {
                lemma_chain_items_cons(rest2, next);
                assert(chain_items(old_bufs) =~= Seq::<T>::empty() + (nu + chain_items(rest2)));
                assert((nu + chain_items(rest2))[0] == v);
                assert((nu + chain_items(rest2)).drop_first() =~= nu.drop_first() + chain_items(rest2));
                assert(self.buffers@ =~= rest2.insert(0, next));
                assert forall|i: int| 0 <= i < self.buffers@.len() implies #[trigger] self.buffers@[i].wf(self.capacity) by {
                    if i > 0 {
                        assert(self.buffers@[i] == old_bufs[i + 1]);
                    }
                }
                assert forall|i: int| 0 <= i < self.buffers@.len() - 1 implies #[trigger] self.buffers@[i].completed() by {
                    assert(old_bufs[i + 1].completed());
                    if i > 0 {
                        assert(self.buffers@[i] == old_bufs[i + 1]);
                    }
                }
                assert forall|i: int| 1 <= i < self.buffers@.len() implies (#[trigger] self.buffers@[i]).spec_head() == 0 && self.buffers@[i].spec_tail() >= 1 by {
                    assert(self.buffers@[i] == old_bufs[i + 1]);
                }
                assert(self.buffers@.len() == 1 || self.buffers@.last() == old_bufs.last());
                if self.buffers@.len() == 1 {
                    assert(old_bufs.len() == 2);
                    assert(old_bufs.last() == old_bufs[1]);
                }
            }
            Ok(v)
        } else {
            proof {
                assert(head.unread() =~= Seq::<T>::empty());
                if rest.len() > 0 {
                    assert(old_bufs[0].completed());
                }
                assert(rest.len() == 0);
                assert(chain_items(rest) == Seq::<T>::empty());
                assert(chain_items(old_bufs) =~= Seq::<T>::empty());
            }
            self.buffers.insert(0, head);
            proof {
                assert(self.buffers@ =~= old_bufs);
            }
            if self.hup {
                Err(RecvResult::Disconnected)
            } else {
                Err(RecvResult::Empty)
            }
        }
    }

    /// Records that the sender has gone: its newest buffer is completed where it
    /// stands.
    pub fn hang_up(&mut self)
        requires
            old(self).wf(),
        ensures
            final(self).wf(),
            final(self)@ == hang_up_step(old(self)@),
            final(self).buffer_capacity() == old(self).buffer_capacity(),
    {
        let ghost old_bufs = self.buffers@;
        let mut last = self.buffers.pop().unwrap();
        let ghost front = self.buffers@;
        let ghost lu = last.unread();
        proof {
            assert(old_bufs == front.push(last));
            assert(old_bufs[old_bufs.len() - 1].wf(self.capacity));
            lemma_chain_items_push(front, last);
        }
        last.tail_max = last.data.len();
        proof {
            assert(last.unread() == lu);
        }
        self.buffers.push(last);
        self.hup = true;
        proof {
            lemma_chain_items_push(front, last);
            assert forall|i: int| 0 <= i < self.buffers@.len() implies #[trigger] self.buffers@[i].wf(self.capacity) by {
                if i < self.buffers@.len() - 1 {
                    assert(self.buffers@[i] == old_bufs[i]);
                }
            }
            assert forall|i: int| 0 <= i < self.buffers@.len() - 1 implies #[trigger] self.buffers@[i].completed() by {
                assert(self.buffers@[i] == old_bufs[i]);
            }
            assert forall|i: int| 1 <= i < self.buffers@.len() implies (#[trigger] self.buffers@[i]).spec_head() == 0 && self.buffers@[i].spec_tail() >= 1 by {
                assert(old_bufs[i].spec_head() == 0);
                if i < self.buffers@.len() - 1 {
                    assert(self.buffers@[i] == old_bufs[i]);
                }
            }
        }
    }

    /// True once the sender has hung up and every item has been read.
    pub fn is_disconnected(&self) -> (r: bool)
        requires
            self.wf(),
        ensures
            r == spec_disconnected(self@),
    {
        proof {
            assert(self.buffers@[0].wf(self.capacity));
            assert(chain_items(self.buffers@) == self.buffers@[0].unread() + chain_items(self.buffers@.drop_first()));
            if self.buffers@.len() > 1 {
                lemma_chain_items_nonempty(self.buffers@, self.capacity);
            } else {
                assert(self.buffers@.drop_first() =~= Seq::<Buffer<T>>::empty());
            }
        }
        if self.hup && self.buffers.len() == 1 {
            self.buffers[0].head == self.buffers[0].tail_max
        } else {
            false
        }
    }
}

/// What the lock shared by a journal's two ends keeps true of its queue.
pub struct QueueInv;

impl<T: Copy> RwLockPredicate<BufferQueue<T>> for QueueInv {
    open spec fn inv(self, v: BufferQueue<T>) -> bool {
        v.wf()
    }
}

/// The queue as the two ends share it.
pub type SharedQueue<T> = Arc<RwLock<BufferQueue<T>, QueueInv>>;

/// Relies on Arc::strong_count: how many handles share the queue at the moment of
/// the call. The other end may go away at any time, so nothing is stated of it.
#[verifier::external_body]
fn handle_count<T: Copy>(queue: &SharedQueue<T>) -> usize {
    Arc::strong_count(queue)
}

/// The reading end of a journal.
pub struct Receiver<T: Copy> {
    buffer: SharedQueue<T>,
}

/// The writing end of a journal.
pub struct Sender<T: Copy> {
    buffer: SharedQueue<T>,
}

/// Reads a receiver until it has nothing to give at the moment.
pub struct EmptyIter<'a, T: Copy> {
    receiver: &'a Receiver<T>,
}

/// A connected sender and receiver whose buffers hold `capacity` items each,
/// rounded up to a power of two.
pub fn make_journal<T: Copy>(capacity: usize) -> (r: (Sender<T>, Receiver<T>))
    requires
        capacity <= usize::MAX / 2 + 1,
{
    let queue = BufferQueue::new(capacity);
    let buffer = Arc::new(RwLock::new(queue, Ghost(QueueInv)));
    let other = buffer.clone();
    (Sender { buffer: other }, Receiver { buffer })
}

impl<T: Copy> Sender<T> {
    /// Appends `item` to the journal; never waits for the reader.
    pub fn send(&self, item: T) {
        let (mut queue, handle) = self.buffer.acquire_write();
        queue.send(item);
        handle.release_write(queue);
    }
}

impl<T: Copy> Receiver<T> {
    /// Takes the oldest unread item, if there is one. Once the sender is gone and
    /// all it sent has been read, the answer is `Disconnected`.
    pub fn try_recv(&self) -> (r: Result<T, RecvResult>) {
        let (mut queue, handle) = self.buffer.acquire_write();
        if !queue.hup && handle_count(&self.buffer) == 1 {
            queue.hang_up();
        }
        let r = queue.try_recv();
        handle.release_write(queue);
        r
    }

    /// A reader of the items that are there now.
    pub fn iter_until_empty(&mut self) -> EmptyIter<'_, T> {
        EmptyIter { receiver: self }
    }

    /// True once the sender has hung up and every item has been read.
    pub fn is_disconnected(&self) -> bool {
        let (mut queue, handle) = self.buffer.acquire_write();
        if !queue.hup && handle_count(&self.buffer) == 1 {
            queue.hang_up();
        }
        let r = queue.is_disconnected();
        handle.release_write(queue);
        r
    }
}

impl<'a, T: Copy> EmptyIter<'a, T> {
    /// The next item, or `None` when the journal is empty or disconnected.
    pub fn next(&mut self) -> (r: Option<T>) {
        match self.receiver.try_recv() {
            Ok(item) => Some(item),
            Err(_) => None,
        }
    }
}

} // verus!
