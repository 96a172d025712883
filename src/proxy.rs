//! The consumer side: subscribers, subscriptions and their receive semantics
//! on top of the slot engine.
use vstd::prelude::*;

use crate::config::{may_read, may_read_spec, QosClass};
use crate::container::SampleContainer;
use crate::error::Error;
use crate::slot::{acquire_post, recover_post, BufferModel, EventBuffer, SampleRef, SlotState};

verus! {

/// The last `n` elements of `s` (all of them when there are fewer).
pub open spec fn tail<A>(s: Seq<A>, n: int) -> Seq<A> {
    if s.len() <= n {
        s
    } else {
        s.subrange(s.len() - n, s.len() as int)
    }
}

/// What remains of a container before new samples are added: the oldest
/// samples are dropped until fewer than `max` are left.
pub open spec fn pre_trim<A>(c: Seq<A>, max: int) -> Seq<A> {
    if max <= 0 {
        Seq::empty()
    } else {
        tail(c, max - 1)
    }
}

/// `f` follows from `m` by acquisitions and releases of reader `r`: slot
/// sequences stay, a state changes only from ready to free, other readers
/// and the producer side are untouched, and the reader's cursor only grows.
pub open spec fn evolves<T>(m: BufferModel<T>, f: BufferModel<T>, r: int) -> bool {
    &&& f.slots.len() == m.slots.len()
    &&& forall|t: int|
        0 <= t < m.slots.len() ==> (#[trigger] f.slots[t]).sequence == m.slots[t].sequence && (
        f.slots[t].state == m.slots[t].state || (m.slots[t].state == SlotState::Ready
            && f.slots[t].state == SlotState::Free))
    &&& f.payloads == m.payloads
    &&& f.cursor == m.cursor
    &&& f.last_sequence == m.last_sequence
    &&& f.lossy == m.lossy
    &&& f.offered == m.offered
    &&& f.qos == m.qos
    &&& f.readers.len() == m.readers.len()
    &&& forall|i: int| 0 <= i < m.readers.len() && i != r ==> #[trigger] f.readers[i] == m.readers[i]
    &&& f.readers[r].active == m.readers[r].active
    &&& f.readers[r].last_seen >= m.readers[r].last_seen
    &&& forall|t: int|
        0 <= t < m.slots.len() && #[trigger] f.slots[t].state != m.slots[t].state ==> m.slots[t].sequence
            <= m.readers[r].last_seen
}

proof fn lemma_tail_push<A>(a: Seq<A>, x: A, n: int)
    requires
        n > 0,
    ensures
        tail(a.push(x), n) == (if tail(a, n).len() >= n {
            tail(a, n).drop_first()
        } else {
            tail(a, n)
        }).push(x),
{
    let l = a.len() as int;
    if l + 1 <= n {
        assert(tail(a, n) == a);
    } else if l <= n {
        assert(tail(a, n) == a);
        assert(tail(a.push(x), n) =~= a.drop_first().push(x));
    } else {
        assert(tail(a.push(x), n) =~= a.subrange(l - n, l).drop_first().push(x));
    }
}

proof fn lemma_tail_suffix<A>(a: Seq<A>, b: Seq<A>, n: int)
    requires
        b.len() <= n,
    ensures
        tail(a + b, n).len() >= b.len(),
        tail(a + b, n).subrange(tail(a + b, n).len() - b.len(), tail(a + b, n).len() as int)
            =~= b,
{
    let t = tail(a + b, n);
    assert forall|i: int| 0 <= i < b.len() implies t.subrange(
        t.len() - b.len(),
        t.len() as int,
    )[i] == b[i] by {
        assert((a + b)[a.len() + i] == b[i]);
    }
}

/// The samples `news` that reader `r` acquired since its cursor stood at
/// `last_seen`: held, in increasing sequence order, the newest at the
/// cursor, and no ready sample in between left out.
pub open spec fn news_ok<T>(b: BufferModel<T>, r: int, news: Seq<SampleRef>, last_seen: int) -> bool {
    &&& forall|j: int|
        0 <= j < news.len() ==> {
            &&& (#[trigger] news[j]).reader == r
            &&& b.valid_slot(news[j].slot as int)
            &&& b.holds(r, news[j].slot as int) == 1
            &&& b.slots[news[j].slot as int].sequence == news[j].sequence
        }
    &&& forall|j: int, l: int|
        0 <= j < l < news.len() ==> (#[trigger] news[j]).sequence < (#[trigger] news[l]).sequence
    &&& news.len() > 0 ==> news[0].sequence > last_seen && b.readers[r].last_seen == news[news.len()
        - 1].sequence
    &&& news.len() == 0 ==> b.readers[r].last_seen == last_seen
    &&& forall|s: int|
        b.valid_slot(s) && #[trigger] b.slots[s].state == SlotState::Ready && last_seen
            < b.slots[s].sequence <= b.readers[r].last_seen ==> exists|j: int|
            0 <= j < news.len() && (#[trigger] news[j]).slot == s
}

/// One more acquisition keeps `news_ok`.
proof fn lemma_news_acquire<T>(
    before: BufferModel<T>,
    after: BufferModel<T>,
    r: int,
    news: Seq<SampleRef>,
    last_seen: int,
    x: SampleRef,
)
    requires
        before.inv(),
        after.inv(),
        before.valid_reader(r),
        news_ok(before, r, news, last_seen),
        before.readers[r].last_seen >= last_seen,
        before.readers[r].active,
        after.readers[r].active,
        acquire_post(before, after, r, x),
    ensures
        news_ok(after, r, news.push(x), last_seen),
        evolves(before, after, r),
{
    let n2 = news.push(x);
    let e = before.entry(crate::slot::TxOp::Acquire, x.slot as int);
    assert forall|j: int| 0 <= j < n2.len() implies {
        &&& (#[trigger] n2[j]).reader == r
        &&& after.valid_slot(n2[j].slot as int)
        &&& after.holds(r, n2[j].slot as int) == 1
        &&& after.slots[n2[j].slot as int].sequence == n2[j].sequence
    } by {
        crate::slot::lemma_net_push(before.readers[r].log@, e, n2[j].slot as int);
        assert(after.holds(r, n2[j].slot as int) == before.holds(r, n2[j].slot as int)
            + crate::slot::entry_delta(e, n2[j].slot as int));
        if j < news.len() {
            assert(n2[j] == news[j]);
            assert(before.holds(r, news[j].slot as int) == 1);
            assert(before.slots[news[j].slot as int].sequence <= before.readers[r].last_seen);
            assert(news[j].slot != x.slot);
        } else {
            assert(n2[j] == x);
            assert(before.valid_slot(x.slot as int));
            assert(before.holds(r, x.slot as int) != 1);
        }
    }
    assert forall|j: int, l: int| 0 <= j < l < n2.len() implies (#[trigger] n2[j]).sequence < (
    #[trigger] n2[l]).sequence by {
        if l == news.len() {
            assert(n2[j] == news[j]);
            assert(before.holds(r, news[j].slot as int) == 1);
            assert(news[j].sequence <= before.readers[r].last_seen);
        } else {
            assert(n2[j] == news[j] && n2[l] == news[l]);
        }
    }
    assert forall|s: int|
        after.valid_slot(s) && #[trigger] after.slots[s].state == SlotState::Ready && last_seen
            < after.slots[s].sequence <= after.readers[r].last_seen implies exists|j: int|
        0 <= j < n2.len() && (#[trigger] n2[j]).slot == s by {
        assert(before.valid_slot(s));
        if after.slots[s].sequence <= before.readers[r].last_seen {
            let j = choose|j: int| 0 <= j < news.len() && (#[trigger] news[j]).slot == s;
            assert(n2[j] == news[j]);
        } else {
            assert(before.pending(r, s));
            assert(n2[news.len() as int] == x);
        }
    }
    if news.len() > 0 {
        assert(n2[0] == news[0]);
    }
}

/// Releasing a sample seen before `last_seen` keeps `news_ok`.
proof fn lemma_news_release<T>(
    before: BufferModel<T>,
    after: BufferModel<T>,
    r: int,
    news: Seq<SampleRef>,
    last_seen: int,
    y: SampleRef,
    ok: bool,
)
    requires
        news_ok(before, r, news, last_seen),
        y.sequence <= last_seen,
        y.reader == r,
        !ok ==> after == before,
        ok ==> {
            &&& before.valid_slot(y.slot as int)
            &&& before.slots[y.slot as int].sequence == y.sequence
            &&& after.slots.len() == before.slots.len()
            &&& forall|t: int|
                0 <= t < before.capacity() && t != y.slot ==> #[trigger] after.slots[t]
                    == before.slots[t]
            &&& after.slots[y.slot as int].sequence == before.slots[y.slot as int].sequence
            &&& after.readers[r].last_seen == before.readers[r].last_seen
            &&& forall|t: int|
                0 <= t < before.capacity() && t != y.slot ==> #[trigger] after.holds(r, t)
                    == before.holds(r, t)
        },
    ensures
        news_ok(after, r, news, last_seen),
{
    if ok {
        assert forall|j: int| 0 <= j < news.len() implies {
            &&& (#[trigger] news[j]).reader == r
            &&& after.valid_slot(news[j].slot as int)
            &&& after.holds(r, news[j].slot as int) == 1
            &&& after.slots[news[j].slot as int].sequence == news[j].sequence
        } by {
            assert(news[j].slot != y.slot);
        }
        assert forall|s: int|
            after.valid_slot(s) && #[trigger] after.slots[s].state == SlotState::Ready && last_seen
                < after.slots[s].sequence <= after.readers[r].last_seen implies exists|j: int|
            0 <= j < news.len() && (#[trigger] news[j]).slot == s by {
            if s != y.slot {
                assert(after.slots[s] == before.slots[s]);
            }
        }
    }
}

/// `y` was a reference that reader `r` held in `m`.
pub open spec fn held_ref<T>(m: BufferModel<T>, r: int, y: SampleRef) -> bool {
    &&& m.valid_slot(y.slot as int)
    &&& m.holds(r, y.slot as int) == 1
    &&& m.slots[y.slot as int].sequence == y.sequence
}

/// Some sample of `dropped` is a reference on slot `t` that reader `r`
/// held in `m`.
pub open spec fn released_in<T>(m: BufferModel<T>, r: int, dropped: Seq<SampleRef>, t: int) -> bool {
    exists|i: int| 0 <= i < dropped.len() && (#[trigger] dropped[i]).slot == t && held_ref(m, r, dropped[i])
}

/// From `m` to `b`, reader `r` gave back what `dropped` held and took
/// `news`: each slot's count moved with the reader's hold on it, and a slot
/// no new sample is on is held as before unless a dropped sample released it.
pub open spec fn drops_ok<T>(
    m: BufferModel<T>,
    b: BufferModel<T>,
    r: int,
    dropped: Seq<SampleRef>,
    news: Seq<SampleRef>,
) -> bool {
    &&& forall|t: int|
        m.valid_slot(t) ==> #[trigger] b.slots[t].ref_count - b.holds(r, t) == m.slots[t].ref_count
            - m.holds(r, t)
    &&& forall|t: int|
        m.valid_slot(t) && (forall|j: int| 0 <= j < news.len() ==> news[j].slot != t)
            ==> #[trigger] b.holds(r, t) == if released_in(m, r, dropped, t) {
            0
        } else {
            m.holds(r, t)
        }
}

/// An acquisition keeps `drops_ok`, with the new sample among the news.
proof fn lemma_drops_acquire<T>(
    m: BufferModel<T>,
    before: BufferModel<T>,
    after: BufferModel<T>,
    r: int,
    dropped: Seq<SampleRef>,
    news: Seq<SampleRef>,
    x: SampleRef,
)
    requires
        drops_ok(m, before, r, dropped, news),
        before.slots.len() == m.slots.len(),
        acquire_post(before, after, r, x),
    ensures
        drops_ok(m, after, r, dropped, news.push(x)),
{
    let e = before.entry(crate::slot::TxOp::Acquire, x.slot as int);
    assert forall|t: int| m.valid_slot(t) implies #[trigger] after.slots[t].ref_count - after.holds(r, t)
        == m.slots[t].ref_count - m.holds(r, t) by {
        crate::slot::lemma_net_push(before.readers[r].log@, e, t);
        assert(before.slots[t].ref_count - before.holds(r, t) == m.slots[t].ref_count - m.holds(r, t));
    }
    let n2 = news.push(x);
    assert forall|t: int|
        m.valid_slot(t) && (forall|j: int| 0 <= j < n2.len() ==> n2[j].slot != t) implies #[trigger] after.holds(r, t)
        == if released_in(m, r, dropped, t) {
        0
    } else {
        m.holds(r, t)
    } by {
        crate::slot::lemma_net_push(before.readers[r].log@, e, t);
        assert(n2[news.len() as int] == x);
        assert forall|j: int| 0 <= j < news.len() implies news[j].slot != t by {
            assert(n2[j] == news[j]);
        }
        assert(before.holds(r, t) == if released_in(m, r, dropped, t) {
            0
        } else {
            m.holds(r, t)
        });
    }
}

/// A release attempt on a sample `y` seen by reader `r` keeps `drops_ok`,
/// with `y` among the dropped samples.
proof fn lemma_drops_release<T>(
    m: BufferModel<T>,
    before: BufferModel<T>,
    after: BufferModel<T>,
    r: int,
    dropped: Seq<SampleRef>,
    news: Seq<SampleRef>,
    last_seen: int,
    y: SampleRef,
    ok: bool,
)
    requires
        drops_ok(m, before, r, dropped, news),
        news_ok(before, r, news, last_seen),
        evolves(m, before, r),
        y.reader == r,
        y.sequence <= last_seen,
        !ok ==> after == before && !held_ref(before, r, y),
        ok ==> {
            &&& held_ref(before, r, y)
            &&& after.slots.len() == before.slots.len()
            &&& after.slots[y.slot as int].ref_count == before.slots[y.slot as int].ref_count - 1
            &&& after.holds(r, y.slot as int) == 0
            &&& forall|t: int|
                0 <= t < before.capacity() && t != y.slot ==> #[trigger] after.slots[t]
                    == before.slots[t]
            &&& forall|t: int|
                0 <= t < before.capacity() && t != y.slot ==> #[trigger] after.holds(r, t)
                    == before.holds(r, t)
        },
    ensures
        drops_ok(m, after, r, dropped.push(y), news),
{
    let d2 = dropped.push(y);
    assert forall|t: int| #[trigger] released_in(m, r, d2, t) == (released_in(m, r, dropped, t) || (
    y.slot == t && held_ref(m, r, y))) by {
        if released_in(m, r, dropped, t) {
            let i = choose|i: int| 0 <= i < dropped.len() && (#[trigger] dropped[i]).slot == t && held_ref(m, r, dropped[i]);
            assert(d2[i] == dropped[i]);
        }
        if y.slot == t && held_ref(m, r, y) {
            assert(d2[dropped.len() as int] == y);
        }
        if released_in(m, r, d2, t) {
            let i = choose|i: int| 0 <= i < d2.len() && (#[trigger] d2[i]).slot == t && held_ref(m, r, d2[i]);
            if i < dropped.len() {
                assert(d2[i] == dropped[i]);
            }
        }
    }
    assert forall|t: int| m.valid_slot(t) implies #[trigger] after.slots[t].ref_count - after.holds(r, t)
        == m.slots[t].ref_count - m.holds(r, t) by {
        assert(before.slots[t].ref_count - before.holds(r, t) == m.slots[t].ref_count - m.holds(r, t));
    }
    assert forall|t: int|
        m.valid_slot(t) && (forall|j: int| 0 <= j < news.len() ==> news[j].slot != t) implies #[trigger] after.holds(r, t)
        == if released_in(m, r, d2, t) {
        0
    } else {
        m.holds(r, t)
    } by {
        assert(released_in(m, r, d2, t) == (released_in(m, r, dropped, t) || (y.slot == t && held_ref(m, r, y))));
        assert(before.holds(r, t) == if released_in(m, r, dropped, t) {
            0
        } else {
            m.holds(r, t)
        });
        assert(before.slots[t].sequence == m.slots[t].sequence);
    }
}

/// State of an asynchronous receive after one poll.
#[derive(Debug, Clone, Copy, PartialEq, Eq, Structural)]
pub enum ReceiveProgress {
    /// Fewer samples than asked for so far: keep the receive handler armed.
    Pending(usize),
    /// Enough samples arrived: resolve with this many.
    Done(usize),
}

/// A consumer's handle on one event, not subscribed.
pub struct Subscriber {
    identifier: String,
}

/// A live subscription to an event: the transaction log it owns in the
/// event buffer and the largest number of samples it may hold.
pub struct Subscription {
    identifier: String,
    reader: usize,
    max_num_samples: usize,
}

impl Subscriber {
    /// A subscriber for the event named `identifier`.
    pub fn new(identifier: &str) -> (r: Subscriber)
        ensures
            r.identifier() == identifier@,
    {
        Subscriber { identifier: identifier.to_string() }
    }

    pub closed spec fn identifier(&self) -> Seq<char> {
        self.identifier@
    }

    /// The event name.
    pub fn event_id(&self) -> (r: &str)
        ensures
            r@ == self.identifier(),
    {
        self.identifier.as_str()
    }

    /// Opens a subscription at integrity class `class` that may hold up to
    /// `max_num_samples` samples. Fails with `SubscribeFailed` when the
    /// event is not offered, its producer's class may not be read at
    /// `class`, or every transaction log of the buffer is taken; nothing
    /// changes then.
    pub fn subscribe_at<T>(
        &self,
        buffer: &mut EventBuffer<T>,
        max_num_samples: usize,
        class: QosClass,
    ) -> (res: Result<Subscription, Error>)
        requires
            old(buffer).wf(),
        ensures
            final(buffer).wf(),
            res is Ok <==> old(buffer)@.offered && may_read_spec(old(buffer)@.qos, class) && exists|i: int|
                0 <= i < old(buffer)@.readers.len() && !(#[trigger] old(buffer)@.readers[i]).active,
            res matches Err(e) ==> e == Error::SubscribeFailed && final(buffer)@ == old(buffer)@,
            res matches Ok(sub) ==> {
                let (m, f, r) = (old(buffer)@, final(buffer)@, sub.reader());
                &&& sub.capacity() == max_num_samples
                &&& sub.identifier() == self.identifier()
                &&& m.valid_reader(r)
                &&& !m.readers[r].active
                &&& forall|j: int| 0 <= j < r ==> (#[trigger] m.readers[j]).active
                &&& m.same_but_reader(f, r)
                &&& m.counts_moved(f, 0, 0)
                &&& f.readers[r].active
                &&& f.readers[r].last_seen == 0
                &&& f.readers[r].held == 0
                &&& f.readers[r].log@.len() == 0
            },
    {
        if !buffer.is_offered() || !may_read(buffer.qos(), class) {
            return Err(Error::SubscribeFailed);
        }
        match buffer.attach() {
            Ok(reader) => Ok(
                Subscription {
                    identifier: self.identifier.clone(),
                    reader,
                    max_num_samples,
                },
            ),
            Err(e) => Err(e),
        }
    }

    /// Opens a subscription at the lowest integrity class, which may read
    /// every event, holding up to `max_num_samples` samples.
    /// Fails with `SubscribeFailed` when the event is not offered or every
    /// transaction log of the buffer is taken; nothing changes then.
    pub fn subscribe<T>(&self, buffer: &mut EventBuffer<T>, max_num_samples: usize) -> (res:
        Result<Subscription, Error>)
        requires
            old(buffer).wf(),
        ensures
            final(buffer).wf(),
            res is Ok <==> old(buffer)@.offered && exists|i: int|
                0 <= i < old(buffer)@.readers.len() && !(#[trigger] old(buffer)@.readers[i]).active,
            res matches Err(e) ==> e == Error::SubscribeFailed && final(buffer)@ == old(buffer)@,
            res matches Ok(sub) ==> {
                let (m, f, r) = (old(buffer)@, final(buffer)@, sub.reader());
                &&& sub.capacity() == max_num_samples
                &&& sub.identifier() == self.identifier()
                &&& m.valid_reader(r)
                &&& !m.readers[r].active
                &&& forall|j: int| 0 <= j < r ==> (#[trigger] m.readers[j]).active
                &&& m.same_but_reader(f, r)
                &&& m.counts_moved(f, 0, 0)
                &&& f.readers[r].active
                &&& f.readers[r].last_seen == 0
                &&& f.readers[r].held == 0
                &&& f.readers[r].log@.len() == 0
            },
    {
        self.subscribe_at(buffer, max_num_samples, QosClass::Qm)
    }
}

impl Subscription {
    pub closed spec fn reader(&self) -> int {
        self.reader as int
    }

    pub closed spec fn capacity(&self) -> int {
        self.max_num_samples as int
    }

    pub closed spec fn identifier(&self) -> Seq<char> {
        self.identifier@
    }

    /// Index of the transaction log this subscription owns.
    pub fn reader_index(&self) -> (r: usize)
        ensures
            r == self.reader(),
    {
        self.reader
    }

    /// The largest number of samples this subscription may hold.
    pub fn max_num_samples(&self) -> (r: usize)
        ensures
            r == self.capacity(),
    {
        self.max_num_samples
    }

    /// Ends the subscription: every reference it still holds is given back
    /// through the recovery of its log, and the log is freed for another
    /// subscriber. A buffer without that log is left alone. Returns the
    /// subscriber it was opened from.
    pub fn unsubscribe<T>(self, buffer: &mut EventBuffer<T>) -> (r: Subscriber)
        requires
            old(buffer).wf(),
        ensures
            final(buffer).wf(),
            r.identifier() == self.identifier(),
            old(buffer)@.valid_reader(self.reader()) ==> recover_post(
                old(buffer)@,
                final(buffer)@,
                self.reader(),
            ),
            !old(buffer)@.valid_reader(self.reader()) ==> final(buffer)@ == old(buffer)@,
    {
        if self.reader < buffer.max_subscribers() {
            buffer.recover(self.reader);
        }
        Subscriber { identifier: self.identifier }
    }

    /// `try_receive` accepts its arguments: the cap is within the
    /// subscription's capacity, the subscription's log is claimed, and the
    /// container holds only samples of this subscription that it has seen.
    pub open spec fn accepts<T>(&self, m: BufferModel<T>, c: Seq<SampleRef>, max_samples: int) -> bool {
        &&& max_samples <= self.capacity()
        &&& m.valid_reader(self.reader())
        &&& m.readers[self.reader()].active
        &&& forall|i: int|
            0 <= i < c.len() ==> (#[trigger] c[i]).reader == self.reader() && c[i].sequence
                <= m.readers[self.reader()].last_seen
    }

    /// What a successful `try_receive` returning `k` did, from buffer `m`
    /// and container `c` to buffer `f` and container `c2`.
    pub open spec fn receive_post<T>(
        &self,
        m: BufferModel<T>,
        f: BufferModel<T>,
        c: Seq<SampleRef>,
        c2: Seq<SampleRef>,
        max_samples: int,
        k: int,
    ) -> bool {
        let r = self.reader();
        let news = c2.subrange(c2.len() - k, c2.len() as int);
        let dropped = c.subrange(0, c.len() - (c2.len() - k));
        &&& 0 <= k <= max_samples
        &&& k <= c2.len() <= max_samples
        &&& c2 == tail(pre_trim(c, max_samples) + news, max_samples)
        &&& forall|i: int|
            0 <= i < k ==> {
                &&& (#[trigger] news[i]).reader == r
                &&& f.valid_slot(news[i].slot as int)
                &&& f.holds(r, news[i].slot as int) == 1
                &&& f.slots[news[i].slot as int].sequence == news[i].sequence
            }
        &&& forall|i: int, j: int|
            0 <= i < j < k ==> (#[trigger] news[i]).sequence < (#[trigger] news[j]).sequence
        &&& k > 0 ==> news[0].sequence > m.readers[r].last_seen && f.readers[r].last_seen
            == news[k - 1].sequence
        &&& k == 0 ==> f.readers[r].last_seen == m.readers[r].last_seen
        &&& k < max_samples ==> !f.any_pending(r)
        &&& forall|s: int|
            f.valid_slot(s) && #[trigger] f.slots[s].state == SlotState::Ready && m.readers[r].last_seen
                < f.slots[s].sequence <= f.readers[r].last_seen ==> exists|i: int|
                0 <= i < k && (#[trigger] news[i]).slot == s
        &&& evolves(m, f, r)
        &&& 0 <= c.len() - (c2.len() - k) <= c.len()
        &&& drops_ok(m, f, r, dropped, news)
    }

    /// Moves up to `max_samples` new samples into `scratch`, oldest first.
    /// The container is first trimmed from the front until it holds fewer
    /// than `max_samples`; then the next samples of the subscription are
    /// acquired in sequence order and pushed at the back, dropping the
    /// front when the container is full. Dropped samples are released.
    /// Returns the number of samples added; fails with `Fail`, changing
    /// nothing, when the arguments are not accepted.
    #[verifier::rlimit(80)]
    pub fn try_receive<T>(
        &self,
        buffer: &mut EventBuffer<T>,
        scratch: &mut SampleContainer<SampleRef>,
        max_samples: usize,
    ) -> (res: Result<usize, Error>)
        requires
            old(buffer).wf(),
        ensures
            final(buffer).wf(),
            res is Err <==> !self.accepts(old(buffer)@, old(scratch)@, max_samples as int),
            res matches Err(e) ==> e == Error::Fail && final(buffer)@ == old(buffer)@
                && final(scratch)@ == old(scratch)@,
            res matches Ok(k) ==> self.receive_post(
                old(buffer)@,
                final(buffer)@,
                old(scratch)@,
                final(scratch)@,
                max_samples as int,
                k as int,
            ),
    {
        let r = self.reader;
        if max_samples > self.max_num_samples || !buffer.is_attached(r) {
            return Err(Error::Fail);
        }
        let last_seen = match buffer.last_seen(r) {
            Some(v) => v,
            None => {
                return Err(Error::Fail);
            },
        };
        let ghost m = buffer@;
        let ghost c = scratch@;
        let mut i: usize = 0;
        while i < scratch.sample_count()
            invariant
                scratch@ == c,
                old(scratch)@ == c,
                buffer@ == m,
                old(buffer)@ == m,
                m.inv(),
                max_samples <= self.capacity(),
                m.valid_reader(r as int),
                m.readers[r as int].active,
                r == self.reader(),
                last_seen == m.readers[r as int].last_seen,
                i <= c.len(),
                forall|j: int| 0 <= j < i ==> (#[trigger] c[j]).reader == r && c[j].sequence <= last_seen,
            decreases c.len() - i,
        {
            match scratch.get(i) {
                Some(x) => {
                    if x.reader != r || x.sequence > last_seen {
                        assert(c[i as int] == *x);
                        return Err(Error::Fail);
                    }
                },
                None => {},
            }
            i = i + 1;
        }
        // Drop the oldest samples until fewer than `max_samples` are left.
        let ghost mut d: int = 0;
        let ghost mut dropped: Seq<SampleRef> = Seq::empty();
        assert(dropped =~= c.subrange(0, 0));
        while scratch.sample_count() >= max_samples && scratch.sample_count() > 0
            invariant
                buffer@.inv(),
                evolves(m, buffer@, r as int),
                m.inv(),
                m.valid_reader(r as int),
                m.readers[r as int].active,
                last_seen == m.readers[r as int].last_seen,
                buffer@.readers[r as int].last_seen == last_seen,
                0 <= d <= c.len(),
                scratch@ == c.subrange(d, c.len() as int),
                dropped == c.subrange(0, d),
                drops_ok(m, buffer@, r as int, dropped, Seq::empty()),
                d == 0 || c.len() - d >= max_samples - 1,
                forall|j: int| 0 <= j < c.len() ==> (#[trigger] c[j]).reader == r && c[j].sequence <= last_seen,
            decreases c.len() - d,
        {
            let ghost before = buffer@;
            match scratch.pop_front() {
                Some(y) => {
                    let ok = buffer.release(y);
                    proof {
                        assert(y == c[d]);
                        lemma_drops_release(
                            m,
                            before,
                            buffer@,
                            r as int,
                            dropped,
                            Seq::empty(),
                            last_seen as int,
                            y,
                            ok is Ok,
                        );
                        dropped = dropped.push(y);
                        assert(dropped =~= c.subrange(0, d + 1));
                    }
                },
                None => {},
            }
            proof {
                d = d + 1;
                assert(c.subrange(d - 1, c.len() as int).drop_first() =~= c.subrange(d, c.len() as int));
            }
        }
        let ghost kept = scratch@;
        assert(kept =~= pre_trim(c, max_samples as int));
        assert(scratch@ =~= c.subrange(dropped.len() as int, c.len() as int) + Seq::<SampleRef>::empty());
        // Acquire the next samples in sequence order, dropping the oldest
        // when the container is full.
        let ghost mut news: Seq<SampleRef> = Seq::empty();
        let mut added: usize = 0;
        let mut more = true;
        while more && added < max_samples
            invariant
                buffer@.inv(),
                evolves(m, buffer@, r as int),
                m.valid_reader(r as int),
                m.readers[r as int].active,
                last_seen == m.readers[r as int].last_seen,
                kept == pre_trim(c, max_samples as int),
                kept.len() < max_samples || kept.len() == 0,
                forall|j: int|
                    0 <= j < kept.len() ==> (#[trigger] kept[j]).reader == r && kept[j].sequence
                        <= last_seen,
                added == news.len(),
                added <= max_samples,
                scratch@ == tail(kept + news, max_samples as int),
                news_ok(buffer@, r as int, news, last_seen as int),
                !more ==> !buffer@.any_pending(r as int),
                m.inv(),
                0 <= dropped.len() <= c.len(),
                dropped == c.subrange(0, dropped.len() as int),
                scratch@ == c.subrange(dropped.len() as int, c.len() as int) + news,
                drops_ok(m, buffer@, r as int, dropped, news),
                forall|j: int|
                    0 <= j < c.len() ==> (#[trigger] c[j]).reader == r && c[j].sequence
                        <= last_seen,
            decreases max_samples - added + if more {
                1int
            } else {
                0int
            },
        {
            let ghost before = buffer@;
            match buffer.try_acquire_next(r) {
                None => {
                    more = false;
                },
                Some(x) => {
                    let ghost gx = x;
                    proof {
                        lemma_news_acquire(before, buffer@, r as int, news, last_seen as int, gx);
                        lemma_drops_acquire(m, before, buffer@, r as int, dropped, news, gx);
                    }
                    if scratch.sample_count() >= max_samples {
                        match scratch.pop_front() {
                            Some(y) => {
                                let ghost b2 = buffer@;
                                proof {
                                    lemma_tail_suffix(kept, news, max_samples as int);
                                    assert(y == kept[(kept.len() + added - max_samples) as int]);
                                }
                                let ok = buffer.release(y);
                                proof {
                                    let cs = c.subrange(dropped.len() as int, c.len() as int);
                                    assert((cs + news)[0] == cs[0]);
                                    assert(y == c[dropped.len() as int]);
                                    lemma_drops_release(
                                        m,
                                        b2,
                                        buffer@,
                                        r as int,
                                        dropped,
                                        news.push(gx),
                                        last_seen as int,
                                        y,
                                        ok is Ok,
                                    );
                                    dropped = dropped.push(y);
                                    assert(dropped =~= c.subrange(0, dropped.len() as int));
                                    lemma_news_release(
                                        b2,
                                        buffer@,
                                        r as int,
                                        news.push(gx),
                                        last_seen as int,
                                        y,
                                        ok is Ok,
                                    );
                                }
                            },
                            None => {},
                        }
                    }
                    scratch.push_back(x);
                    added = added + 1;
                    proof {
                        assert(scratch@ =~= c.subrange(dropped.len() as int, c.len() as int) + news.push(gx));
                        lemma_tail_push(kept + news, gx, max_samples as int);
                        assert(kept + news.push(gx) =~= (kept + news).push(gx));
                        news = news.push(gx);
                    }
                },
            }
        }
        proof {
            let c2 = scratch@;
            lemma_tail_suffix(kept, news, max_samples as int);
            assert(c2.subrange(c2.len() - added, c2.len() as int) =~= news);
            assert(c.subrange(0, c.len() - (c2.len() - added)) =~= dropped);
        }
        Ok(added)
    }

    /// One poll of an asynchronous receive that waits for `new_samples`
    /// samples: runs `try_receive` and adds what it brought to the
    /// `received` of earlier polls (saturating). The receive resolves once
    /// the total reaches `new_samples`; until then its handler stays armed.
    pub fn receive_step<T>(
        &self,
        buffer: &mut EventBuffer<T>,
        scratch: &mut SampleContainer<SampleRef>,
        new_samples: usize,
        max_samples: usize,
        received: usize,
    ) -> (res: Result<ReceiveProgress, Error>)
        requires
            old(buffer).wf(),
        ensures
            final(buffer).wf(),
            res is Err <==> !self.accepts(old(buffer)@, old(scratch)@, max_samples as int),
            res matches Err(e) ==> e == Error::Fail && final(buffer)@ == old(buffer)@
                && final(scratch)@ == old(scratch)@,
            res is Ok ==> exists|k: int|
                self.receive_post(old(buffer)@, final(buffer)@, old(scratch)@, final(scratch)@, max_samples as int, k)
                    && {
                    let total = if received + k > usize::MAX {
                        usize::MAX as int
                    } else {
                        received + k
                    };
                    res == Ok::<ReceiveProgress, Error>(
                        if total >= new_samples {
                            ReceiveProgress::Done(total as usize)
                        } else {
                            ReceiveProgress::Pending(total as usize)
                        },
                    )
                },
    {
        match self.try_receive(buffer, scratch, max_samples) {
            Ok(k) => {
                let total = if k > usize::MAX - received {
                    usize::MAX
                } else {
                    received + k
                };
                if total >= new_samples {
                    Ok(ReceiveProgress::Done(total))
                } else {
                    Ok(ReceiveProgress::Pending(total))
                }
            },
            Err(e) => Err(e),
        }
    }

    /// The next sample of the subscription, if one is ready; the async
    /// sample stream yields these and waits for the receive handler
    /// otherwise. Fails with `Fail` when the subscription's log is not
    /// claimed in `buffer`.
    pub fn get_new_sample<T>(&self, buffer: &mut EventBuffer<T>) -> (res: Result<Option<SampleRef>, Error>)
        requires
            old(buffer).wf(),
        ensures
            final(buffer).wf(),
            res is Err <==> !(old(buffer)@.valid_reader(self.reader()) && old(buffer)@.readers[self.reader()].active),
            res matches Err(e) ==> e == Error::Fail && final(buffer)@ == old(buffer)@,
            res matches Ok(None) ==> !old(buffer)@.any_pending(self.reader()) && final(buffer)@ == old(buffer)@,
            res matches Ok(Some(v)) ==> acquire_post(old(buffer)@, final(buffer)@, self.reader(), v),
    {
        if !buffer.is_attached(self.reader) {
            return Err(Error::Fail);
        }
        Ok(buffer.try_acquire_next(self.reader))
    }
}

} // verus!
