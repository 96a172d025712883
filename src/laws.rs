//! Properties of the engine that relate several operations, proved from
//! the operations' contracts and the buffer invariant.
use vstd::prelude::*;

use crate::container::SampleContainer;
use crate::proxy::{evolves, pre_trim, tail, Subscription};
use crate::slot::{
    acquire_post, net, recover_post, BufferModel, ReaderState, SampleRef, SlotState, TxOp,
};

verus! {

/// A sample a reader holds always refers to a ready slot with a payload:
/// no reference ever observes a free slot or one being written. Every
/// operation of the engine keeps the buffer invariant, so this holds in
/// every reachable state.
pub proof fn held_sample_is_ready<T>(b: BufferModel<T>, r: int, s: int)
    requires
        b.inv(),
        b.valid_reader(r),
        b.valid_slot(s),
        b.holds(r, s) == 1,
    ensures
        b.slots[s].state == SlotState::Ready,
        b.payloads[s] is Some,
{
}

/// The reference count of every slot is the number of live sample
/// references on it, plus one while the producer writes it.
pub proof fn ref_count_is_live_references<T>(b: BufferModel<T>, s: int)
    requires
        b.inv(),
        b.valid_slot(s),
    ensures
        b.slots[s].ref_count == crate::slot::held(b.readers, s) + if b.slots[s].state
            == SlotState::Writing {
            1int
        } else {
            0int
        },
{
}

/// Across any acquisitions, receptions and releases of one reader, the
/// samples it acquires come in strictly increasing sequence order.
pub proof fn acquisitions_strictly_increase<T>(
    b0: BufferModel<T>,
    b1: BufferModel<T>,
    b2: BufferModel<T>,
    b3: BufferModel<T>,
    r: int,
    x1: SampleRef,
    x2: SampleRef,
)
    requires
        acquire_post(b0, b1, r, x1),
        b1.readers[r].last_seen <= b2.readers[r].last_seen,
        acquire_post(b2, b3, r, x2),
    ensures
        x1.sequence < x2.sequence,
{
}

/// Across `try_receive` calls of one subscription, every sample a later
/// call adds has a larger sequence number than every sample an earlier
/// call added.
#[verifier::rlimit(50)]
pub proof fn receptions_strictly_increase<T>(
    sub: Subscription,
    m1: BufferModel<T>,
    f1: BufferModel<T>,
    c1: Seq<SampleRef>,
    d1: Seq<SampleRef>,
    max1: int,
    k1: int,
    m2: BufferModel<T>,
    f2: BufferModel<T>,
    c2: Seq<SampleRef>,
    d2: Seq<SampleRef>,
    max2: int,
    k2: int,
    i: int,
    j: int,
)
    requires
        sub.receive_post(m1, f1, c1, d1, max1, k1),
        f1.readers[sub.reader()].last_seen <= m2.readers[sub.reader()].last_seen,
        sub.receive_post(m2, f2, c2, d2, max2, k2),
        0 <= i < k1,
        0 <= j < k2,
    ensures
        d1.subrange(d1.len() - k1, d1.len() as int)[i].sequence < d2.subrange(
            d2.len() - k2,
            d2.len() as int,
        )[j].sequence,
{
    let n1 = d1.subrange(d1.len() - k1, d1.len() as int);
    let n2 = d2.subrange(d2.len() - k2, d2.len() as int);
    if i < k1 - 1 {
        assert(n1[i].sequence < n1[k1 - 1].sequence);
    }
    if j > 0 {
        assert(n2[0].sequence < n2[j].sequence);
    }
}

/// After `try_receive` succeeds the container holds at most as many samples
/// as the subscription's capacity.
pub proof fn receive_respects_capacity<T>(
    sub: Subscription,
    m: BufferModel<T>,
    f: BufferModel<T>,
    c: Seq<SampleRef>,
    c2: Seq<SampleRef>,
    max_samples: int,
    k: int,
)
    requires
        sub.accepts(m, c, max_samples),
        sub.receive_post(m, f, c, c2, max_samples, k),
    ensures
        c2.len() <= sub.capacity(),
{
}

/// Round trip: when a subscriber has seen everything, a value sent by the
/// producer is what its next `try_receive` with a cap of at least one
/// delivers, as exactly one new sample.
pub proof fn send_then_receive<T>(
    m0: BufferModel<T>,
    m1: BufferModel<T>,
    f: BufferModel<T>,
    sub: Subscription,
    s: int,
    value: T,
    c: Seq<SampleRef>,
    c2: Seq<SampleRef>,
    max_samples: int,
    k: int,
)
    requires
        m0.inv(),
        m0.valid_reader(sub.reader()),
        !m0.any_pending(sub.reader()),
        m0.allocation_choice(s),
        m0.last_sequence < u64::MAX,
        m1 == m0.claim(s).publish_post(s, value),
        max_samples >= 1,
        sub.receive_post(m1, f, c, c2, max_samples, k),
        f.inv(),
    ensures
        k == 1,
        c2.last().slot == s,
        f.payloads[s] == Some(value),
{
    let r = sub.reader();
    let news = c2.subrange(c2.len() - k, c2.len() as int);
    assert(m0.valid_slot(s));
    // The sent slot is the only ready slot newer than the reader's cursor.
    assert forall|t: int|
        m1.valid_slot(t) && m1.slots[t].state == SlotState::Ready && m1.slots[t].sequence
            > m0.readers[r].last_seen implies t == s by {
        if t != s {
            assert(m1.slots[t] == m0.slots[t]);
            assert(!m0.pending(r, t));
        }
    }
    assert(m0.readers[r].last_seen <= m0.last_sequence);
    assert(m1.slots[s].sequence > m0.readers[r].last_seen);
    if k == 0 {
        assert(f.slots[s].state == SlotState::Ready);
        assert(f.pending(r, s));
    }
    assert forall|i: int| 0 <= i < k implies #[trigger] news[i].slot == s by {
        let t = news[i].slot as int;
        assert(news[i].reader == r);
        assert(f.valid_slot(t));
        assert(f.holds(r, t) == 1);
        assert(m1.readers[r].last_seen == m0.readers[r].last_seen);
        assert(news[0].sequence > m1.readers[r].last_seen);
        assert(news[i].sequence > m1.readers[r].last_seen);
        assert(f.valid_reader(r));
        assert(f.slots[t].state == SlotState::Ready);
        assert(m1.slots[t].state == SlotState::Ready);
        assert(f.slots[t].sequence == m1.slots[t].sequence);
        assert(m1.valid_slot(t));
        assert(m1.slots[t].sequence > m0.readers[r].last_seen);
        if i > 0 {
            assert(news[0].sequence < news[i].sequence);
        }
    }
    if k >= 2 {
        assert(news[0].sequence < news[1].sequence);
        assert(news[0].slot == s && news[1].slot == s);
    }
    assert(c2.last() == news[0]);
}

/// A reader state as a new subscription gets it.
pub open spec fn fresh_reader(x: ReaderState) -> bool {
    &&& x.active
    &&& x.last_seen == 0
    &&& x.held == 0
    &&& x.log@.len() == 0
}

/// Unsubscribing and subscribing again yields a subscription
/// indistinguishable from a fresh one: same capacity request, a fresh
/// reader state, and nothing of the old subscription left in the counts.
pub proof fn resubscribe_is_fresh<T>(
    m0: BufferModel<T>,
    m1: BufferModel<T>,
    m2: BufferModel<T>,
    old_sub: Subscription,
    new_sub: Subscription,
    n: int,
)
    requires
        m0.inv(),
        m0.valid_reader(old_sub.reader()),
        recover_post(m0, m1, old_sub.reader()),
        new_sub.capacity() == n,
        m1.valid_reader(new_sub.reader()),
        m1.same_but_reader(m2, new_sub.reader()),
        m1.counts_moved(m2, 0, 0),
        fresh_reader(m2.readers[new_sub.reader()]),
    ensures
        new_sub.capacity() == n,
        fresh_reader(m2.readers[new_sub.reader()]),
        forall|s: int|
            0 <= s < m0.capacity() ==> (#[trigger] m2.slots[s]).ref_count == m0.slots[s].ref_count
                - m0.holds(old_sub.reader(), s),
{
    assert forall|s: int| 0 <= s < m0.capacity() implies (#[trigger] m2.slots[s]).ref_count
        == m0.slots[s].ref_count - m0.holds(old_sub.reader(), s) by {
        assert(m1.slots[s].ref_count == m0.slots[s].ref_count - m0.holds(old_sub.reader(), s));
    }
}

/// Crash recovery: if reader `r` starts with an empty log, acquires `k`
/// samples (with nothing else happening) and dies, recovery gives every
/// slot back the reference count it had before the first acquisition.
pub proof fn recovery_restores_counts<T>(
    states: Seq<BufferModel<T>>,
    taken: Seq<SampleRef>,
    fin: BufferModel<T>,
    r: int,
)
    requires
        states.len() == taken.len() + 1,
        states[0].valid_reader(r),
        states[0].readers[r].log@.len() == 0,
        forall|i: int|
            0 <= i < taken.len() ==> acquire_post(states[i], #[trigger] states[i + 1], r, taken[i]),
        recover_post(states[taken.len() as int], fin, r),
    ensures
        forall|s: int|
            0 <= s < states[0].capacity() ==> (#[trigger] fin.slots[s]).ref_count
                == states[0].slots[s].ref_count,
{
    let k = taken.len() as int;
    assert forall|s: int| 0 <= s < states[0].capacity() implies (#[trigger] fin.slots[s]).ref_count
        == states[0].slots[s].ref_count by {
        lemma_chain(states, taken, r, s, k);
    }
}

/// Along a chain of acquisitions by `r`, a slot's count minus what `r`
/// holds on it does not change.
proof fn lemma_chain<T>(states: Seq<BufferModel<T>>, taken: Seq<SampleRef>, r: int, s: int, i: int)
    requires
        states.len() == taken.len() + 1,
        0 <= i <= taken.len(),
        0 <= s < states[0].capacity(),
        states[0].valid_reader(r),
        forall|j: int|
            0 <= j < taken.len() ==> acquire_post(states[j], #[trigger] states[j + 1], r, taken[j]),
    ensures
        states[i].capacity() == states[0].capacity(),
        states[i].readers.len() == states[0].readers.len(),
        states[i].slots[s].ref_count - states[i].holds(r, s) == states[0].slots[s].ref_count
            - states[0].holds(r, s),
    decreases i,
{
    if i > 0 {
        lemma_chain(states, taken, r, s, i - 1);
        let j = i - 1;
        let (a, b) = (states[j], states[j + 1]);
        assert(acquire_post(a, b, r, taken[j]));
        crate::slot::lemma_net_push(a.readers[r].log@, a.entry(TxOp::Acquire, taken[i - 1].slot as int), s);
    }
}

/// Recovery is idempotent: a second pass changes no count.
pub proof fn recovery_is_idempotent<T>(m0: BufferModel<T>, m1: BufferModel<T>, m2: BufferModel<T>, r: int)
    requires
        recover_post(m0, m1, r),
        recover_post(m1, m2, r),
    ensures
        forall|s: int| 0 <= s < m1.capacity() ==> (#[trigger] m2.slots[s]).ref_count == m1.slots[s].ref_count,
{
    assert forall|s: int| 0 <= s < m1.capacity() implies (#[trigger] m2.slots[s]).ref_count
        == m1.slots[s].ref_count by {
        assert(m1.readers[r].log@ =~= Seq::empty());
    }
}

/// Crash recovery end to end: a subscriber that held the only reference on
/// the one ready sample dies; after one recovery pass a new subscriber's
/// `try_receive` gets that sample, and the slot's count is one again, the
/// stale reference gone.
pub proof fn recovered_sample_reaches_new_subscriber<T>(
    m0: BufferModel<T>,
    m1: BufferModel<T>,
    m2: BufferModel<T>,
    f: BufferModel<T>,
    dead: int,
    i: int,
    sub: Subscription,
    c: Seq<SampleRef>,
    c2: Seq<SampleRef>,
    n: int,
    k: int,
)
    requires
        m0.inv(),
        m0.valid_reader(dead),
        m0.valid_slot(i),
        m0.holds(dead, i) == 1,
        m0.slots[i].ref_count == 1,
        forall|t: int| m0.valid_slot(t) && t != i ==> #[trigger] m0.slots[t].state != SlotState::Ready,
        recover_post(m0, m1, dead),
        m1.valid_reader(sub.reader()),
        m1.same_but_reader(m2, sub.reader()),
        m1.counts_moved(m2, 0, 0),
        fresh_reader(m2.readers[sub.reader()]),
        n >= 1,
        sub.receive_post(m2, f, c, c2, n, k),
        f.inv(),
    ensures
        k >= 1,
        forall|j: int| 0 <= j < k ==> (#[trigger] c2.subrange(c2.len() - k, c2.len() as int)[j]).slot == i,
        f.slots[i].ref_count == 1,
{
    let r = sub.reader();
    let news = c2.subrange(c2.len() - k, c2.len() as int);
    assert(m0.slots[i].state == SlotState::Ready);
    assert(m0.slots[i].sequence >= 1);
    assert(m2.slots[i].state == SlotState::Ready && m2.slots[i].sequence == m0.slots[i].sequence);
    assert(m2.readers[r].log@.len() == 0);
    assert(m2.holds(r, i) == 0);
    assert(m2.slots[i].ref_count == 0);
    assert(f.slots[i].state == SlotState::Ready);
    if k == 0 {
        assert(f.pending(r, i));
    }
    assert forall|j: int| 0 <= j < k implies (#[trigger] news[j]).slot == i by {
        let t = news[j].slot as int;
        assert(f.valid_reader(r));
        assert(f.holds(r, t) == 1);
        assert(f.slots[t].state == SlotState::Ready);
        assert(m2.slots[t].state == SlotState::Ready);
        assert(m0.slots[t].state == SlotState::Ready);
    }
    assert(news[0].slot == i);
    assert(f.holds(r, i) == 1);
    assert(f.slots[i].ref_count - f.holds(r, i) == m2.slots[i].ref_count - m2.holds(r, i));
}

/// Every sample a receive adds carries a sequence number issued on its
/// buffer: between one and the buffer's last. A buffer laid out by an
/// offer starts from zero, so samples of an earlier offer never arrive.
pub proof fn received_sequences_are_of_this_buffer<T>(
    sub: Subscription,
    m: BufferModel<T>,
    f: BufferModel<T>,
    c: Seq<SampleRef>,
    c2: Seq<SampleRef>,
    n: int,
    k: int,
)
    requires
        m.valid_reader(sub.reader()),
        sub.receive_post(m, f, c, c2, n, k),
        f.inv(),
    ensures
        forall|j: int|
            0 <= j < k ==> 1 <= (#[trigger] c2.subrange(c2.len() - k, c2.len() as int)[j]).sequence
                <= f.last_sequence,
{
    let news = c2.subrange(c2.len() - k, c2.len() as int);
    assert forall|j: int| 0 <= j < k implies 1 <= (#[trigger] news[j]).sequence <= f.last_sequence by {
        let t = news[j].slot as int;
        assert(f.valid_reader(sub.reader()));
        assert(f.holds(sub.reader(), t) == 1);
    }
}

/// Lossy overwrite: on a fresh two-slot lossy buffer with one subscriber
/// that has received nothing, three sends of `v1`, `v2`, `v3` all find a
/// slot, and a receive with a cap of two gets `v2` then `v3`.
pub proof fn lossy_keeps_the_newest<T>(
    m0: BufferModel<T>,
    m1: BufferModel<T>,
    m2: BufferModel<T>,
    m3: BufferModel<T>,
    f: BufferModel<T>,
    s1: int,
    s2: int,
    s3: int,
    v1: T,
    v2: T,
    v3: T,
    sub: Subscription,
    c: Seq<SampleRef>,
    c2: Seq<SampleRef>,
    k: int,
)
    requires
        m0.inv(),
        m0.capacity() == 2,
        m0.lossy,
        m0.cursor == 0,
        m0.last_sequence == 0,
        forall|t: int| 0 <= t < 2 ==> #[trigger] m0.slots[t].state == SlotState::Free && m0.slots[t].ref_count == 0,
        m0.valid_reader(sub.reader()),
        m0.readers[sub.reader()].last_seen == 0,
        m0.allocation_choice(s1),
        m1 == m0.claim(s1).publish_post(s1, v1),
        m1.allocation_choice(s2),
        m2 == m1.claim(s2).publish_post(s2, v2),
        m2.allocation_choice(s3),
        m3 == m2.claim(s3).publish_post(s3, v3),
        sub.receive_post(m3, f, c, c2, 2, k),
        f.inv(),
    ensures
        m0.can_allocate() && m1.can_allocate() && m2.can_allocate(),
        k == 2,
        f.payloads[c2[c2.len() - 2].slot as int] == Some(v2),
        f.payloads[c2[c2.len() - 1].slot as int] == Some(v3),
{
    let r = sub.reader();
    // First send: slot 0 is free and first from the cursor.
    assert(m0.allocatable(0));
    assert(m0.from_cursor(0) == 0);
    assert(s1 == 0) by {
        let j = choose|j: int|
            0 <= j < m0.capacity() && #[trigger] m0.from_cursor(j) == s1 && m0.allocatable(s1)
                && forall|i: int| 0 <= i < j ==> !#[trigger] m0.allocatable(m0.from_cursor(i));
        if j > 0 {
            assert(!m0.allocatable(m0.from_cursor(0)));
        }
    }
    // Second send: the cursor is at slot 1, which is free.
    assert(m1.cursor == 1);
    assert(m1.allocatable(1));
    assert(m1.from_cursor(0) == 1);
    assert(s2 == 1) by {
        let j = choose|j: int|
            0 <= j < m1.capacity() && #[trigger] m1.from_cursor(j) == s2 && m1.allocatable(s2)
                && forall|i: int| 0 <= i < j ==> !#[trigger] m1.allocatable(m1.from_cursor(i));
        if j > 0 {
            assert(!m1.allocatable(m1.from_cursor(0)));
        }
    }
    // Third send: both slots are ready and unreferenced; the oldest goes.
    assert(m2.slots[0].sequence == 1 && m2.slots[1].sequence == 2);
    assert(!m2.any_allocatable()) by {
        assert forall|t: int| m2.valid_slot(t) implies !#[trigger] m2.allocatable(t) by {
            assert(t == 0 || t == 1);
        }
    }
    assert(!m2.first_allocatable(s3));
    assert(m2.stealable(0));
    assert(s3 == 0) by {
        assert(m2.valid_slot(s3) && m2.stealable(s3));
        if s3 == 1 {
            assert(m2.slots[1].sequence <= m2.slots[0].sequence);
        }
    }
    assert(m0.can_allocate() && m1.can_allocate() && m2.can_allocate());
    assert(m3.slots[0].sequence == 3 && m3.slots[1].sequence == 2);
    assert(m3.payloads[0] == Some(v3) && m3.payloads[1] == Some(v2));
    assert(m3.readers[r].last_seen == 0);
    assert(m3.pending(r, 0) && m3.pending(r, 1));
    let news = c2.subrange(c2.len() - k, c2.len() as int);
    assert(f.slots[0].state == SlotState::Ready && f.slots[1].state == SlotState::Ready);
    if k < 2 {
        if k == 0 {
            assert(f.pending(r, 0));
        } else {
            assert(f.readers[r].last_seen == news[0].sequence);
            assert(f.valid_reader(r));
            assert(f.holds(r, news[0].slot as int) == 1);
            assert(news[0].slot == 0 || news[0].slot == 1);
            if news[0].slot == 0 {
                assert(f.pending(r, 1) || news[0].sequence == 3);
                assert(news[0].sequence > m3.readers[r].last_seen);
            }
            assert(f.pending(r, 0) || f.pending(r, 1));
        }
    }
    assert(k == 2);
    assert(f.valid_reader(r));
    assert(f.holds(r, news[0].slot as int) == 1 && f.holds(r, news[1].slot as int) == 1);
    assert(news[0].sequence < news[1].sequence);
    assert(news[0].slot == 1 && news[1].slot == 0);
    assert(news[0] == c2[c2.len() - 2] && news[1] == c2[c2.len() - 1]);
}

/// Every slot's count, less what reader `r` holds on it, is the same in
/// `a` and `b`: only `r`'s own references changed.
pub open spec fn counts_beside<T>(a: BufferModel<T>, b: BufferModel<T>, r: int) -> bool {
    &&& b.capacity() == a.capacity()
    &&& forall|t: int|
        0 <= t < a.capacity() ==> #[trigger] b.slots[t].ref_count - b.holds(r, t)
            == a.slots[t].ref_count - a.holds(r, t)
}

/// A receive changes only the counts of its own subscription's references.
pub proof fn receive_changes_only_own_counts<T>(
    sub: Subscription,
    m: BufferModel<T>,
    f: BufferModel<T>,
    c: Seq<SampleRef>,
    c2: Seq<SampleRef>,
    n: int,
    k: int,
)
    requires
        sub.receive_post(m, f, c, c2, n, k),
    ensures
        counts_beside(m, f, sub.reader()),
{
    assert forall|t: int| 0 <= t < m.capacity() implies #[trigger] f.slots[t].ref_count - f.holds(
        sub.reader(),
        t,
    ) == m.slots[t].ref_count - m.holds(sub.reader(), t) by {
        assert(m.valid_slot(t));
    }
}

/// Crash recovery after receptions: if reader `r` held nothing at first,
/// then only changed its own references (through any receives and
/// acquisitions), and dies, recovery gives every slot back the count it
/// had at first.
pub proof fn recovery_after_receptions_restores_counts<T>(
    states: Seq<BufferModel<T>>,
    fin: BufferModel<T>,
    r: int,
)
    requires
        states.len() >= 1,
        forall|t: int| 0 <= t < states[0].capacity() ==> #[trigger] states[0].holds(r, t) == 0,
        forall|i: int| 0 <= i < states.len() - 1 ==> counts_beside(states[i], #[trigger] states[i + 1], r),
        recover_post(states.last(), fin, r),
    ensures
        forall|t: int|
            0 <= t < states[0].capacity() ==> (#[trigger] fin.slots[t]).ref_count
                == states[0].slots[t].ref_count,
{
    let last = states.len() - 1;
    assert forall|t: int| 0 <= t < states[0].capacity() implies (#[trigger] fin.slots[t]).ref_count
        == states[0].slots[t].ref_count by {
        lemma_beside_chain(states, r, t, last);
        assert(states.last() == states[last]);
        assert(states[0].holds(r, t) == 0);
    }
}

proof fn lemma_beside_chain<T>(states: Seq<BufferModel<T>>, r: int, t: int, i: int)
    requires
        0 <= i < states.len(),
        0 <= t < states[0].capacity(),
        forall|j: int| 0 <= j < states.len() - 1 ==> counts_beside(states[j], #[trigger] states[j + 1], r),
    ensures
        states[i].capacity() == states[0].capacity(),
        states[i].slots[t].ref_count - states[i].holds(r, t) == states[0].slots[t].ref_count
            - states[0].holds(r, t),
    decreases i,
{
    if i > 0 {
        lemma_beside_chain(states, r, t, i - 1);
        let j = i - 1;
        assert(counts_beside(states[j], states[j + 1], r));
    }
}

} // verus!
