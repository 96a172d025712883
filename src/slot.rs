//! The slot engine: a single-producer, many-consumer, bounded, reference
//! counted event buffer with per-subscriber transaction logs that make the
//! reference accounting recoverable when a subscriber dies.
use vstd::prelude::*;

use crate::config::QosClass;
use crate::error::Error;

verus! {

/// Life-cycle state of one slot.
#[derive(Debug, Clone, Copy, PartialEq, Eq, Structural)]
pub enum SlotState {
    Free,
    Writing,
    Ready,
    Invalid,
}

/// Control header of one slot.
#[derive(Debug, Clone, Copy, PartialEq, Eq, Structural)]
pub struct SlotHeader {
    pub state: SlotState,
    /// Live consumer references, plus one while the producer writes the slot.
    pub ref_count: u32,
    /// Producer-assigned sequence number of the sample the slot holds.
    pub sequence: u64,
}

/// Kind of a transaction-log record.
#[derive(Debug, Clone, Copy, PartialEq, Eq, Structural)]
pub enum TxOp {
    Acquire,
    Release,
}

/// One transaction-log record: an acquire or release of a slot.
#[derive(Debug, Clone, Copy, PartialEq, Eq, Structural)]
pub struct TxEntry {
    pub op: TxOp,
    pub slot: usize,
    pub sequence: u64,
}

/// Per-subscriber reader state: the claim on a transaction log, the last
/// sequence seen, and the log itself.
#[derive(Debug)]
pub struct ReaderState {
    /// The log is claimed by a subscriber.
    pub active: bool,
    /// Sequence of the newest sample this reader acquired; 0 before the first.
    pub last_seen: u64,
    /// Number of acquisitions not yet released.
    pub held: usize,
    pub log: Vec<TxEntry>,
}

/// A producer's claim on a slot in `Writing` state. Only `allocate` makes
/// one, and it is used up by publishing or discarding it.
#[derive(Debug)]
pub struct Allocatee {
    slot: usize,
}

impl Allocatee {
    pub closed spec fn index(&self) -> int {
        self.slot as int
    }

    /// The slot this allocatee claims.
    pub fn slot_index(&self) -> (r: usize)
        ensures
            r == self.index(),
    {
        self.slot
    }

    /// Writes `value` for the claimed slot; it lands in the slot when sent.
    pub fn write<T>(self, value: T) -> (r: SampleMut<T>)
        ensures
            r.slot() == self.index(),
            r.value() == value,
    {
        SampleMut { slot: self.slot, value }
    }

    /// Writes the default value of `T` for the claimed slot.
    pub fn write_default<T: Default>(self) -> (r: SampleMut<T>)
        ensures
            r.slot() == self.index(),
    {
        SampleMut { slot: self.slot, value: T::default() }
    }
}

/// A written sample, not yet sent: the slot it goes into and its value.
#[derive(Debug)]
pub struct SampleMut<T> {
    slot: usize,
    value: T,
}

impl<T> SampleMut<T> {
    pub closed spec fn slot(&self) -> int {
        self.slot as int
    }

    pub closed spec fn value(&self) -> T {
        self.value
    }

    /// The value that will be sent.
    pub fn get(&self) -> (r: &T)
        ensures
            *r == self.value(),
    {
        &self.value
    }
}

/// A consumer's reference on one `Ready` slot, owned by one reader.
#[derive(Debug, PartialEq, Eq, Structural)]
pub struct SampleRef {
    pub reader: usize,
    pub slot: usize,
    pub sequence: u64,
}

/// Contribution of one log record to the count of slot `s`.
pub open spec fn entry_delta(e: TxEntry, s: int) -> int {
    if e.slot == s {
        match e.op {
            TxOp::Acquire => 1,
            TxOp::Release => -1,
        }
    } else {
        0
    }
}

/// Acquisitions minus releases of slot `s` recorded in `log`.
pub open spec fn net(log: Seq<TxEntry>, s: int) -> int
    decreases log.len(),
{
    if log.len() == 0 {
        0
    } else {
        net(log.drop_last(), s) + entry_delta(log.last(), s)
    }
}

/// Acquisitions minus releases of every slot recorded in `log`.
pub open spec fn balance(log: Seq<TxEntry>) -> int
    decreases log.len(),
{
    if log.len() == 0 {
        0
    } else {
        balance(log.drop_last()) + match log.last().op {
            TxOp::Acquire => 1int,
            TxOp::Release => -1int,
        }
    }
}

/// Sum of `net(log, s)` over the slots `s < n`.
pub open spec fn net_below(log: Seq<TxEntry>, n: int) -> int
    decreases n,
{
    if n <= 0 {
        0
    } else {
        net_below(log, n - 1) + net(log, n - 1)
    }
}

/// References on slot `s` held by all the readers of `readers`.
pub open spec fn held(readers: Seq<ReaderState>, s: int) -> int
    decreases readers.len(),
{
    if readers.len() == 0 {
        0
    } else {
        held(readers.drop_last(), s) + net(readers.last().log@, s)
    }
}

/// Reader `r` acquired `v` from `m`, giving `f`: the pending slot with the
/// smallest sequence, its count one higher, the acquisition journaled, and
/// the reader's cursor at its sequence.
pub open spec fn acquire_post<T>(m: BufferModel<T>, f: BufferModel<T>, r: int, v: SampleRef) -> bool {
    let s = v.slot as int;
    &&& v.reader == r
    &&& m.next_pending(r, s)
    &&& v.sequence == m.slots[s].sequence
    &&& m.same_but_reader(f, r)
    &&& m.counts_moved(f, s, 1)
    &&& f.readers[r].active
    &&& f.readers[r].last_seen == v.sequence
    &&& f.readers[r].held == m.readers[r].held + 1
    &&& f.readers[r].log@ == m.readers[r].log@.push(m.entry(TxOp::Acquire, s))
}

/// Recovery of reader `r` took `m` to `f`: every count lost what the
/// reader held, and the reader's log is empty and unclaimed.
pub open spec fn recover_post<T>(m: BufferModel<T>, f: BufferModel<T>, r: int) -> bool {
    &&& m.same_but_reader(f, r)
    &&& forall|s: int|
        0 <= s < m.capacity() ==> (#[trigger] f.slots[s]).ref_count == m.slots[s].ref_count
            - m.holds(r, s)
    &&& !f.readers[r].active
    &&& f.readers[r].last_seen == 0
    &&& f.readers[r].held == 0
    &&& f.readers[r].log@.len() == 0
}

/// The mathematical model of an event buffer.
pub struct BufferModel<T> {
    pub slots: Seq<SlotHeader>,
    pub payloads: Seq<Option<T>>,
    pub readers: Seq<ReaderState>,
    pub cursor: int,
    pub last_sequence: int,
    pub lossy: bool,
    pub offered: bool,
    pub qos: QosClass,
}

impl<T> BufferModel<T> {
    pub open spec fn capacity(self) -> int {
        self.slots.len() as int
    }

    pub open spec fn valid_slot(self, s: int) -> bool {
        0 <= s < self.slots.len()
    }

    pub open spec fn valid_reader(self, r: int) -> bool {
        0 <= r < self.readers.len()
    }

    /// Slot `s` may be handed to the producer.
    pub open spec fn allocatable(self, s: int) -> bool {
        self.slots[s].state == SlotState::Free && self.slots[s].ref_count == 0
    }

    /// Slot `s` may be taken back by a lossy producer.
    pub open spec fn stealable(self, s: int) -> bool {
        self.slots[s].state == SlotState::Ready && self.slots[s].ref_count == 0
    }

    /// Slot `s` holds a sample that reader `r` has not seen yet.
    pub open spec fn pending(self, r: int, s: int) -> bool {
        self.slots[s].state == SlotState::Ready && self.slots[s].sequence
            > self.readers[r].last_seen
    }

    /// Outstanding references of reader `r` on slot `s`.
    pub open spec fn holds(self, r: int, s: int) -> int {
        net(self.readers[r].log@, s)
    }

    /// Slot index reached `k` steps after the writer cursor, `0 <= k < capacity`.
    pub open spec fn from_cursor(self, k: int) -> int {
        if self.cursor + k < self.capacity() {
            self.cursor + k
        } else {
            self.cursor + k - self.capacity()
        }
    }

    pub open spec fn any_allocatable(self) -> bool {
        exists|s: int| self.valid_slot(s) && #[trigger] self.allocatable(s)
    }

    pub open spec fn any_stealable(self) -> bool {
        exists|s: int| self.valid_slot(s) && #[trigger] self.stealable(s)
    }

    /// `s` is the allocatable slot met first when scanning from the cursor.
    pub open spec fn first_allocatable(self, s: int) -> bool {
        exists|k: int|
            0 <= k < self.capacity() && #[trigger] self.from_cursor(k) == s && self.allocatable(s)
                && forall|j: int| 0 <= j < k ==> !#[trigger] self.allocatable(self.from_cursor(j))
    }

    /// `s` is a stealable slot with the oldest sequence among stealable slots.
    pub open spec fn oldest_stealable(self, s: int) -> bool {
        &&& self.valid_slot(s)
        &&& self.stealable(s)
        &&& forall|t: int|
            self.valid_slot(t) && #[trigger] self.stealable(t) ==> self.slots[s].sequence
                <= self.slots[t].sequence
    }

    /// The slot the producer is given, if any: the first allocatable slot
    /// from the cursor; failing that, in lossy mode, the oldest unreferenced
    /// ready slot.
    pub open spec fn allocation_choice(self, s: int) -> bool {
        ||| self.first_allocatable(s)
        ||| (!self.any_allocatable() && self.lossy && self.oldest_stealable(s))
    }

    pub open spec fn can_allocate(self) -> bool {
        self.any_allocatable() || (self.lossy && self.any_stealable())
    }

    /// The model after the producer claims slot `s`.
    pub open spec fn claim(self, s: int) -> BufferModel<T> {
        BufferModel {
            slots: self.slots.update(
                s,
                SlotHeader {
                    state: SlotState::Writing,
                    ref_count: 1,
                    sequence: self.slots[s].sequence,
                },
            ),
            ..self
        }
    }

    /// Slot index that follows `s` in ring order.
    pub open spec fn next_index(self, s: int) -> int {
        if s + 1 < self.capacity() {
            s + 1
        } else {
            0
        }
    }

    /// The model after the producer publishes `value` in slot `s`.
    pub open spec fn publish_post(self, s: int, value: T) -> BufferModel<T> {
        BufferModel {
            slots: self.slots.update(
                s,
                SlotHeader {
                    state: SlotState::Ready,
                    ref_count: 0,
                    sequence: (self.last_sequence + 1) as u64,
                },
            ),
            payloads: self.payloads.update(s, Some(value)),
            cursor: self.next_index(s),
            last_sequence: self.last_sequence + 1,
            ..self
        }
    }

    /// The model after the producer gives slot `s` back unpublished.
    pub open spec fn discard_post(self, s: int) -> BufferModel<T> {
        BufferModel {
            slots: self.slots.update(
                s,
                SlotHeader { state: SlotState::Free, ref_count: 0, sequence: self.slots[s].sequence },
            ),
            ..self
        }
    }

    pub open spec fn writing_bit(self, s: int) -> int {
        if self.slots[s].state == SlotState::Writing {
            1
        } else {
            0
        }
    }

    /// `s` is the pending slot of reader `r` with the smallest sequence.
    pub open spec fn next_pending(self, r: int, s: int) -> bool {
        &&& self.valid_slot(s)
        &&& self.pending(r, s)
        &&& forall|t: int|
            self.valid_slot(t) && #[trigger] self.pending(r, t) ==> self.slots[s].sequence
                <= self.slots[t].sequence
    }

    pub open spec fn any_pending(self, r: int) -> bool {
        exists|s: int| self.valid_slot(s) && #[trigger] self.pending(r, s)
    }

    /// `other` equals `self` but for reader `r` and the reference counts.
    pub open spec fn same_but_reader(self, other: Self, r: int) -> bool {
        &&& other.slots.len() == self.slots.len()
        &&& forall|t: int|
            0 <= t < self.slots.len() ==> (#[trigger] other.slots[t]).state == self.slots[t].state
                && other.slots[t].sequence == self.slots[t].sequence
        &&& other.payloads == self.payloads
        &&& other.readers.len() == self.readers.len()
        &&& forall|i: int|
            0 <= i < self.readers.len() && i != r ==> #[trigger] other.readers[i]
                == self.readers[i]
        &&& other.cursor == self.cursor
        &&& other.last_sequence == self.last_sequence
        &&& other.lossy == self.lossy
        &&& other.offered == self.offered
        &&& other.qos == self.qos
    }

    /// Reference counts of `other` are those of `self` changed by `delta` on slot `s` only.
    pub open spec fn counts_moved(self, other: Self, s: int, delta: int) -> bool {
        forall|t: int|
            0 <= t < self.slots.len() ==> (#[trigger] other.slots[t]).ref_count == self.slots[t].ref_count
                + if t == s {
                delta
            } else {
                0
            }
    }

    /// The log record for an acquire or release of slot `s`.
    pub open spec fn entry(self, op: TxOp, s: int) -> TxEntry {
        TxEntry { op, slot: s as usize, sequence: self.slots[s].sequence }
    }

    /// Shape of the buffer.
    pub open spec fn inv_shape(self) -> bool {
        &&& self.slots.len() > 0
        &&& self.payloads.len() == self.slots.len()
        &&& 0 <= self.cursor < self.slots.len()
        &&& self.readers.len() < u32::MAX
        &&& 0 <= self.last_sequence <= u64::MAX
    }

    /// Every reference count is the references the readers hold, plus one
    /// while the producer writes the slot.
    pub open spec fn inv_counts(self) -> bool {
        forall|s: int| #[trigger]
            self.valid_slot(s) ==> self.slots[s].ref_count == held(self.readers, s)
                + self.writing_bit(s)
    }

    /// A ready slot holds a payload and an issued sequence number.
    pub open spec fn inv_ready(self) -> bool {
        forall|s: int| #[trigger]
            self.valid_slot(s) && self.slots[s].state == SlotState::Ready ==> {
                &&& self.payloads[s] is Some
                &&& 1 <= self.slots[s].sequence <= self.last_sequence
            }
    }

    /// Ready slots carry distinct sequence numbers.
    pub open spec fn inv_distinct(self) -> bool {
        forall|s: int, t: int|
            self.valid_slot(s) && self.valid_slot(t) && s != t && #[trigger] self.slots[s].state
                == SlotState::Ready && #[trigger] self.slots[t].state == SlotState::Ready
                ==> self.slots[s].sequence != self.slots[t].sequence
    }

    /// Each log names slots of the buffer, its balance is the reader's held
    /// count, and a reader without a subscriber has an empty log.
    pub open spec fn inv_logs(self) -> bool {
        forall|r: int| #[trigger]
            self.valid_reader(r) ==> {
                &&& balance(self.readers[r].log@) == self.readers[r].held
                &&& self.readers[r].last_seen <= self.last_sequence
                &&& (!self.readers[r].active ==> self.readers[r].log@.len() == 0)
                &&& forall|i: int|
                    0 <= i < self.readers[r].log@.len() ==> self.valid_slot(
                        #[trigger] self.readers[r].log@[i].slot as int,
                    )
            }
    }

    /// A reader holds at most one reference on a slot, and only on a ready
    /// slot whose sample it has seen.
    pub open spec fn inv_holds(self) -> bool {
        forall|r: int, s: int|
            self.valid_reader(r) && self.valid_slot(s) ==> {
                let h = #[trigger] self.holds(r, s);
                &&& 0 <= h <= 1
                &&& h == 1 ==> self.slots[s].state == SlotState::Ready
                &&& h == 1 ==> self.slots[s].sequence <= self.readers[r].last_seen
            }
    }

    /// The invariant of the slot engine.
    pub open spec fn inv(self) -> bool {
        &&& self.inv_shape()
        &&& self.inv_counts()
        &&& self.inv_ready()
        &&& self.inv_distinct()
        &&& self.inv_logs()
        &&& self.inv_holds()
    }
}

pub proof fn lemma_net_push(log: Seq<TxEntry>, e: TxEntry, s: int)
    ensures
        net(log.push(e), s) == net(log, s) + entry_delta(e, s),
        balance(log.push(e)) == balance(log) + match e.op {
            TxOp::Acquire => 1int,
            TxOp::Release => -1int,
        },
{
    assert(log.push(e).drop_last() =~= log);
}

proof fn lemma_net_below_push(log: Seq<TxEntry>, e: TxEntry, n: int)
    requires
        0 <= n,
    ensures
        net_below(log.push(e), n) == net_below(log, n) + if e.slot < n {
            entry_delta(e, e.slot as int)
        } else {
            0
        },
    decreases n,
{
    if n > 0 {
        lemma_net_below_push(log, e, n - 1);
        lemma_net_push(log, e, n - 1);
    }
}

/// When every record names a slot below `n`, the balance of a log is the
/// sum of its per-slot counts.
proof fn lemma_balance_is_sum(log: Seq<TxEntry>, n: int)
    requires
        0 <= n,
        forall|i: int| 0 <= i < log.len() ==> #[trigger] log[i].slot < n,
    ensures
        balance(log) == net_below(log, n),
    decreases log.len(),
{
    if log.len() > 0 {
        let init = log.drop_last();
        assert(init.push(log.last()) =~= log);
        assert forall|i: int| 0 <= i < init.len() implies #[trigger] init[i].slot < n by {
            assert(init[i] == log[i]);
        }
        lemma_balance_is_sum(init, n);
        lemma_net_below_push(init, log.last(), n);
        lemma_net_push(init, log.last(), log.last().slot as int);
        assert(log.last() == log[log.len() - 1]);
        assert(log.last().slot < n);
    } else {
        lemma_net_below_empty(log, n);
    }
}

proof fn lemma_net_below_empty(log: Seq<TxEntry>, n: int)
    requires
        log.len() == 0,
    ensures
        net_below(log, n) == 0,
    decreases n,
{
    if n > 0 {
        lemma_net_below_empty(log, n - 1);
    }
}

/// A sum of non-negative counts that is zero has every count zero.
proof fn lemma_zero_sum(log: Seq<TxEntry>, n: int, s: int)
    requires
        0 <= s < n,
        net_below(log, n) == 0,
        forall|t: int| 0 <= t < n ==> #[trigger] net(log, t) >= 0,
    ensures
        net(log, s) == 0,
    decreases n,
{
    lemma_net_below_nonneg(log, n - 1);
    if s < n - 1 {
        lemma_zero_sum(log, n - 1, s);
    }
}

proof fn lemma_net_below_nonneg(log: Seq<TxEntry>, n: int)
    requires
        forall|t: int| 0 <= t < n ==> #[trigger] net(log, t) >= 0,
    ensures
        net_below(log, n) >= 0,
    decreases n,
{
    if n > 0 {
        lemma_net_below_nonneg(log, n - 1);
    }
}

/// Replacing one reader changes the held count by the difference of its logs.
proof fn lemma_held_update(readers: Seq<ReaderState>, r: int, x: ReaderState, s: int)
    requires
        0 <= r < readers.len(),
    ensures
        held(readers.update(r, x), s) == held(readers, s) - net(readers[r].log@, s) + net(
            x.log@,
            s,
        ),
    decreases readers.len(),
{
    let u = readers.update(r, x);
    if r == readers.len() - 1 {
        assert(u.drop_last() =~= readers.drop_last());
    } else {
        assert(u.drop_last() =~= readers.drop_last().update(r, x));
        lemma_held_update(readers.drop_last(), r, x, s);
    }
}

/// Each reader holds at most one reference per slot, so the held count is
/// at most the number of readers.
proof fn lemma_held_bound(readers: Seq<ReaderState>, s: int)
    requires
        forall|r: int| 0 <= r < readers.len() ==> 0 <= #[trigger] net(readers[r].log@, s) <= 1,
    ensures
        0 <= held(readers, s) <= readers.len(),
    decreases readers.len(),
{
    if readers.len() > 0 {
        let init = readers.drop_last();
        assert forall|r: int| 0 <= r < init.len() implies 0 <= #[trigger] net(init[r].log@, s)
            <= 1 by {
            assert(init[r] == readers[r]);
        }
        lemma_held_bound(init, s);
    }
}

/// Readers that hold nothing on `s` add up to nothing.
proof fn lemma_held_zero_nets(readers: Seq<ReaderState>, s: int)
    requires
        forall|r: int| 0 <= r < readers.len() ==> #[trigger] net(readers[r].log@, s) == 0,
    ensures
        held(readers, s) == 0,
    decreases readers.len(),
{
    if readers.len() > 0 {
        let init = readers.drop_last();
        assert forall|r: int| 0 <= r < init.len() implies #[trigger] net(init[r].log@, s) == 0 by {
            assert(init[r] == readers[r]);
        }
        lemma_held_zero_nets(init, s);
        assert(readers.last() == readers[readers.len() - 1]);
    }
}

/// A held count of zero means that no reader holds the slot.
proof fn lemma_held_zero_each(readers: Seq<ReaderState>, s: int)
    requires
        held(readers, s) == 0,
        forall|r: int| 0 <= r < readers.len() ==> 0 <= #[trigger] net(readers[r].log@, s) <= 1,
    ensures
        forall|r: int| 0 <= r < readers.len() ==> #[trigger] net(readers[r].log@, s) == 0,
    decreases readers.len(),
{
    if readers.len() > 0 {
        let init = readers.drop_last();
        assert forall|r: int| 0 <= r < init.len() implies 0 <= #[trigger] net(init[r].log@, s)
            <= 1 by {
            assert(init[r] == readers[r]);
        }
        lemma_held_bound(init, s);
        assert(readers.last() == readers[readers.len() - 1]);
        assert(net(readers.last().log@, s) >= 0);
        lemma_held_zero_each(init, s);
        assert forall|r: int| 0 <= r < readers.len() implies #[trigger] net(readers[r].log@, s)
            == 0 by {
            if r < init.len() {
                assert(init[r] == readers[r]);
            }
        }
    }
}

proof fn lemma_net_below_bound(log: Seq<TxEntry>, n: int)
    requires
        0 <= n,
        forall|t: int| 0 <= t < n ==> 0 <= #[trigger] net(log, t) <= 1,
    ensures
        0 <= net_below(log, n) <= n,
    decreases n,
{
    if n > 0 {
        lemma_net_below_bound(log, n - 1);
    }
}

/// With one slot below `n` not held, the sum of the per-slot counts stays below `n`.
proof fn lemma_net_below_gap(log: Seq<TxEntry>, n: int, z: int)
    requires
        0 <= z < n,
        net(log, z) == 0,
        forall|t: int| 0 <= t < n ==> 0 <= #[trigger] net(log, t) <= 1,
    ensures
        net_below(log, n) <= n - 1,
    decreases n,
{
    if z == n - 1 {
        lemma_net_below_bound(log, n - 1);
    } else {
        lemma_net_below_gap(log, n - 1, z);
    }
}

/// Two distinct readers holding slot `s` make its held count at least two.
proof fn lemma_held_two(readers: Seq<ReaderState>, s: int, a: int, b: int)
    requires
        0 <= a < readers.len(),
        0 <= b < readers.len(),
        a != b,
        net(readers[a].log@, s) == 1,
        net(readers[b].log@, s) == 1,
        forall|r: int| 0 <= r < readers.len() ==> 0 <= #[trigger] net(readers[r].log@, s) <= 1,
    ensures
        held(readers, s) >= 2,
    decreases readers.len(),
{
    let init = readers.drop_last();
    let k = readers.len() - 1;
    assert forall|r: int| 0 <= r < init.len() implies 0 <= #[trigger] net(init[r].log@, s)
        <= 1 by {
        assert(init[r] == readers[r]);
    }
    assert(readers.last() == readers[k]);
    if a == k || b == k {
        let o = if a == k {
            b
        } else {
            a
        };
        assert(init[o] == readers[o]);
        lemma_held_one(init, s, o);
    } else {
        assert(init[a] == readers[a]);
        assert(init[b] == readers[b]);
        lemma_held_two(init, s, a, b);
    }
}

/// One reader holding slot `s` makes its held count at least one.
proof fn lemma_held_one(readers: Seq<ReaderState>, s: int, a: int)
    requires
        0 <= a < readers.len(),
        net(readers[a].log@, s) == 1,
        forall|r: int| 0 <= r < readers.len() ==> 0 <= #[trigger] net(readers[r].log@, s) <= 1,
    ensures
        held(readers, s) >= 1,
    decreases readers.len(),
{
    let init = readers.drop_last();
    let k = readers.len() - 1;
    assert forall|r: int| 0 <= r < init.len() implies 0 <= #[trigger] net(init[r].log@, s)
        <= 1 by {
        assert(init[r] == readers[r]);
    }
    assert(readers.last() == readers[k]);
    lemma_held_bound(init, s);
    if a != k {
        assert(init[a] == readers[a]);
        lemma_held_one(init, s, a);
    }
}

/// Readers with empty logs hold nothing.
proof fn lemma_held_zero(readers: Seq<ReaderState>, s: int)
    requires
        forall|r: int| 0 <= r < readers.len() ==> (#[trigger] readers[r]).log@.len() == 0,
    ensures
        held(readers, s) == 0,
    decreases readers.len(),
{
    if readers.len() > 0 {
        let init = readers.drop_last();
        assert forall|r: int| 0 <= r < init.len() implies (#[trigger] init[r]).log@.len() == 0 by {
            assert(init[r] == readers[r]);
        }
        lemma_held_zero(init, s);
    }
}

/// The invariant does not depend on the control block's flags.
proof fn lemma_inv_flags<T>(m: BufferModel<T>, f: BufferModel<T>)
    requires
        m.inv(),
        f.slots == m.slots,
        f.payloads == m.payloads,
        f.readers == m.readers,
        f.cursor == m.cursor,
        f.last_sequence == m.last_sequence,
    ensures
        f.inv(),
{
    assert forall|t: int| #[trigger] f.valid_slot(t) implies f.slots[t].ref_count == held(
        f.readers,
        t,
    ) + f.writing_bit(t) by {
        assert(m.valid_slot(t));
    }
    assert forall|t: int| #[trigger]
        f.valid_slot(t) && f.slots[t].state == SlotState::Ready implies {
        &&& f.payloads[t] is Some
        &&& 1 <= f.slots[t].sequence <= f.last_sequence
    } by {
        assert(m.valid_slot(t));
    }
    assert forall|u: int, w: int|
        f.valid_slot(u) && f.valid_slot(w) && u != w && #[trigger] f.slots[u].state
            == SlotState::Ready && #[trigger] f.slots[w].state == SlotState::Ready
            implies f.slots[u].sequence != f.slots[w].sequence by {
        assert(m.valid_slot(u) && m.valid_slot(w));
    }
    assert forall|i: int| #[trigger] f.valid_reader(i) implies {
        &&& balance(f.readers[i].log@) == f.readers[i].held
        &&& f.readers[i].last_seen <= f.last_sequence
        &&& (!f.readers[i].active ==> f.readers[i].log@.len() == 0)
        &&& forall|k: int|
            0 <= k < f.readers[i].log@.len() ==> f.valid_slot(
                #[trigger] f.readers[i].log@[k].slot as int,
            )
    } by {
        assert(m.valid_reader(i));
        assert forall|k: int| 0 <= k < f.readers[i].log@.len() implies f.valid_slot(
            #[trigger] f.readers[i].log@[k].slot as int,
        ) by {
            assert(m.valid_slot(m.readers[i].log@[k].slot as int));
        }
    }
    assert forall|i: int, u: int| f.valid_reader(i) && f.valid_slot(u) implies {
        let h = #[trigger] f.holds(i, u);
        &&& 0 <= h <= 1
        &&& h == 1 ==> f.slots[u].state == SlotState::Ready
        &&& h == 1 ==> f.slots[u].sequence <= f.readers[i].last_seen
    } by {
        assert(m.valid_reader(i) && m.valid_slot(u));
        assert(f.holds(i, u) == m.holds(i, u));
    }
}

/// An event buffer: slot headers, payloads and one reader state per
/// subscriber that may attach.
pub struct EventBuffer<T> {
    slots: Vec<SlotHeader>,
    payloads: Vec<Option<T>>,
    readers: Vec<ReaderState>,
    cursor: usize,
    last_sequence: u64,
    lossy: bool,
    offered: bool,
    qos: QosClass,
}

impl<T> View for EventBuffer<T> {
    type V = BufferModel<T>;

    closed spec fn view(&self) -> BufferModel<T> {
        BufferModel {
            slots: self.slots@,
            payloads: self.payloads@,
            readers: self.readers@,
            cursor: self.cursor as int,
            last_sequence: self.last_sequence as int,
            lossy: self.lossy,
            offered: self.offered,
            qos: self.qos,
        }
    }
}

impl<T> EventBuffer<T> {
    pub open spec fn wf(&self) -> bool {
        self@.inv()
    }

    /// Creates a buffer of `capacity` free slots with one transaction log
    /// for each of `max_subscribers` subscribers.
    pub fn new(capacity: usize, max_subscribers: usize, lossy: bool) -> (r: EventBuffer<T>)
        requires
            capacity > 0,
            max_subscribers < u32::MAX,
        ensures
            r.wf(),
            r@.capacity() == capacity,
            r@.readers.len() == max_subscribers,
            r@.lossy == lossy,
            !r@.offered,
            r@.qos == QosClass::Qm,
            r@.cursor == 0,
            r@.last_sequence == 0,
            forall|s: int|
                0 <= s < capacity ==> #[trigger] r@.slots[s] == (SlotHeader {
                    state: SlotState::Free,
                    ref_count: 0,
                    sequence: 0,
                }) && r@.payloads[s] is None,
            forall|i: int|
                0 <= i < max_subscribers ==> {
                    &&& !(#[trigger] r@.readers[i]).active
                    &&& r@.readers[i].last_seen == 0
                    &&& r@.readers[i].log@.len() == 0
                },
    {
        let mut slots: Vec<SlotHeader> = Vec::new();
        let mut payloads: Vec<Option<T>> = Vec::new();
        let mut i: usize = 0;
        while i < capacity
            invariant
                i <= capacity,
                slots@.len() == i,
                payloads@.len() == i,
                forall|s: int|
                    0 <= s < i ==> #[trigger] slots@[s] == (SlotHeader {
                        state: SlotState::Free,
                        ref_count: 0,
                        sequence: 0,
                    }) && payloads@[s] is None,
            decreases capacity - i,
        {
            slots.push(SlotHeader { state: SlotState::Free, ref_count: 0, sequence: 0 });
            payloads.push(None);
            i = i + 1;
        }
        let mut readers: Vec<ReaderState> = Vec::new();
        let mut j: usize = 0;
        while j < max_subscribers
            invariant
                j <= max_subscribers,
                readers@.len() == j,
                forall|k: int|
                    0 <= k < j ==> {
                        &&& !(#[trigger] readers@[k]).active
                        &&& readers@[k].last_seen == 0
                        &&& readers@[k].held == 0
                        &&& readers@[k].log@.len() == 0
                    },
            decreases max_subscribers - j,
        {
            readers.push(ReaderState { active: false, last_seen: 0, held: 0, log: Vec::new() });
            j = j + 1;
        }
        let r = EventBuffer {
            slots,
            payloads,
            readers,
            cursor: 0,
            last_sequence: 0,
            lossy,
            offered: false,
            qos: QosClass::Qm,
        };
        proof {
            assert forall|s: int| #[trigger] r@.valid_slot(s) implies r@.slots[s].ref_count
                == held(r@.readers, s) + r@.writing_bit(s) by {
                lemma_held_zero(r@.readers, s);
            }
        }
        r
    }

    /// Hands the producer a slot to write: the first free, unreferenced slot
    /// from the writer cursor, or, in lossy mode when there is none, the
    /// unreferenced ready slot with the oldest sequence. Never blocks.
    pub fn allocate(&mut self) -> (r: Result<Allocatee, Error>)
        requires
            old(self).wf(),
        ensures
            final(self).wf(),
            r is Ok <==> old(self)@.can_allocate(),
            r matches Ok(a) ==> old(self)@.allocation_choice(a.index()) && final(self)@
                == old(self)@.claim(a.index()),
            r matches Err(e) ==> e == Error::AllocateFailed && final(self)@ == old(self)@,
    {
        let n = self.slots.len();
        let ghost m = self@;
        let mut k: usize = 0;
        while k < n
            invariant
                self@ == m,
                old(self)@ == m,
                m.inv(),
                n == m.capacity(),
                k <= n,
                forall|j: int| 0 <= j < k ==> !#[trigger] m.allocatable(m.from_cursor(j)),
            decreases n - k,
        {
            let s: usize = if k < n - self.cursor {
                self.cursor + k
            } else {
                k - (n - self.cursor)
            };
            assert(s == m.from_cursor(k as int));
            let h = self.slots[s];
            if h.state == SlotState::Free && h.ref_count == 0 {
                self.claim(s);
                assert(m.allocatable(s as int));
                assert(m.first_allocatable(s as int));
                return Ok(Allocatee { slot: s });
            }
            k = k + 1;
        }
        assert(!m.any_allocatable()) by {
            assert forall|s: int| m.valid_slot(s) implies !#[trigger] m.allocatable(s) by {
                let j = if s >= m.cursor {
                    s - m.cursor
                } else {
                    s + m.capacity() - m.cursor
                };
                assert(m.from_cursor(j) == s);
            }
        }
        if !self.lossy {
            return Err(Error::AllocateFailed);
        }
        let mut best: Option<usize> = None;
        let mut t: usize = 0;
        while t < n
            invariant
                self@ == m,
                old(self)@ == m,
                m.inv(),
                n == m.capacity(),
                t <= n,
                best matches Some(b) ==> b < t && m.stealable(b as int),
                forall|u: int|
                    0 <= u < t && #[trigger] m.stealable(u) ==> (best matches Some(b)
                        && m.slots[b as int].sequence <= m.slots[u].sequence),
            decreases n - t,
        {
            let h = self.slots[t];
            if h.state == SlotState::Ready && h.ref_count == 0 {
                match best {
                    Some(b) => {
                        if h.sequence < self.slots[b].sequence {
                            best = Some(t);
                        }
                    },
                    None => {
                        best = Some(t);
                    },
                }
            }
            t = t + 1;
        }
        match best {
            Some(b) => {
                self.claim(b);
                Ok(Allocatee { slot: b })
            },
            None => Err(Error::AllocateFailed),
        }
    }

    /// Moves an unreferenced free or ready slot to `Writing`, owned by the producer.
    fn claim(&mut self, s: usize)
        requires
            old(self).wf(),
            old(self)@.valid_slot(s as int),
            old(self)@.allocatable(s as int) || old(self)@.stealable(s as int),
        ensures
            final(self).wf(),
            final(self)@ == old(self)@.claim(s as int),
    {
        let ghost m = self@;
        proof {
            assert forall|r: int| 0 <= r < m.readers.len() implies 0 <= #[trigger] net(
                m.readers[r].log@,
                s as int,
            ) <= 1 by {
                assert(m.holds(r, s as int) == net(m.readers[r].log@, s as int));
            }
            assert(m.valid_slot(s as int));
            lemma_held_zero_each(m.readers, s as int);
        }
        let seq = self.slots[s].sequence;
        self.slots.set(s, SlotHeader { state: SlotState::Writing, ref_count: 1, sequence: seq });
        proof {
            let f = self@;
            assert(f == m.claim(s as int));
            assert forall|t: int| #[trigger] f.valid_slot(t) implies f.slots[t].ref_count == held(
                f.readers,
                t,
            ) + f.writing_bit(t) by {
                assert(m.valid_slot(t));
            }
            assert(f.inv_counts());
            assert forall|t: int| #[trigger]
                f.valid_slot(t) && f.slots[t].state == SlotState::Ready implies {
                &&& f.payloads[t] is Some
                &&& 1 <= f.slots[t].sequence <= f.last_sequence
            } by {
                assert(m.valid_slot(t));
            }
            assert forall|r: int| #[trigger] f.valid_reader(r) implies {
                &&& balance(f.readers[r].log@) == f.readers[r].held
                &&& f.readers[r].last_seen <= f.last_sequence
                &&& (!f.readers[r].active ==> f.readers[r].log@.len() == 0)
                &&& forall|i: int|
                    0 <= i < f.readers[r].log@.len() ==> f.valid_slot(
                        #[trigger] f.readers[r].log@[i].slot as int,
                    )
            } by {
                assert(m.valid_reader(r));
                assert forall|i: int| 0 <= i < f.readers[r].log@.len() implies f.valid_slot(
                    #[trigger] f.readers[r].log@[i].slot as int,
                ) by {
                    assert(m.valid_slot(m.readers[r].log@[i].slot as int));
                }
            }
            assert forall|r: int, t: int| f.valid_reader(r) && f.valid_slot(t) implies {
                let h = #[trigger] f.holds(r, t);
                &&& 0 <= h <= 1
                &&& h == 1 ==> f.slots[t].state == SlotState::Ready
                &&& h == 1 ==> f.slots[t].sequence <= f.readers[r].last_seen
            } by {
                assert(m.valid_reader(r) && m.valid_slot(t));
                assert(f.holds(r, t) == m.holds(r, t));
                if t == s {
                    assert(net(m.readers[r].log@, s as int) == 0);
                }
            }
        }
    }

    /// Claims a free transaction log for a new subscriber: the first reader
    /// without one. Fails with `SubscribeFailed` when every log is taken.
    pub fn attach(&mut self) -> (r: Result<usize, Error>)
        requires
            old(self).wf(),
        ensures
            final(self).wf(),
            r is Ok <==> exists|i: int|
                0 <= i < old(self)@.readers.len() && !(#[trigger] old(self)@.readers[i]).active,
            r matches Ok(i) ==> {
                &&& old(self)@.valid_reader(i as int)
                &&& !old(self)@.readers[i as int].active
                &&& forall|j: int| 0 <= j < i ==> (#[trigger] old(self)@.readers[j]).active
                &&& old(self)@.same_but_reader(final(self)@, i as int)
                &&& old(self)@.counts_moved(final(self)@, 0, 0)
                &&& final(self)@.readers[i as int].active
                &&& final(self)@.readers[i as int].last_seen == 0
                &&& final(self)@.readers[i as int].held == 0
                &&& final(self)@.readers[i as int].log@.len() == 0
            },
            r matches Err(e) ==> e == Error::SubscribeFailed && final(self)@ == old(self)@,
    {
        let ghost m = self@;
        let mut i: usize = 0;
        while i < self.readers.len()
            invariant
                self@ == m,
                old(self)@ == m,
                m.inv(),
                i <= m.readers.len(),
                forall|j: int| 0 <= j < i ==> (#[trigger] m.readers[j]).active,
            decreases m.readers.len() - i,
        {
            if !self.readers[i].active {
                self.readers.set(
                    i,
                    ReaderState { active: true, last_seen: 0, held: 0, log: Vec::new() },
                );
                proof {
                    let f = self@;
                    assert(m.valid_reader(i as int));
                    assert forall|s: int| #[trigger] f.valid_slot(s) implies f.slots[s].ref_count
                        == held(f.readers, s) + f.writing_bit(s) by {
                        assert(m.valid_slot(s));
                        lemma_held_update(m.readers, i as int, f.readers[i as int], s);
                        assert(m.readers.update(i as int, f.readers[i as int]) == f.readers);
                    }
                    self.lemma_inv_after_reader_change(m, i as int);
                }
                return Ok(i);
            }
            i = i + 1;
        }
        Err(Error::SubscribeFailed)
    }

    /// Proves the invariant after reader `r` was replaced by one whose log
    /// holds nothing, when the reference counts are already right.
    proof fn lemma_inv_after_reader_change(&self, m: BufferModel<T>, r: int)
        requires
            m.inv(),
            m.valid_reader(r),
            m.same_but_reader(self@, r),
            self@.inv_counts(),
            self@.readers[r].log@.len() == 0,
            self@.readers[r].held == 0,
            self@.readers[r].last_seen == 0,
        ensures
            self@.inv(),
    {
        let f = self@;
        assert forall|t: int| #[trigger]
            f.valid_slot(t) && f.slots[t].state == SlotState::Ready implies {
            &&& f.payloads[t] is Some
            &&& 1 <= f.slots[t].sequence <= f.last_sequence
        } by {
            assert(m.valid_slot(t));
            assert(f.slots[t].state == m.slots[t].state);
        }
        assert forall|i: int| #[trigger] f.valid_reader(i) implies {
            &&& balance(f.readers[i].log@) == f.readers[i].held
            &&& f.readers[i].last_seen <= f.last_sequence
            &&& (!f.readers[i].active ==> f.readers[i].log@.len() == 0)
            &&& forall|k: int|
                0 <= k < f.readers[i].log@.len() ==> f.valid_slot(
                    #[trigger] f.readers[i].log@[k].slot as int,
                )
        } by {
            assert(m.valid_reader(i));
            if i != r {
                assert(f.readers[i] == m.readers[i]);
            }
        }
        assert forall|i: int, t: int| f.valid_reader(i) && f.valid_slot(t) implies {
            let h = #[trigger] f.holds(i, t);
            &&& 0 <= h <= 1
            &&& h == 1 ==> f.slots[t].state == SlotState::Ready
            &&& h == 1 ==> f.slots[t].sequence <= f.readers[i].last_seen
        } by {
            assert(m.valid_reader(i) && m.valid_slot(t));
            assert(f.slots[t].state == m.slots[t].state);
            if i != r {
                assert(f.readers[i] == m.readers[i]);
                assert(f.holds(i, t) == m.holds(i, t));
            }
        }
    }

    /// Hands reader `r` the ready slot with the smallest sequence it has not
    /// seen: the slot's count goes up by one, the acquisition is journaled,
    /// and the reader's last seen sequence moves to it.
    pub fn try_acquire_next(&mut self, r: usize) -> (x: Option<SampleRef>)
        requires
            old(self).wf(),
            old(self)@.valid_reader(r as int),
            old(self)@.readers[r as int].active,
        ensures
            final(self).wf(),
            x is None <==> !old(self)@.any_pending(r as int),
            x is None ==> final(self)@ == old(self)@,
            x matches Some(v) ==> acquire_post(old(self)@, final(self)@, r as int, v),
    {
        let ghost m = self@;
        let n = self.slots.len();
        let last_seen = self.readers[r].last_seen;
        let mut best: Option<usize> = None;
        let mut t: usize = 0;
        while t < n
            invariant
                self@ == m,
                old(self)@ == m,
                m.inv(),
                n == m.capacity(),
                m.valid_reader(r as int),
                last_seen == m.readers[r as int].last_seen,
                t <= n,
                best matches Some(b) ==> b < t && m.pending(r as int, b as int),
                forall|u: int|
                    0 <= u < t && #[trigger] m.pending(r as int, u) ==> (best matches Some(b)
                        && m.slots[b as int].sequence <= m.slots[u].sequence),
            decreases n - t,
        {
            let h = self.slots[t];
            if h.state == SlotState::Ready && h.sequence > last_seen {
                match best {
                    Some(b) => {
                        if h.sequence < self.slots[b].sequence {
                            best = Some(t);
                        }
                    },
                    None => {
                        best = Some(t);
                    },
                }
            }
            t = t + 1;
        }
        let s = match best {
            Some(b) => b,
            None => {
                return None;
            },
        };
        let q = self.slots[s].sequence;
        let rc = self.slots[s].ref_count;
        proof {
            assert(m.valid_slot(s as int));
            assert(m.holds(r as int, s as int) == 0);
            assert forall|i: int| 0 <= i < m.readers.len() implies 0 <= #[trigger] net(
                m.readers[i].log@,
                s as int,
            ) <= 1 by {
                assert(m.holds(i, s as int) == net(m.readers[i].log@, s as int));
            }
            lemma_held_bound(m.readers, s as int);
            let log = m.readers[r as int].log@;
            assert(m.valid_reader(r as int));
            assert forall|i: int| 0 <= i < log.len() implies #[trigger] log[i].slot < n by {
                assert(m.valid_slot(log[i].slot as int));
            }
            lemma_balance_is_sum(log, n as int);
            assert forall|u: int| 0 <= u < n implies 0 <= #[trigger] net(log, u) <= 1 by {
                assert(m.holds(r as int, u) == net(log, u));
            }
            lemma_net_below_gap(log, n as int, s as int);
        }
        self.slots.set(s, SlotHeader { state: SlotState::Ready, ref_count: rc + 1, sequence: q });
        let e = TxEntry { op: TxOp::Acquire, slot: s, sequence: q };
        self.readers[r].log.push(e);
        self.readers[r].held = self.readers[r].held + 1;
        self.readers[r].last_seen = q;
        proof {
            let f = self@;
            let ml = m.readers[r as int].log@;
            assert(f.readers[r as int].log@ == ml.push(e));
            assert(m.readers.update(r as int, f.readers[r as int]) =~= f.readers);
            assert forall|u: int| #[trigger] f.valid_slot(u) implies f.slots[u].ref_count == held(
                f.readers,
                u,
            ) + f.writing_bit(u) by {
                assert(m.valid_slot(u));
                lemma_held_update(m.readers, r as int, f.readers[r as int], u);
                lemma_net_push(ml, e, u);
            }
            assert forall|u: int| #[trigger]
                f.valid_slot(u) && f.slots[u].state == SlotState::Ready implies {
                &&& f.payloads[u] is Some
                &&& 1 <= f.slots[u].sequence <= f.last_sequence
            } by {
                assert(m.valid_slot(u));
            }
            assert forall|i: int| #[trigger] f.valid_reader(i) implies {
                &&& balance(f.readers[i].log@) == f.readers[i].held
                &&& f.readers[i].last_seen <= f.last_sequence
                &&& (!f.readers[i].active ==> f.readers[i].log@.len() == 0)
                &&& forall|k: int|
                    0 <= k < f.readers[i].log@.len() ==> f.valid_slot(
                        #[trigger] f.readers[i].log@[k].slot as int,
                    )
            } by {
                assert(m.valid_reader(i));
                if i == r {
                    lemma_net_push(ml, e, 0);
                    assert forall|k: int| 0 <= k < f.readers[i].log@.len() implies f.valid_slot(
                        #[trigger] f.readers[i].log@[k].slot as int,
                    ) by {
                        if k < ml.len() {
                            assert(f.readers[i].log@[k] == ml[k]);
                            assert(m.valid_slot(ml[k].slot as int));
                        }
                    }
                } else {
                    assert(f.readers[i] == m.readers[i]);
                }
            }
            assert forall|i: int, u: int| f.valid_reader(i) && f.valid_slot(u) implies {
                let h = #[trigger] f.holds(i, u);
                &&& 0 <= h <= 1
                &&& h == 1 ==> f.slots[u].state == SlotState::Ready
                &&& h == 1 ==> f.slots[u].sequence <= f.readers[i].last_seen
            } by {
                assert(m.valid_reader(i) && m.valid_slot(u));
                if i == r {
                    lemma_net_push(ml, e, u);
                    assert(m.holds(r as int, u) == net(ml, u));
                } else {
                    assert(f.readers[i] == m.readers[i]);
                    assert(f.holds(i, u) == m.holds(i, u));
                }
            }
        }
        Some(SampleRef { reader: r, slot: s, sequence: q })
    }

    /// Gives back the reference `x` of its reader: a release record is
    /// appended to the reader's log (only recovery truncates a log), the count
    /// goes down by one, and a ready slot nobody references becomes free.
    /// Fails when `x` is not a reference its reader holds.
    pub fn release(&mut self, x: SampleRef) -> (res: Result<(), Error>)
        requires
            old(self).wf(),
        ensures
            final(self).wf(),
            res is Ok <==> old(self)@.valid_reader(x.reader as int) && old(self)@.valid_slot(
                x.slot as int,
            ) && old(self)@.holds(x.reader as int, x.slot as int) == 1 && old(self)@.slots[x.slot as int].sequence
                == x.sequence,
            res is Ok ==> {
                let (m, f, r, s) = (old(self)@, final(self)@, x.reader as int, x.slot as int);
                &&& f.slots == m.slots.update(
                    s,
                    SlotHeader {
                        state: if m.slots[s].ref_count == 1 {
                            SlotState::Free
                        } else {
                            SlotState::Ready
                        },
                        ref_count: (m.slots[s].ref_count - 1) as u32,
                        sequence: m.slots[s].sequence,
                    },
                )
                &&& f.payloads == m.payloads
                &&& f.readers.len() == m.readers.len()
                &&& forall|i: int|
                    0 <= i < m.readers.len() && i != r ==> #[trigger] f.readers[i]
                        == m.readers[i]
                &&& f.readers[r].active == m.readers[r].active
                &&& f.readers[r].last_seen == m.readers[r].last_seen
                &&& f.readers[r].held == m.readers[r].held - 1
                &&& f.readers[r].log@ == m.readers[r].log@.push(m.entry(TxOp::Release, s))
                &&& f.cursor == m.cursor
                &&& f.last_sequence == m.last_sequence
                &&& f.lossy == m.lossy
                &&& f.offered == m.offered
                &&& f.qos == m.qos
                &&& f.holds(r, s) == 0
                &&& f.slots[s].ref_count == m.slots[s].ref_count - 1
                &&& forall|t: int| 0 <= t < m.capacity() && t != s ==> #[trigger] f.holds(r, t) == m.holds(r, t)
            },
            res matches Err(e) ==> e == Error::Fail && final(self)@ == old(self)@,
    {
        let r = x.reader;
        let s = x.slot;
        if r >= self.readers.len() || s >= self.slots.len() {
            return Err(Error::Fail);
        }
        if self.log_net(r, s, Ghost(self@)) != 1 || self.slots[s].sequence != x.sequence {
            return Err(Error::Fail);
        }
        let ghost m = self@;
        let ghost ml = m.readers[r as int].log@;
        let n = self.slots.len();
        let h = self.slots[s];
        proof {
            assert(m.valid_slot(s as int));
            assert(m.valid_reader(r as int));
            assert(m.holds(r as int, s as int) == 1);
            assert forall|i: int| 0 <= i < m.readers.len() implies 0 <= #[trigger] net(
                m.readers[i].log@,
                s as int,
            ) <= 1 by {
                assert(m.holds(i, s as int) == net(m.readers[i].log@, s as int));
            }
            lemma_held_bound(m.readers, s as int);
            assert(held(m.readers, s as int) >= 1) by {
                if held(m.readers, s as int) == 0 {
                    lemma_held_zero_each(m.readers, s as int);
                }
            }
            assert forall|i: int| 0 <= i < ml.len() implies #[trigger] ml[i].slot < n by {
                assert(m.valid_slot(ml[i].slot as int));
            }
            lemma_balance_is_sum(ml, n as int);
            assert forall|u: int| 0 <= u < n implies 0 <= #[trigger] net(ml, u) <= 1 by {
                assert(m.holds(r as int, u) == net(ml, u));
            }
            if net_below(ml, n as int) == 0 {
                lemma_zero_sum(ml, n as int, s as int);
            }
        }
        let state = if h.ref_count == 1 {
            SlotState::Free
        } else {
            SlotState::Ready
        };
        self.slots.set(
            s,
            SlotHeader { state, ref_count: h.ref_count - 1, sequence: h.sequence },
        );
        let e = TxEntry { op: TxOp::Release, slot: s, sequence: h.sequence };
        self.readers[r].log.push(e);
        self.readers[r].held = self.readers[r].held - 1;
        proof {
            let f = self@;
            let fl = f.readers[r as int].log@;
            assert(m.readers.update(r as int, f.readers[r as int]) =~= f.readers);
            lemma_net_push(ml, e, 0);
            assert forall|u: int| 0 <= u < n implies #[trigger] net(fl, u) == net(ml, u) + entry_delta(e, u) by {
                lemma_net_push(ml, e, u);
            }
            assert forall|u: int| #[trigger] f.valid_slot(u) implies f.slots[u].ref_count == held(
                f.readers,
                u,
            ) + f.writing_bit(u) by {
                assert(m.valid_slot(u));
                lemma_held_update(m.readers, r as int, f.readers[r as int], u);
            }
            assert forall|u: int| #[trigger]
                f.valid_slot(u) && f.slots[u].state == SlotState::Ready implies {
                &&& f.payloads[u] is Some
                &&& 1 <= f.slots[u].sequence <= f.last_sequence
            } by {
                assert(m.valid_slot(u));
            }
            assert forall|i: int| #[trigger] f.valid_reader(i) implies {
                &&& balance(f.readers[i].log@) == f.readers[i].held
                &&& f.readers[i].last_seen <= f.last_sequence
                &&& (!f.readers[i].active ==> f.readers[i].log@.len() == 0)
                &&& forall|k: int|
                    0 <= k < f.readers[i].log@.len() ==> f.valid_slot(
                        #[trigger] f.readers[i].log@[k].slot as int,
                    )
            } by {
                assert(m.valid_reader(i));
                if i == r {
                    assert forall|k: int| 0 <= k < f.readers[i].log@.len() implies f.valid_slot(
                        #[trigger] f.readers[i].log@[k].slot as int,
                    ) by {
                        if k < ml.len() {
                            assert(f.readers[i].log@[k] == ml[k]);
                            assert(m.valid_slot(ml[k].slot as int));
                        }
                    }
                } else {
                    assert(f.readers[i] == m.readers[i]);
                }
            }
            assert forall|i: int, u: int| f.valid_reader(i) && f.valid_slot(u) implies {
                let hh = #[trigger] f.holds(i, u);
                &&& 0 <= hh <= 1
                &&& hh == 1 ==> f.slots[u].state == SlotState::Ready
                &&& hh == 1 ==> f.slots[u].sequence <= f.readers[i].last_seen
            } by {
                assert(m.valid_reader(i) && m.valid_slot(u));
                if i == r {
                    assert(m.holds(r as int, u) == net(ml, u));
                    if u == s {
                        assert(f.holds(i, u) == 0);
                    }
                } else {
                    assert(f.readers[i] == m.readers[i]);
                    assert(f.holds(i, u) == m.holds(i, u));
                    if u == s && f.holds(i, u) == 1 {
                        // two readers hold the slot, so its count stays above zero
                        lemma_held_two(m.readers, s as int, r as int, i);
                    }
                }
            }
        }
        Ok(())
    }

    /// Crash recovery for reader `r`, whose subscriber is gone: every slot's
    /// count loses what the reader's log still holds on it, the log is
    /// truncated and handed back for a new subscriber. Slot states are left
    /// alone, so ready samples stay available to the others. Running it again
    /// changes nothing more.
    pub fn recover(&mut self, r: usize)
        requires
            old(self).wf(),
            old(self)@.valid_reader(r as int),
        ensures
            final(self).wf(),
            recover_post(old(self)@, final(self)@, r as int),
    {
        let ghost m = self@;
        let n = self.slots.len();
        let mut t: usize = 0;
        while t < n
            invariant
                old(self)@ == m,
                m.inv(),
                n == m.capacity(),
                t <= n,
                self@.readers == m.readers,
                self@.payloads == m.payloads,
                self@.cursor == m.cursor,
                self@.last_sequence == m.last_sequence,
                self@.lossy == m.lossy,
                self@.offered == m.offered,
                self@.qos == m.qos,
                self@.slots.len() == n,
                m.valid_reader(r as int),
                forall|u: int|
                    0 <= u < n ==> (#[trigger] self@.slots[u]).state == m.slots[u].state
                        && self@.slots[u].sequence == m.slots[u].sequence,
                forall|u: int|
                    0 <= u < t ==> (#[trigger] self@.slots[u]).ref_count == m.slots[u].ref_count
                        - m.holds(r as int, u),
                forall|u: int|
                    t <= u < n ==> (#[trigger] self@.slots[u]).ref_count == m.slots[u].ref_count,
            decreases n - t,
        {
            let ghost cur = self@;
            let held_here = self.log_net(r, t, Ghost(m));
            let h = self.slots[t];
            proof {
                assert(m.valid_slot(t as int));
                assert(m.holds(r as int, t as int) == net(m.readers[r as int].log@, t as int));
                assert forall|i: int| 0 <= i < m.readers.len() implies 0 <= #[trigger] net(
                    m.readers[i].log@,
                    t as int,
                ) <= 1 by {
                    assert(m.holds(i, t as int) == net(m.readers[i].log@, t as int));
                }
                if held_here == 1 {
                    lemma_held_one(m.readers, t as int, r as int);
                }
            }
            self.slots.set(
                t,
                SlotHeader {
                    state: h.state,
                    ref_count: h.ref_count - held_here as u32,
                    sequence: h.sequence,
                },
            );
            t = t + 1;
        }
        self.readers.set(r, ReaderState { active: false, last_seen: 0, held: 0, log: Vec::new() });
        proof {
            let f = self@;
            assert(m.readers.update(r as int, f.readers[r as int]) =~= f.readers);
            assert forall|u: int| #[trigger] f.valid_slot(u) implies f.slots[u].ref_count == held(
                f.readers,
                u,
            ) + f.writing_bit(u) by {
                assert(m.valid_slot(u));
                lemma_held_update(m.readers, r as int, f.readers[r as int], u);
            }
            self.lemma_inv_after_reader_change(m, r as int);
        }
    }

    /// Acquisitions minus releases of slot `s` in the log of reader `r`;
    /// `m` is any valid state with the same logs, as during recovery, when
    /// the slot headers are being rewritten.
    fn log_net(&self, r: usize, s: usize, m: Ghost<BufferModel<T>>) -> (n: usize)
        requires
            m@.inv(),
            self@.readers == m@.readers,
            m@.valid_reader(r as int),
            m@.valid_slot(s as int),
        ensures
            n == m@.holds(r as int, s as int),
    {
        let ghost log = self@.readers[r as int].log@;
        let len = self.readers[r].log.len();
        let mut acq: usize = 0;
        let mut rel: usize = 0;
        let mut i: usize = 0;
        while i < len
            invariant
                self@.readers == m@.readers,
                m@.valid_reader(r as int),
                log == self@.readers[r as int].log@,
                len == log.len(),
                i <= len,
                acq <= i,
                rel <= i,
                acq - rel == net(log.subrange(0, i as int), s as int),
            decreases len - i,
        {
            let e = self.readers[r].log[i];
            assert(log.subrange(0, i + 1).drop_last() =~= log.subrange(0, i as int));
            if e.slot == s {
                match e.op {
                    TxOp::Acquire => {
                        acq = acq + 1;
                    },
                    TxOp::Release => {
                        rel = rel + 1;
                    },
                }
            }
            i = i + 1;
        }
        assert(log.subrange(0, len as int) =~= log);
        assert(m@.holds(r as int, s as int) >= 0);
        acq - rel
    }

    /// The payload that `x` refers to, while its reader holds it.
    pub fn value(&self, x: &SampleRef) -> (v: Option<&T>)
        requires
            self.wf(),
        ensures
            v is Some <==> self@.valid_reader(x.reader as int) && self@.valid_slot(x.slot as int)
                && self@.holds(x.reader as int, x.slot as int) == 1,
            v matches Some(p) ==> self@.payloads[x.slot as int] == Some(*p),
    {
        if x.reader >= self.readers.len() || x.slot >= self.slots.len() {
            return None;
        }
        if self.log_net(x.reader, x.slot, Ghost(self@)) != 1 {
            return None;
        }
        proof {
            assert(self@.valid_slot(x.slot as int));
        }
        match &self.payloads[x.slot] {
            Some(p) => Some(p),
            None => None,
        }
    }

    /// Number of slots.
    pub fn capacity(&self) -> (n: usize)
        ensures
            n == self@.capacity(),
    {
        self.slots.len()
    }

    /// Number of transaction logs, one per subscriber that may attach.
    pub fn max_subscribers(&self) -> (n: usize)
        ensures
            n == self@.readers.len(),
    {
        self.readers.len()
    }

    /// Whether allocation takes back the oldest unreferenced ready slot
    /// when no slot is free.
    pub fn is_lossy(&self) -> (b: bool)
        ensures
            b == self@.lossy,
    {
        self.lossy
    }

    /// Whether the event is currently offered.
    pub fn is_offered(&self) -> (b: bool)
        ensures
            b == self@.offered,
    {
        self.offered
    }

    /// Sets the offered flag of the control block.
    pub fn set_offered(&mut self, offered: bool)
        requires
            old(self).wf(),
        ensures
            final(self).wf(),
            final(self)@ == (BufferModel { offered, ..old(self)@ }),
    {
        let ghost m = self@;
        self.offered = offered;
        proof {
            lemma_inv_flags(m, self@);
        }
    }

    /// The integrity class of the producer of this event.
    pub fn qos(&self) -> (q: QosClass)
        ensures
            q == self@.qos,
    {
        self.qos
    }

    /// Sets the integrity class of the producer of this event.
    pub fn set_qos(&mut self, qos: QosClass)
        requires
            old(self).wf(),
        ensures
            final(self).wf(),
            final(self)@ == (BufferModel { qos, ..old(self)@ }),
    {
        let ghost m = self@;
        self.qos = qos;
        proof {
            lemma_inv_flags(m, self@);
        }
    }

    /// The sequence number given to the newest published sample.
    pub fn last_sequence(&self) -> (q: u64)
        ensures
            q == self@.last_sequence,
    {
        self.last_sequence
    }

    /// The header of slot `s`.
    pub fn header(&self, s: usize) -> (h: Option<SlotHeader>)
        ensures
            h is Some <==> self@.valid_slot(s as int),
            h matches Some(x) ==> x == self@.slots[s as int],
    {
        if s < self.slots.len() {
            Some(self.slots[s])
        } else {
            None
        }
    }

    /// Whether reader `r` exists and is claimed by a subscriber.
    pub fn is_attached(&self, r: usize) -> (b: bool)
        ensures
            b == (self@.valid_reader(r as int) && self@.readers[r as int].active),
    {
        r < self.readers.len() && self.readers[r].active
    }

    /// Sequence of the newest sample reader `r` acquired, 0 before the first.
    pub fn last_seen(&self, r: usize) -> (q: Option<u64>)
        ensures
            q is Some <==> self@.valid_reader(r as int),
            q matches Some(v) ==> v == self@.readers[r as int].last_seen,
    {
        if r < self.readers.len() {
            Some(self.readers[r].last_seen)
        } else {
            None
        }
    }

    /// Publishes the slot of `a` with `value` under the next sequence number,
    /// and moves the writer cursor past it.
    pub fn publish(&mut self, a: Allocatee, value: T) -> (r: Result<u64, Error>)
        requires
            old(self).wf(),
        ensures
            final(self).wf(),
            r is Ok <==> old(self)@.valid_slot(a.index()) && old(self)@.slots[a.index()].state
                == SlotState::Writing && old(self)@.last_sequence < u64::MAX,
            r matches Ok(q) ==> q == old(self)@.last_sequence + 1 && final(self)@
                == old(self)@.publish_post(a.index(), value),
            r matches Err(e) ==> e == Error::Fail && final(self)@ == old(self)@,
    {
        let s = a.slot;
        if s >= self.slots.len() || self.slots[s].state != SlotState::Writing
            || self.last_sequence == u64::MAX {
            return Err(Error::Fail);
        }
        let ghost m = self@;
        proof {
            assert forall|r: int| 0 <= r < m.readers.len() implies #[trigger] net(
                m.readers[r].log@,
                s as int,
            ) == 0 by {
                assert(m.holds(r, s as int) == net(m.readers[r].log@, s as int));
            }
            lemma_held_zero_nets(m.readers, s as int);
        }
        let q = self.last_sequence + 1;
        self.slots.set(s, SlotHeader { state: SlotState::Ready, ref_count: 0, sequence: q });
        self.payloads.set(s, Some(value));
        self.last_sequence = q;
        self.cursor = if s + 1 < self.slots.len() {
            s + 1
        } else {
            0
        };
        proof {
            let f = self@;
            assert(f == m.publish_post(s as int, value));
            assert forall|u: int, w: int|
                f.valid_slot(u) && f.valid_slot(w) && u != w && #[trigger] f.slots[u].state
                    == SlotState::Ready && #[trigger] f.slots[w].state == SlotState::Ready
                    implies f.slots[u].sequence != f.slots[w].sequence by {
                assert(m.valid_slot(u) && m.valid_slot(w));
            }
            assert forall|t: int| #[trigger] f.valid_slot(t) implies f.slots[t].ref_count == held(
                f.readers,
                t,
            ) + f.writing_bit(t) by {
                assert(m.valid_slot(t));
            }
            assert(f.inv_counts());
            assert forall|t: int| #[trigger]
                f.valid_slot(t) && f.slots[t].state == SlotState::Ready implies {
                &&& f.payloads[t] is Some
                &&& 1 <= f.slots[t].sequence <= f.last_sequence
            } by {
                assert(m.valid_slot(t));
            }
            assert forall|r: int| #[trigger] f.valid_reader(r) implies {
                &&& balance(f.readers[r].log@) == f.readers[r].held
                &&& f.readers[r].last_seen <= f.last_sequence
                &&& (!f.readers[r].active ==> f.readers[r].log@.len() == 0)
                &&& forall|i: int|
                    0 <= i < f.readers[r].log@.len() ==> f.valid_slot(
                        #[trigger] f.readers[r].log@[i].slot as int,
                    )
            } by {
                assert(m.valid_reader(r));
                assert forall|i: int| 0 <= i < f.readers[r].log@.len() implies f.valid_slot(
                    #[trigger] f.readers[r].log@[i].slot as int,
                ) by {
                    assert(m.valid_slot(m.readers[r].log@[i].slot as int));
                }
            }
            assert forall|r: int, t: int| f.valid_reader(r) && f.valid_slot(t) implies {
                let h = #[trigger] f.holds(r, t);
                &&& 0 <= h <= 1
                &&& h == 1 ==> f.slots[t].state == SlotState::Ready
                &&& h == 1 ==> f.slots[t].sequence <= f.readers[r].last_seen
            } by {
                assert(m.valid_reader(r) && m.valid_slot(t));
                assert(f.holds(r, t) == m.holds(r, t));
            }
        }
        Ok(q)
    }

    /// Publishes a written sample: its value under the next sequence number.
    pub fn publish_sample(&mut self, sample: SampleMut<T>) -> (r: Result<u64, Error>)
        requires
            old(self).wf(),
        ensures
            final(self).wf(),
            r is Ok <==> old(self)@.valid_slot(sample.slot()) && old(self)@.slots[sample.slot()].state
                == SlotState::Writing && old(self)@.last_sequence < u64::MAX,
            r matches Ok(q) ==> q == old(self)@.last_sequence + 1 && final(self)@
                == old(self)@.publish_post(sample.slot(), sample.value()),
            r matches Err(e) ==> e == Error::Fail && final(self)@ == old(self)@,
    {
        let SampleMut { slot, value } = sample;
        self.publish(Allocatee { slot }, value)
    }

    /// Gives the slot of `a` back unpublished: `Writing` becomes `Free`.
    pub fn discard(&mut self, a: Allocatee) -> (r: Result<(), Error>)
        requires
            old(self).wf(),
        ensures
            final(self).wf(),
            r is Ok <==> old(self)@.valid_slot(a.index()) && old(self)@.slots[a.index()].state
                == SlotState::Writing,
            r is Ok ==> final(self)@ == old(self)@.discard_post(a.index()),
            r matches Err(e) ==> e == Error::Fail && final(self)@ == old(self)@,
    {
        let s = a.slot;
        if s >= self.slots.len() || self.slots[s].state != SlotState::Writing {
            return Err(Error::Fail);
        }
        let ghost m = self@;
        proof {
            assert forall|r: int| 0 <= r < m.readers.len() implies #[trigger] net(
                m.readers[r].log@,
                s as int,
            ) == 0 by {
                assert(m.holds(r, s as int) == net(m.readers[r].log@, s as int));
            }
            lemma_held_zero_nets(m.readers, s as int);
        }
        let seq = self.slots[s].sequence;
        self.slots.set(s, SlotHeader { state: SlotState::Free, ref_count: 0, sequence: seq });
        proof {
            let f = self@;
            assert(f == m.discard_post(s as int));
            assert forall|t: int| #[trigger] f.valid_slot(t) implies f.slots[t].ref_count == held(
                f.readers,
                t,
            ) + f.writing_bit(t) by {
                assert(m.valid_slot(t));
            }
            assert(f.inv_counts());
            assert forall|t: int| #[trigger]
                f.valid_slot(t) && f.slots[t].state == SlotState::Ready implies {
                &&& f.payloads[t] is Some
                &&& 1 <= f.slots[t].sequence <= f.last_sequence
            } by {
                assert(m.valid_slot(t));
            }
            assert forall|r: int| #[trigger] f.valid_reader(r) implies {
                &&& balance(f.readers[r].log@) == f.readers[r].held
                &&& f.readers[r].last_seen <= f.last_sequence
                &&& (!f.readers[r].active ==> f.readers[r].log@.len() == 0)
                &&& forall|i: int|
                    0 <= i < f.readers[r].log@.len() ==> f.valid_slot(
                        #[trigger] f.readers[r].log@[i].slot as int,
                    )
            } by {
                assert(m.valid_reader(r));
                assert forall|i: int| 0 <= i < f.readers[r].log@.len() implies f.valid_slot(
                    #[trigger] f.readers[r].log@[i].slot as int,
                ) by {
                    assert(m.valid_slot(m.readers[r].log@[i].slot as int));
                }
            }
            assert forall|r: int, t: int| f.valid_reader(r) && f.valid_slot(t) implies {
                let h = #[trigger] f.holds(r, t);
                &&& 0 <= h <= 1
                &&& h == 1 ==> f.slots[t].state == SlotState::Ready
                &&& h == 1 ==> f.slots[t].sequence <= f.readers[r].last_seen
            } by {
                assert(m.valid_reader(r) && m.valid_slot(t));
                assert(f.holds(r, t) == m.holds(r, t));
            }
        }
        Ok(())
    }
}

} // verus!
