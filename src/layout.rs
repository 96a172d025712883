//! Layout of a shared-memory region: a fixed header, then one block per
//! event in declaration order — control block, slot headers, payload slots
//! and transaction logs — each part aligned as its type requires. Offsets
//! follow from the configuration alone, so producer and consumer agree.
use vstd::prelude::*;

use vstd::arithmetic::div_mod::{lemma_fundamental_div_mod, lemma_mod_multiples_basic};

verus! {

/// Size and alignment of a type as it is laid out in the region.
#[derive(Debug, Clone, Copy, PartialEq, Eq, Structural)]
pub struct SizeInfo {
    pub size: usize,
    pub align: usize,
}

/// Bytes of the region header.
pub const REGION_HEADER_SIZE: usize = 64;

/// Bytes of an event's control block: writer cursor, offered flag,
/// capacity and QoS mask, four 32-bit words.
pub const CONTROL_BLOCK_SIZE: usize = 16;

/// Alignment of the control block and of the slot headers.
pub const HEADER_ALIGN: usize = 8;

/// Bytes of one slot header: state and two reference counts (32 bits
/// each), padding, and a 64-bit sequence.
pub const SLOT_HEADER_SIZE: usize = 24;

/// The smallest multiple of `a` that is at least `x`.
pub open spec fn aligned_up(x: int, a: int) -> int {
    if x % a == 0 {
        x
    } else {
        x + a - x % a
    }
}

proof fn lemma_aligned_up(x: int, a: int)
    requires
        a > 0,
        x >= 0,
    ensures
        aligned_up(x, a) % a == 0,
        x <= aligned_up(x, a) < x + a,
{
    lemma_fundamental_div_mod(x, a);
    let q = x / a;
    if x % a != 0 {
        assert(aligned_up(x, a) == (q + 1) * a) by (nonlinear_arith)
            requires
                x == a * q + x % a,
                aligned_up(x, a) == x + a - x % a,
        ;
        lemma_mod_multiples_basic(q + 1, a);
    }
}

/// Rounds `x` up to a multiple of `a`; `None` when that does not fit.
pub fn align_up(x: usize, a: usize) -> (r: Option<usize>)
    requires
        a > 0,
    ensures
        r is Some <==> aligned_up(x as int, a as int) <= usize::MAX,
        r matches Some(v) ==> v == aligned_up(x as int, a as int),
{
    let rem = x % a;
    if rem == 0 {
        Some(x)
    } else if x > usize::MAX - (a - rem) {
        None
    } else {
        Some(x + (a - rem))
    }
}

/// Offsets of one event's parts, and the end of its block.
#[derive(Debug, Clone, Copy, PartialEq, Eq, Structural)]
pub struct EventLayout {
    pub control: usize,
    pub headers: usize,
    pub payloads: usize,
    pub logs: usize,
    pub end: usize,
}

/// What configures one event's block.
#[derive(Debug, Clone, Copy, PartialEq, Eq, Structural)]
pub struct EventShape {
    /// Number of slots.
    pub capacity: usize,
    /// Most subscribers; the block holds one more log, for the producer.
    pub max_subscribers: usize,
    pub payload: SizeInfo,
    /// One transaction log.
    pub log: SizeInfo,
}

/// The layout of an event block that starts at or after `start`, as
/// numbers; `None` when it does not fit in the address space.
pub open spec fn event_layout_spec(start: int, e: EventShape) -> Option<EventLayout> {
    let control = aligned_up(start, HEADER_ALIGN as int);
    let headers = aligned_up(control + CONTROL_BLOCK_SIZE, HEADER_ALIGN as int);
    let payloads = aligned_up(headers + e.capacity * SLOT_HEADER_SIZE, e.payload.align as int);
    let logs = aligned_up(payloads + e.capacity * e.payload.size, e.log.align as int);
    let end = logs + (e.max_subscribers + 1) * e.log.size;
    if end <= usize::MAX {
        Some(
            EventLayout {
                control: control as usize,
                headers: headers as usize,
                payloads: payloads as usize,
                logs: logs as usize,
                end: end as usize,
            },
        )
    } else {
        None
    }
}

pub open spec fn shape_ok(e: EventShape) -> bool {
    e.payload.align > 0 && e.log.align > 0
}

/// Lays out one event block at or after `start`.
pub fn event_layout(start: usize, e: EventShape) -> (r: Option<EventLayout>)
    requires
        shape_ok(e),
    ensures
        r == event_layout_spec(start as int, e),
{
    proof {
        lemma_aligned_up(start as int, HEADER_ALIGN as int);
    }
    let control = match align_up(start, HEADER_ALIGN) {
        Some(v) => v,
        None => {
            return None;
        },
    };
    if control > usize::MAX - CONTROL_BLOCK_SIZE {
        proof {
            lemma_aligned_up(control + CONTROL_BLOCK_SIZE, HEADER_ALIGN as int);
        }
        return None;
    }
    proof {
        lemma_aligned_up(control + CONTROL_BLOCK_SIZE, HEADER_ALIGN as int);
    }
    let headers = match align_up(control + CONTROL_BLOCK_SIZE, HEADER_ALIGN) {
        Some(v) => v,
        None => {
            return None;
        },
    };
    let hbytes = match e.capacity.checked_mul(SLOT_HEADER_SIZE) {
        Some(v) => v,
        None => {
            return None;
        },
    };
    if headers > usize::MAX - hbytes {
        proof {
            lemma_chain_overflow(headers + hbytes, e);
        }
        return None;
    }
    proof {
        lemma_aligned_up(headers + hbytes, e.payload.align as int);
    }
    let payloads = match align_up(headers + hbytes, e.payload.align) {
        Some(v) => v,
        None => {
            proof {
                lemma_chain_overflow2(headers + hbytes, e);
            }
            return None;
        },
    };
    let pbytes = match e.capacity.checked_mul(e.payload.size) {
        Some(v) => v,
        None => {
            proof {
                lemma_tail_overflow(payloads as int, e.capacity * e.payload.size, e);
            }
            return None;
        },
    };
    if payloads > usize::MAX - pbytes {
        proof {
            lemma_tail_overflow(payloads as int, pbytes as int, e);
        }
        return None;
    }
    proof {
        lemma_aligned_up(payloads + pbytes, e.log.align as int);
    }
    let logs = match align_up(payloads + pbytes, e.log.align) {
        Some(v) => v,
        None => {
            proof {
                lemma_log_overflow(payloads + pbytes, e);
            }
            return None;
        },
    };
    let lbytes = if e.log.size == 0 {
        0
    } else {
        let count = match e.max_subscribers.checked_add(1) {
            Some(v) => v,
            None => {
                proof {
                    lemma_end_overflow(logs as int, e);
                }
                return None;
            },
        };
        match count.checked_mul(e.log.size) {
            Some(v) => v,
            None => {
                proof {
                    lemma_end_overflow(logs as int, e);
                }
                return None;
            },
        }
    };
    if logs > usize::MAX - lbytes {
        return None;
    }
    Some(EventLayout { control, headers, payloads, logs, end: logs + lbytes })
}

/// Past the slot headers, every later offset only grows.
proof fn lemma_chain_overflow(h: int, e: EventShape)
    requires
        h > usize::MAX,
        shape_ok(e),
    ensures
        aligned_up(h, e.payload.align as int) > usize::MAX,
{
    lemma_aligned_up(h, e.payload.align as int);
}

proof fn lemma_chain_overflow2(h: int, e: EventShape)
    requires
        h >= 0,
        aligned_up(h, e.payload.align as int) > usize::MAX,
        shape_ok(e),
    ensures
        event_layout_spec_tail_overflows(aligned_up(h, e.payload.align as int), e),
{
    lemma_tail_overflow(aligned_up(h, e.payload.align as int), e.capacity * e.payload.size, e);
}

pub open spec fn event_layout_spec_tail_overflows(payloads: int, e: EventShape) -> bool {
    aligned_up(payloads + e.capacity * e.payload.size, e.log.align as int) + (e.max_subscribers + 1)
        * e.log.size > usize::MAX
}

proof fn lemma_tail_overflow(payloads: int, pbytes: int, e: EventShape)
    requires
        payloads + pbytes > usize::MAX,
        pbytes == e.capacity * e.payload.size,
        shape_ok(e),
    ensures
        event_layout_spec_tail_overflows(payloads, e),
{
    lemma_aligned_up(payloads + pbytes, e.log.align as int);
    assert((e.max_subscribers + 1) * e.log.size >= 0) by (nonlinear_arith);
}

proof fn lemma_log_overflow(p: int, e: EventShape)
    requires
        p >= 0,
        aligned_up(p, e.log.align as int) > usize::MAX,
        shape_ok(e),
    ensures
        aligned_up(p, e.log.align as int) + (e.max_subscribers + 1) * e.log.size > usize::MAX,
{
    assert((e.max_subscribers + 1) * e.log.size >= 0) by (nonlinear_arith);
}

proof fn lemma_end_overflow(logs: int, e: EventShape)
    requires
        logs >= 0,
        e.log.size > 0,
        e.max_subscribers + 1 > usize::MAX || (e.max_subscribers + 1) * e.log.size > usize::MAX,
    ensures
        logs + (e.max_subscribers + 1) * e.log.size > usize::MAX,
{
    if e.max_subscribers + 1 > usize::MAX {
        assert((e.max_subscribers + 1) * e.log.size >= e.max_subscribers + 1) by (nonlinear_arith)
            requires
                e.log.size >= 1,
        ;
    }
}

/// Layouts of the event blocks of a region, in declaration order, after
/// the region header; `None` when they do not fit in the address space.
pub open spec fn region_layout_spec(shapes: Seq<EventShape>) -> Option<Seq<EventLayout>>
    decreases shapes.len(),
{
    if shapes.len() == 0 {
        Some(Seq::empty())
    } else {
        match region_layout_spec(shapes.drop_last()) {
            None => None,
            Some(prev) => {
                let start = if prev.len() == 0 {
                    REGION_HEADER_SIZE as int
                } else {
                    prev.last().end as int
                };
                match event_layout_spec(start, shapes.last()) {
                    None => None,
                    Some(l) => Some(prev.push(l)),
                }
            },
        }
    }
}

proof fn lemma_region_len(shapes: Seq<EventShape>)
    requires
        region_layout_spec(shapes) is Some,
    ensures
        region_layout_spec(shapes)->Some_0.len() == shapes.len(),
    decreases shapes.len(),
{
    if shapes.len() > 0 {
        lemma_region_len(shapes.drop_last());
    }
}

/// A prefix that does not fit makes the whole region not fit.
proof fn lemma_region_none(shapes: Seq<EventShape>, i: int)
    requires
        0 <= i <= shapes.len(),
        region_layout_spec(shapes.subrange(0, i)) is None,
    ensures
        region_layout_spec(shapes) is None,
    decreases shapes.len() - i,
{
    if i < shapes.len() {
        assert(shapes.subrange(0, i + 1).drop_last() =~= shapes.subrange(0, i));
        lemma_region_none(shapes, i + 1);
    } else {
        assert(shapes.subrange(0, i) =~= shapes);
    }
}

/// Lays out the event blocks of a region in declaration order.
pub fn region_layout(shapes: &Vec<EventShape>) -> (r: Option<Vec<EventLayout>>)
    requires
        forall|i: int| 0 <= i < shapes@.len() ==> shape_ok(#[trigger] shapes@[i]),
    ensures
        r is None <==> region_layout_spec(shapes@) is None,
        r matches Some(v) ==> region_layout_spec(shapes@) == Some(v@),
{
    let mut out: Vec<EventLayout> = Vec::new();
    let mut i: usize = 0;
    assert(shapes@.subrange(0, 0) =~= Seq::<EventShape>::empty());
    assert(out@ =~= Seq::<EventLayout>::empty());
    while i < shapes.len()
        invariant
            i <= shapes@.len(),
            forall|j: int| 0 <= j < shapes@.len() ==> shape_ok(#[trigger] shapes@[j]),
            region_layout_spec(shapes@.subrange(0, i as int)) == Some(out@),
        decreases shapes@.len() - i,
    {
        proof {
            lemma_region_len(shapes@.subrange(0, i as int));
            assert(shapes@.subrange(0, i + 1).drop_last() =~= shapes@.subrange(0, i as int));
            assert(shapes@.subrange(0, i + 1).last() == shapes@[i as int]);
        }
        let start = if i == 0 {
            REGION_HEADER_SIZE
        } else {
            out[i - 1].end
        };
        match event_layout(start, shapes[i]) {
            Some(l) => {
                out.push(l);
            },
            None => {
                proof {
                    lemma_region_none(shapes@, i + 1);
                }
                return None;
            },
        }
        i = i + 1;
    }
    assert(shapes@.subrange(0, shapes@.len() as int) =~= shapes@);
    Some(out)
}

} // verus!
