//! The service registry: which instances of which interfaces are offered,
//! under which offer epoch, and the handles discovery hands out for them.
use vstd::prelude::*;

use crate::error::Error;
use crate::instance::{FindServiceSpecifier, InstanceSpecifier};

verus! {

/// Designates one offering of an instance: interface, instance path and
/// offer epoch. Two handles are equal when they designate the same offering.
#[derive(Clone, Debug)]
pub struct ServiceHandle {
    interface_id: String,
    instance: String,
    epoch: u64,
}

/// Mathematical model of a handle.
pub struct HandleModel {
    pub interface_id: Seq<char>,
    pub instance: Seq<char>,
    pub epoch: u64,
}

impl View for ServiceHandle {
    type V = HandleModel;

    closed spec fn view(&self) -> HandleModel {
        HandleModel { interface_id: self.interface_id@, instance: self.instance@, epoch: self.epoch }
    }
}

impl PartialEq for ServiceHandle {
    fn eq(&self, other: &ServiceHandle) -> (r: bool)
        ensures
            r == (self@ == other@),
    {
        self.epoch == other.epoch && self.interface_id == other.interface_id && self.instance
            == other.instance
    }
}

impl vstd::std_specs::cmp::PartialEqSpecImpl for ServiceHandle {
    open spec fn obeys_eq_spec() -> bool {
        true
    }

    open spec fn eq_spec(&self, other: &ServiceHandle) -> bool {
        self@ == other@
    }
}

impl ServiceHandle {
    /// The interface the offering belongs to.
    pub fn interface_id(&self) -> (r: &str)
        ensures
            r@ == self@.interface_id,
    {
        self.interface_id.as_str()
    }

    /// The instance path of the offering.
    pub fn instance(&self) -> (r: &str)
        ensures
            r@ == self@.instance,
    {
        self.instance.as_str()
    }

    /// The offer epoch.
    pub fn epoch(&self) -> (r: u64)
        ensures
            r == self@.epoch,
    {
        self.epoch
    }

    /// A copy of the handle.
    pub fn clone_handle(&self) -> (r: ServiceHandle)
        ensures
            r@ == self@,
    {
        ServiceHandle { interface_id: self.interface_id.clone(), instance: self.instance.clone(), epoch: self.epoch }
    }
}

/// One entry of the discovery table.
#[derive(Debug)]
pub struct OfferRecord {
    pub interface_id: String,
    pub instance: String,
    pub epoch: u64,
    pub alive: bool,
}

/// Mathematical model of a discovery-table entry.
pub struct RecordModel {
    pub interface_id: Seq<char>,
    pub instance: Seq<char>,
    pub epoch: u64,
    pub alive: bool,
}

pub open spec fn record_model(r: OfferRecord) -> RecordModel {
    RecordModel {
        interface_id: r.interface_id@,
        instance: r.instance@,
        epoch: r.epoch,
        alive: r.alive,
    }
}

/// Entry `e` answers a discovery for `interface_id` and `wanted`.
pub open spec fn selects(e: RecordModel, interface_id: Seq<char>, wanted: Option<Seq<char>>) -> bool {
    &&& e.alive
    &&& e.interface_id == interface_id
    &&& match wanted {
        Some(i) => e.instance == i,
        None => true,
    }
}

pub open spec fn handle_of(e: RecordModel) -> HandleModel {
    HandleModel { interface_id: e.interface_id, instance: e.instance, epoch: e.epoch }
}

/// The handles a discovery returns: one per selected entry, in table order.
pub open spec fn found(
    table: Seq<RecordModel>,
    interface_id: Seq<char>,
    wanted: Option<Seq<char>>,
) -> Seq<HandleModel>
    decreases table.len(),
{
    if table.len() == 0 {
        Seq::empty()
    } else {
        let prev = found(table.drop_last(), interface_id, wanted);
        if selects(table.last(), interface_id, wanted) {
            prev.push(handle_of(table.last()))
        } else {
            prev
        }
    }
}

/// Index of the entry for `(interface_id, instance)`, if the table has one.
pub open spec fn entry_of(table: Seq<RecordModel>, interface_id: Seq<char>, instance: Seq<char>, i: int) -> bool {
    &&& 0 <= i < table.len()
    &&& table[i].interface_id == interface_id
    &&& table[i].instance == instance
}

/// The per-process registry of offered instances.
#[derive(Debug)]
pub struct ServiceRegistry {
    records: Vec<OfferRecord>,
    last_epoch: u64,
}

/// Mathematical model of the registry.
pub struct RegistryModel {
    pub table: Seq<RecordModel>,
    pub last_epoch: u64,
}

impl View for ServiceRegistry {
    type V = RegistryModel;

    closed spec fn view(&self) -> RegistryModel {
        RegistryModel {
            table: self.records@.map_values(|r: OfferRecord| record_model(r)),
            last_epoch: self.last_epoch,
        }
    }
}

/// Two entries are for the same `(interface, instance)` pair.
pub open spec fn same_key(a: RecordModel, b: RecordModel) -> bool {
    a.interface_id == b.interface_id && a.instance == b.instance
}

impl RegistryModel {
    /// Each `(interface, instance)` pair has at most one entry, and every
    /// epoch in the table was issued.
    pub open spec fn inv(self) -> bool {
        &&& forall|i: int, j: int|
            0 <= i < j < self.table.len() ==> !same_key(
                #[trigger] self.table[i],
                #[trigger] self.table[j],
            )
        &&& forall|i: int|
            0 <= i < self.table.len() ==> 1 <= (#[trigger] self.table[i]).epoch <= self.last_epoch
    }

    /// The offering `h` designates is live.
    pub open spec fn live(self, h: HandleModel) -> bool {
        exists|i: int|
            entry_of(self.table, h.interface_id, h.instance, i) && #[trigger] self.table[i].alive
                && self.table[i].epoch == h.epoch
    }

    pub open spec fn offered(self, interface_id: Seq<char>, instance: Seq<char>) -> bool {
        exists|i: int|
            entry_of(self.table, interface_id, instance, i) && #[trigger] self.table[i].alive
    }
}

/// A pair has at most one entry.
proof fn lemma_unique_entry(m: RegistryModel, interface_id: Seq<char>, instance: Seq<char>, i: int, j: int)
    requires
        m.inv(),
        entry_of(m.table, interface_id, instance, i),
        entry_of(m.table, interface_id, instance, j),
    ensures
        i == j,
{
    if i < j {
        assert(!same_key(m.table[i], m.table[j]));
    } else if j < i {
        assert(!same_key(m.table[j], m.table[i]));
    }
}

/// Replacing an entry by one with the same pair and an issued epoch keeps
/// the invariant.
proof fn lemma_update_keeps_inv(m: RegistryModel, f: RegistryModel, i: int, rec: RecordModel)
    requires
        m.inv(),
        0 <= i < m.table.len(),
        same_key(rec, m.table[i]),
        f.table == m.table.update(i, rec),
        1 <= rec.epoch <= f.last_epoch,
        m.last_epoch <= f.last_epoch,
    ensures
        f.inv(),
{
    assert forall|a: int, b: int| 0 <= a < b < f.table.len() implies !same_key(
        #[trigger] f.table[a],
        #[trigger] f.table[b],
    ) by {
        assert(!same_key(m.table[a], m.table[b]));
    }
    assert forall|a: int| 0 <= a < f.table.len() implies 1 <= (#[trigger] f.table[a]).epoch
        <= f.last_epoch by {
        if a != i {
            assert(f.table[a] == m.table[a]);
        }
    }
}

impl ServiceRegistry {
    pub open spec fn wf(&self) -> bool {
        self@.inv()
    }

    /// An empty registry.
    pub fn new() -> (r: ServiceRegistry)
        ensures
            r.wf(),
            r@.table.len() == 0,
            r@.last_epoch == 0,
    {
        let r = ServiceRegistry { records: Vec::new(), last_epoch: 0 };
        assert(r@.table =~= Seq::<RecordModel>::empty());
        r
    }

    /// Position of the entry for `(interface_id, instance)`.
    fn position(&self, interface_id: &String, instance: &String) -> (p: Option<usize>)
        requires
            self.wf(),
        ensures
            p matches Some(i) ==> entry_of(self@.table, interface_id@, instance@, i as int)
                && self@.table[i as int] == record_model(self.records@[i as int]),
            p is None ==> forall|i: int| !#[trigger] entry_of(self@.table, interface_id@, instance@, i),
    {
        let mut i: usize = 0;
        while i < self.records.len()
            invariant
                i <= self.records@.len(),
                forall|j: int|
                    0 <= j < i ==> !#[trigger] entry_of(self@.table, interface_id@, instance@, j),
            decreases self.records@.len() - i,
        {
            let rec = &self.records[i];
            if rec.interface_id == *interface_id && rec.instance == *instance {
                return Some(i);
            }
            i = i + 1;
        }
        None
    }

    /// Offers `instance` of `interface_id` under a new epoch and returns its
    /// handle. Fails with `Fail` when it is already offered or the epochs
    /// are used up.
    pub fn offer(&mut self, interface_id: &str, instance: &InstanceSpecifier) -> (res: Result<
        ServiceHandle,
        Error,
    >)
        requires
            old(self).wf(),
        ensures
            final(self).wf(),
            res is Ok <==> !old(self)@.offered(interface_id@, instance@) && old(self)@.last_epoch
                < u64::MAX,
            res matches Err(e) ==> e == Error::Fail && final(self)@ == old(self)@,
            res matches Ok(h) ==> final(self)@.live(h@),
            res matches Ok(h) ==> {
                let (m, f) = (old(self)@, final(self)@);
                let rec = RecordModel {
                    interface_id: interface_id@,
                    instance: instance@,
                    epoch: h@.epoch,
                    alive: true,
                };
                &&& h@ == handle_of(rec)
                &&& h@.epoch == m.last_epoch + 1
                &&& f.last_epoch == h@.epoch
                &&& (exists|i: int| entry_of(m.table, interface_id@, instance@, i)) ==> exists|i: int|
                    entry_of(m.table, interface_id@, instance@, i) && f.table == m.table.update(i, rec)
                &&& (forall|i: int| !#[trigger] entry_of(m.table, interface_id@, instance@, i))
                    ==> f.table == m.table.push(rec)
            },
    {
        let iface = interface_id.to_string();
        let inst = instance.to_text();
        if self.last_epoch == u64::MAX {
            return Err(Error::Fail);
        }
        let ghost m = self@;
        let epoch = self.last_epoch + 1;
        let rec = OfferRecord {
            interface_id: iface.clone(),
            instance: inst.clone(),
            epoch,
            alive: true,
        };
        match self.position(&iface, &inst) {
            Some(i) => {
                if self.records[i].alive {
                    assert(m.table[i as int].alive);
                    return Err(Error::Fail);
                }
                proof {
                    assert forall|j: int| entry_of(m.table, interface_id@, instance@, j) implies j
                        == i by {
                        lemma_unique_entry(m, interface_id@, instance@, i as int, j);
                    }
                }
                self.records.set(i, rec);
                self.last_epoch = epoch;
                proof {
                    assert(self@.table =~= m.table.update(i as int, record_model(rec)));
                    lemma_update_keeps_inv(m, self@, i as int, record_model(rec));
                    assert(entry_of(self@.table, interface_id@, instance@, i as int)
                        && self@.table[i as int].alive && self@.table[i as int].epoch == epoch);
                }
            },
            None => {
                self.records.push(rec);
                self.last_epoch = epoch;
                proof {
                    let f = self@;
                    assert(f.table =~= m.table.push(record_model(rec)));
                    assert forall|a: int, b: int| 0 <= a < b < f.table.len() implies !same_key(
                        #[trigger] f.table[a],
                        #[trigger] f.table[b],
                    ) by {
                        if b < m.table.len() {
                            assert(!same_key(m.table[a], m.table[b]));
                        } else {
                            assert(!entry_of(m.table, interface_id@, instance@, a));
                        }
                    }
                    assert forall|a: int| 0 <= a < f.table.len() implies 1 <= (
                    #[trigger] f.table[a]).epoch <= f.last_epoch by {
                        if a < m.table.len() {
                            assert(f.table[a] == m.table[a]);
                        }
                    }
                    let k = m.table.len() as int;
                    assert(entry_of(f.table, interface_id@, instance@, k) && f.table[k].alive
                        && f.table[k].epoch == epoch);
                }
            },
        }
        Ok(ServiceHandle { interface_id: iface, instance: inst, epoch })
    }

    /// Withdraws the offering that `handle` designates. Fails with `Fail`
    /// when that offering is not live.
    pub fn stop_offer(&mut self, handle: &ServiceHandle) -> (res: Result<(), Error>)
        requires
            old(self).wf(),
        ensures
            final(self).wf(),
            res is Ok <==> old(self)@.live(handle@),
            !final(self)@.live(handle@),
            final(self)@.last_epoch == old(self)@.last_epoch,
            final(self)@.table.len() == old(self)@.table.len(),
            forall|j: int|
                0 <= j < old(self)@.table.len() && !entry_of(
                    old(self)@.table,
                    handle@.interface_id,
                    handle@.instance,
                    j,
                ) ==> #[trigger] final(self)@.table[j] == old(self)@.table[j],
            res matches Err(e) ==> e == Error::Fail && final(self)@ == old(self)@,
            res is Ok ==> exists|i: int|
                entry_of(old(self)@.table, handle@.interface_id, handle@.instance, i)
                    && final(self)@ == (RegistryModel {
                    table: old(self)@.table.update(
                        i,
                        RecordModel { alive: false, ..old(self)@.table[i] },
                    ),
                    ..old(self)@
                }),
    {
        let ghost m = self@;
        let ghost (key_i, key_n) = (handle@.interface_id, handle@.instance);
        match self.position(&handle.interface_id, &handle.instance) {
            Some(i) => {
                proof {
                    assert forall|j: int| entry_of(m.table, key_i, key_n, j) implies j == i by {
                        lemma_unique_entry(m, key_i, key_n, i as int, j);
                    }
                }
                if !self.records[i].alive || self.records[i].epoch != handle.epoch {
                    return Err(Error::Fail);
                }
                let old_rec = &self.records[i];
                let rec = OfferRecord {
                    interface_id: old_rec.interface_id.clone(),
                    instance: old_rec.instance.clone(),
                    epoch: old_rec.epoch,
                    alive: false,
                };
                self.records.set(i, rec);
                proof {
                    let f = self@;
                    assert(f.table =~= m.table.update(
                        i as int,
                        RecordModel { alive: false, ..m.table[i as int] },
                    ));
                    lemma_update_keeps_inv(m, f, i as int, record_model(rec));
                    assert(m.table[i as int].alive && m.table[i as int].epoch == handle@.epoch);
                }
                Ok(())
            },
            None => Err(Error::Fail),
        }
    }

    /// Whether the offering that `handle` designates is live.
    pub fn is_offered(&self, handle: &ServiceHandle) -> (r: bool)
        requires
            self.wf(),
        ensures
            r == self@.live(handle@),
    {
        let ghost (key_i, key_n) = (handle@.interface_id, handle@.instance);
        match self.position(&handle.interface_id, &handle.instance) {
            Some(i) => {
                proof {
                    assert forall|j: int| entry_of(self@.table, key_i, key_n, j) implies j == i by {
                        lemma_unique_entry(self@, key_i, key_n, i as int, j);
                    }
                }
                let r = self.records[i].alive && self.records[i].epoch == handle.epoch;
                assert(r ==> self@.table[i as int].alive);
                r
            },
            None => false,
        }
    }

    /// Handles of the live offerings of `interface_id` that `query` asks
    /// for, in table order; empty when there are none.
    pub fn find_service(&self, interface_id: &str, query: &FindServiceSpecifier) -> (r: Vec<ServiceHandle>)
        requires
            self.wf(),
        ensures
            r@.len() == found(self@.table, interface_id@, query.wanted()).len(),
            forall|i: int|
                0 <= i < r@.len() ==> (#[trigger] r@[i])@ == found(
                    self@.table,
                    interface_id@,
                    query.wanted(),
                )[i],
    {
        let iface = interface_id.to_string();
        let wanted: Option<String> = match query {
            FindServiceSpecifier::Specific(i) => Some(i.to_text()),
            FindServiceSpecifier::Any => None,
        };
        let ghost w: Option<Seq<char>> = match &wanted {
            Some(s) => Some(s@),
            None => None,
        };
        assert(w == query.wanted());
        let mut out: Vec<ServiceHandle> = Vec::new();
        let mut i: usize = 0;
        while i < self.records.len()
            invariant
                i <= self.records@.len(),
                iface@ == interface_id@,
                w == query.wanted(),
                w == match &wanted {
                    Some(s) => Some(s@),
                    None => None::<Seq<char>>,
                },
                out@.len() == found(self@.table.subrange(0, i as int), iface@, w).len(),
                forall|k: int|
                    0 <= k < out@.len() ==> (#[trigger] out@[k])@ == found(
                        self@.table.subrange(0, i as int),
                        iface@,
                        w,
                    )[k],
            decreases self.records@.len() - i,
        {
            let rec = &self.records[i];
            let chosen = rec.alive && rec.interface_id == iface && match &wanted {
                Some(s) => rec.instance == *s,
                None => true,
            };
            let ghost t = self@.table;
            proof {
                assert(t.subrange(0, i + 1).drop_last() =~= t.subrange(0, i as int));
                assert(t.subrange(0, i + 1).last() == t[i as int]);
                assert(t[i as int] == record_model(*rec));
            }
            if chosen {
                out.push(
                    ServiceHandle {
                        interface_id: rec.interface_id.clone(),
                        instance: rec.instance.clone(),
                        epoch: rec.epoch,
                    },
                );
            }
            i = i + 1;
        }
        assert(self@.table.subrange(0, self@.table.len() as int) =~= self@.table);
        out
    }
}

} // verus!
