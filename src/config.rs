//! The configuration descriptor: per offered instance and event, the slot
//! parameters the engine is laid out with. A loader outside the core parses
//! the configuration file and fills this table.
use vstd::prelude::*;

use crate::instance::InstanceSpecifier;

verus! {

/// Integrity level of traffic.
#[derive(Debug, Clone, Copy, PartialEq, Eq, Structural)]
pub enum QosClass {
    Qm,
    AsilB,
}

/// Data produced at class `produced` may be read at class `reader`: within
/// a class, or from higher to lower integrity, never the reverse.
pub open spec fn may_read_spec(produced: QosClass, reader: QosClass) -> bool {
    produced == reader || (produced == QosClass::AsilB && reader == QosClass::Qm)
}

pub fn may_read(produced: QosClass, reader: QosClass) -> (r: bool)
    ensures
        r == may_read_spec(produced, reader),
{
    match (produced, reader) {
        (QosClass::Qm, QosClass::AsilB) => false,
        _ => true,
    }
}

/// Runtime parameters of one event.
#[derive(Debug, Clone, Copy, PartialEq, Eq, Structural)]
pub struct SlotParams {
    pub slot_count: usize,
    pub max_subscribers: usize,
    pub qos: QosClass,
    pub lossy: bool,
}

/// One configured event of one instance.
#[derive(Debug)]
pub struct ConfigEntry {
    pub instance: String,
    pub event: String,
    pub params: SlotParams,
}

/// The configured events, by instance and event name.
#[derive(Debug)]
pub struct ServiceConfig {
    entries: Vec<ConfigEntry>,
}

/// Entry `e` configures `event` of `instance`.
pub open spec fn keyed(e: ConfigEntry, instance: Seq<char>, event: Seq<char>) -> bool {
    e.instance@ == instance && e.event@ == event
}

impl ServiceConfig {
    pub closed spec fn entries(&self) -> Seq<ConfigEntry> {
        self.entries@
    }

    /// An empty configuration.
    pub fn new() -> (r: ServiceConfig)
        ensures
            r.entries().len() == 0,
    {
        ServiceConfig { entries: Vec::new() }
    }

    /// Sets the parameters of `event` of `instance`, replacing earlier ones.
    pub fn set(&mut self, instance: &InstanceSpecifier, event: &str, params: SlotParams)
        ensures
            forall|i: int|
                0 <= i < final(self).entries().len() ==> keyed(
                    #[trigger] final(self).entries()[i],
                    instance@,
                    event@,
                ) ==> final(self).entries()[i].params == params,
            exists|i: int|
                0 <= i < final(self).entries().len() && keyed(
                    #[trigger] final(self).entries()[i],
                    instance@,
                    event@,
                ),
            forall|i: int|
                0 <= i < old(self).entries().len() && !keyed(#[trigger] old(self).entries()[i], instance@, event@)
                    ==> exists|j: int|
                    0 <= j < final(self).entries().len() && final(self).entries()[j] == old(self).entries()[i],
    {
        let key_instance = instance.to_text();
        let key_event = event.to_string();
        let ghost m = self.entries@;
        let mut i: usize = 0;
        let mut found = false;
        while i < self.entries.len()
            invariant
                i <= self.entries@.len(),
                self.entries@.len() == m.len(),
                key_instance@ == instance@,
                key_event@ == event@,
                found ==> exists|j: int|
                    0 <= j < self.entries@.len() && keyed(#[trigger] self.entries@[j], instance@, event@),
                forall|j: int|
                    0 <= j < i ==> keyed(#[trigger] self.entries@[j], instance@, event@)
                        ==> self.entries@[j].params == params,
                forall|j: int|
                    0 <= j < self.entries@.len() && !keyed(#[trigger] m[j], instance@, event@)
                        ==> self.entries@[j] == m[j],
                forall|j: int| i <= j < self.entries@.len() ==> self.entries@[j] == m[j],
            decreases self.entries@.len() - i,
        {
            if self.entries[i].instance == key_instance && self.entries[i].event == key_event {
                let e = ConfigEntry {
                    instance: key_instance.clone(),
                    event: key_event.clone(),
                    params,
                };
                self.entries.set(i, e);
                found = true;
                assert(keyed(self.entries@[i as int], instance@, event@));
            }
            i = i + 1;
        }
        if !found {
            self.entries.push(ConfigEntry { instance: key_instance, event: key_event, params });
            assert(keyed(self.entries@[self.entries@.len() - 1], instance@, event@));
        }
        proof {
            let f = self.entries@;
            assert forall|k: int|
                0 <= k < m.len() && !keyed(#[trigger] m[k], instance@, event@) implies exists|j: int|
                0 <= j < f.len() && f[j] == m[k] by {
                assert(f[k] == m[k]);
            }
        }
    }

    /// The parameters of `event` of `instance`, if configured.
    pub fn lookup(&self, instance: &InstanceSpecifier, event: &str) -> (r: Option<SlotParams>)
        ensures
            r is None <==> forall|i: int|
                0 <= i < self.entries().len() ==> !keyed(#[trigger] self.entries()[i], instance@, event@),
            r matches Some(p) ==> exists|i: int|
                0 <= i < self.entries().len() && keyed(#[trigger] self.entries()[i], instance@, event@)
                    && self.entries()[i].params == p,
    {
        let key_instance = instance.to_text();
        let key_event = event.to_string();
        let mut i: usize = 0;
        while i < self.entries.len()
            invariant
                i <= self.entries@.len(),
                key_instance@ == instance@,
                key_event@ == event@,
                forall|j: int| 0 <= j < i ==> !keyed(#[trigger] self.entries@[j], instance@, event@),
            decreases self.entries@.len() - i,
        {
            if self.entries[i].instance == key_instance && self.entries[i].event == key_event {
                assert(keyed(self.entries()[i as int], instance@, event@));
                return Some(self.entries[i].params);
            }
            i = i + 1;
        }
        None
    }
}

} // verus!
