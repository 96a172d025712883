//! Book-keeping of named shared-memory regions: the producer creates a
//! region and consumers open it; each open is counted, and the last close
//! reclaims the region. Mapping the memory itself is the platform's part.
use vstd::prelude::*;

use crate::error::Error;

verus! {

/// One named region and how often it is open.
#[derive(Debug)]
pub struct RegionEntry {
    pub name: String,
    pub size: usize,
    pub opens: usize,
}

/// Mathematical model of a region entry.
pub struct RegionRecord {
    pub name: Seq<char>,
    pub size: usize,
    pub opens: usize,
}

pub open spec fn region_record(e: RegionEntry) -> RegionRecord {
    RegionRecord { name: e.name@, size: e.size, opens: e.opens }
}

/// The regions this process has open.
#[derive(Debug)]
pub struct RegionTable {
    entries: Vec<RegionEntry>,
}

impl View for RegionTable {
    type V = Seq<RegionRecord>;

    closed spec fn view(&self) -> Seq<RegionRecord> {
        self.entries@.map_values(|e: RegionEntry| region_record(e))
    }
}

/// Entry `i` of `t` is the region named `name`.
pub open spec fn names(t: Seq<RegionRecord>, name: Seq<char>, i: int) -> bool {
    0 <= i < t.len() && t[i].name == name
}

/// Names are unique and every listed region is open at least once.
pub open spec fn table_inv(t: Seq<RegionRecord>) -> bool {
    &&& forall|i: int, j: int| 0 <= i < j < t.len() ==> (#[trigger] t[i]).name != (#[trigger] t[j]).name
    &&& forall|i: int| 0 <= i < t.len() ==> (#[trigger] t[i]).opens >= 1
}

impl RegionTable {
    pub open spec fn wf(&self) -> bool {
        table_inv(self@)
    }

    /// A table with no region.
    pub fn new() -> (r: RegionTable)
        ensures
            r.wf(),
            r@.len() == 0,
    {
        let r = RegionTable { entries: Vec::new() };
        assert(r@ =~= Seq::<RegionRecord>::empty());
        r
    }

    fn position(&self, name: &String) -> (p: Option<usize>)
        ensures
            p matches Some(i) ==> names(self@, name@, i as int),
            p is None ==> forall|i: int| !#[trigger] names(self@, name@, i),
    {
        let mut i: usize = 0;
        while i < self.entries.len()
            invariant
                i <= self.entries@.len(),
                forall|j: int| 0 <= j < i ==> !#[trigger] names(self@, name@, j),
            decreases self.entries@.len() - i,
        {
            assert(self@[i as int] == region_record(self.entries@[i as int]));
            if self.entries[i].name == *name {
                return Some(i);
            }
            i = i + 1;
        }
        None
    }

    /// Opens the region `name`, creating it with `size` bytes when it does
    /// not exist. Returns how often it is open now. Fails with `Fail` when
    /// it exists with another size or cannot be opened once more.
    pub fn open_or_create(&mut self, name: &str, size: usize) -> (r: Result<usize, Error>)
        requires
            old(self).wf(),
        ensures
            final(self).wf(),
            r is Err <==> exists|i: int|
                names(old(self)@, name@, i) && (old(self)@[i].size != size || old(self)@[i].opens
                    == usize::MAX),
            r matches Err(e) ==> e == Error::Fail && final(self)@ == old(self)@,
            r matches Ok(n) ==> {
                ||| exists|i: int|
                    names(old(self)@, name@, i) && n == old(self)@[i].opens + 1 && final(self)@
                        == old(self)@.update(i, RegionRecord { opens: n, ..old(self)@[i] })
                ||| (forall|i: int| !#[trigger] names(old(self)@, name@, i)) && n == 1
                    && final(self)@ == old(self)@.push(RegionRecord { name: name@, size, opens: 1 })
            },
    {
        let key = name.to_string();
        let ghost m = self@;
        match self.position(&key) {
            Some(i) => {
                assert(m[i as int] == region_record(self.entries@[i as int]));
                proof {
                    assert forall|j: int| names(m, name@, j) implies j == i by {
                        if j != i {
                            assert(m[i as int].name != m[j].name);
                        }
                    }
                }
                if self.entries[i].size != size || self.entries[i].opens == usize::MAX {
                    return Err(Error::Fail);
                }
                let n = self.entries[i].opens + 1;
                let e = RegionEntry { name: key, size, opens: n };
                self.entries.set(i, e);
                proof {
                    let f = self@;
                    assert(f =~= m.update(i as int, RegionRecord { opens: n, ..m[i as int] }));
                    assert forall|a: int, b: int| 0 <= a < b < f.len() implies (#[trigger] f[a]).name
                        != (#[trigger] f[b]).name by {
                        assert(m[a].name != m[b].name);
                    }
                    assert forall|a: int| 0 <= a < f.len() implies (#[trigger] f[a]).opens >= 1 by {
                        assert(m[a].opens >= 1);
                    }
                }
                Ok(n)
            },
            None => {
                self.entries.push(RegionEntry { name: key, size, opens: 1 });
                proof {
                    let f = self@;
                    assert(f =~= m.push(RegionRecord { name: name@, size, opens: 1 }));
                    assert forall|a: int, b: int| 0 <= a < b < f.len() implies (#[trigger] f[a]).name
                        != (#[trigger] f[b]).name by {
                        if b < m.len() {
                            assert(m[a].name != m[b].name);
                        } else {
                            assert(!names(m, name@, a));
                        }
                    }
                    assert forall|a: int| 0 <= a < f.len() implies (#[trigger] f[a]).opens >= 1 by {
                        if a < m.len() {
                            assert(m[a].opens >= 1);
                        }
                    }
                }
                Ok(1)
            },
        }
    }

    /// Closes the region `name` once. Returns whether that was its last
    /// open, in which case it is reclaimed. Fails with `Fail` when no region
    /// of that name is open.
    pub fn close(&mut self, name: &str) -> (r: Result<bool, Error>)
        requires
            old(self).wf(),
        ensures
            final(self).wf(),
            r is Err <==> forall|i: int| !#[trigger] names(old(self)@, name@, i),
            r matches Err(e) ==> e == Error::Fail && final(self)@ == old(self)@,
            r matches Ok(reclaimed) ==> exists|i: int|
                names(old(self)@, name@, i) && reclaimed == (old(self)@[i].opens == 1)
                    && final(self)@ == if reclaimed {
                    old(self)@.remove(i)
                } else {
                    old(self)@.update(
                        i,
                        RegionRecord { opens: (old(self)@[i].opens - 1) as usize, ..old(self)@[i] },
                    )
                },
    {
        let key = name.to_string();
        let ghost m = self@;
        match self.position(&key) {
            Some(i) => {
                assert(m[i as int] == region_record(self.entries@[i as int]));
                if self.entries[i].opens == 1 {
                    self.entries.remove(i);
                    proof {
                        let f = self@;
                        assert(f =~= m.remove(i as int));
                        assert forall|a: int, b: int| 0 <= a < b < f.len() implies (
                        #[trigger] f[a]).name != (#[trigger] f[b]).name by {
                            let a0 = if a < i { a } else { a + 1 };
                            let b0 = if b < i { b } else { b + 1 };
                            assert(m[a0].name != m[b0].name);
                        }
                        assert forall|a: int| 0 <= a < f.len() implies (#[trigger] f[a]).opens >= 1 by {
                            let a0 = if a < i { a } else { a + 1 };
                            assert(m[a0].opens >= 1);
                        }
                    }
                    Ok(true)
                } else {
                    let n = self.entries[i].opens - 1;
                    let e = RegionEntry { name: key, size: self.entries[i].size, opens: n };
                    self.entries.set(i, e);
                    proof {
                        let f = self@;
                        assert(f =~= m.update(i as int, RegionRecord { opens: n, ..m[i as int] }));
                        assert forall|a: int, b: int| 0 <= a < b < f.len() implies (
                        #[trigger] f[a]).name != (#[trigger] f[b]).name by {
                            assert(m[a].name != m[b].name);
                        }
                        assert forall|a: int| 0 <= a < f.len() implies (#[trigger] f[a]).opens >= 1 by {
                            assert(m[a].opens >= 1);
                        }
                    }
                    Ok(false)
                }
            },
            None => Err(Error::Fail),
        }
    }

    /// How often the region `name` is open; 0 when it is not.
    pub fn open_count(&self, name: &str) -> (n: usize)
        requires
            self.wf(),
        ensures
            n == 0 <==> forall|i: int| !#[trigger] names(self@, name@, i),
            n != 0 ==> exists|i: int| names(self@, name@, i) && self@[i].opens == n,
    {
        let key = name.to_string();
        match self.position(&key) {
            Some(i) => {
                assert(self@[i as int] == region_record(self.entries@[i as int]));
                self.entries[i].opens
            },
            None => 0,
        }
    }
}

} // verus!
