//! The running-query registry: live queries by id, for listing and killing.
//! Ids are allocated by a monotonic counter and never reused.

use vstd::prelude::*;

use crate::poison::Poison;

verus! {

/// One live query: when it started, and its cancellation token.
pub struct RunningQueryHandle {
    pub started_at_micros: u64,
    pub poison: Poison,
}

/// The registry of live queries.
pub struct RunningRegistry {
    pub entries: Vec<(u64, RunningQueryHandle)>,
    pub next_id: u64,
}

/// Whether some entry carries the id.
pub open spec fn contains_id(s: Seq<(u64, RunningQueryHandle)>, id: u64) -> bool {
    exists|i: int| 0 <= i < s.len() && (#[trigger] s[i]).0 == id
}

impl RunningRegistry {
    /// Ids strictly increase along the entries and stay below the counter:
    /// every id is unique, and a fresh id collides with nothing.
    pub open spec fn wf(&self) -> bool {
        &&& forall|i: int, j: int|
            0 <= i < j < self.entries@.len() ==> (#[trigger] self.entries@[i]).0 < (
            #[trigger] self.entries@[j]).0
        &&& forall|i: int|
            0 <= i < self.entries@.len() ==> (#[trigger] self.entries@[i]).0 < self.next_id
    }

    /// An empty registry.
    pub fn new() -> (r: RunningRegistry)
        ensures
            r.wf(),
            r.entries@.len() == 0,
            r.next_id == 0,
    {
        RunningRegistry { entries: Vec::new(), next_id: 0 }
    }

    /// Allocates the next id and inserts the handle under it. Ids are
    /// monotonic across the lifetime of the registry.
    pub fn register(&mut self, handle: RunningQueryHandle) -> (id: u64)
        requires
            old(self).wf(),
            old(self).next_id < u64::MAX,
        ensures
            final(self).wf(),
            id == old(self).next_id,
            final(self).next_id == old(self).next_id + 1,
            final(self).entries@ == old(self).entries@.push((id, handle)),
    {
        let id = self.next_id;
        self.next_id = self.next_id + 1;
        self.entries.push((id, handle));
        id
    }

    /// Removes the entry of `id`, if present, setting its poison first, so
    /// stale observers of a finished id see it killed.
    pub fn unregister(&mut self, id: u64)
        requires
            old(self).wf(),
        ensures
            final(self).wf(),
            final(self).next_id == old(self).next_id,
            !contains_id(final(self).entries@, id),
            forall|other: u64|
                other != id ==> (contains_id(final(self).entries@, other) == contains_id(
                    old(self).entries@,
                    other,
                )),
    {
        let mut i: usize = 0;
        while i < self.entries.len()
            invariant
                0 <= i <= self.entries@.len(),
                self == old(self),
                self.wf(),
                forall|j: int| 0 <= j < i ==> (#[trigger] self.entries@[j]).0 != id,
            decreases self.entries@.len() - i,
        {
            if self.entries[i].0 == id {
                self.entries[i].1.poison.set();
                let ghost prev = self.entries@;
                self.entries.remove(i);
                proof {
                    assert(self.entries@ =~= prev.take(i as int) + prev.skip(i + 1));
                    assert forall|a: int, b: int|
                        0 <= a < b < self.entries@.len() implies (#[trigger] self.entries@[a]).0 < (
                    #[trigger] self.entries@[b]).0 by {
                        let pa: int = if a < i {
                            a
                        } else {
                            a + 1
                        };
                        let pb: int = if b < i {
                            b
                        } else {
                            b + 1
                        };
                        assert(self.entries@[a] == prev[pa]);
                        assert(self.entries@[b] == prev[pb]);
                    }
                    assert forall|a: int|
                        0 <= a < self.entries@.len() implies (#[trigger] self.entries@[a]).0
                        < self.next_id by {
                        let pa: int = if a < i {
                            a
                        } else {
                            a + 1
                        };
                        assert(self.entries@[a] == prev[pa]);
                    }
                    assert forall|a: int|
                        0 <= a < self.entries@.len() implies (#[trigger] self.entries@[a]).0
                        != id by {
                        let pa: int = if a < i {
                            a
                        } else {
                            a + 1
                        };
                        assert(self.entries@[a] == prev[pa]);
                        if pa > i {
                            assert(prev[i as int].0 < prev[pa].0);
                        }
                    }
                    assert forall|other: u64|
                        other != id implies (contains_id(self.entries@, other) == contains_id(
                        prev,
                        other,
                    )) by {
                        if contains_id(prev, other) {
                            let w = choose|w: int| 0 <= w < prev.len() && prev[w].0 == other;
                            if w < i {
                                assert(self.entries@[w] == prev[w]);
                            } else {
                                assert(self.entries@[w - 1] == prev[w]);
                            }
                        }
                        if contains_id(self.entries@, other) {
                            let w = choose|w: int|
                                0 <= w < self.entries@.len() && self.entries@[w].0 == other;
                            let pw: int = if w < i {
                                w
                            } else {
                                w + 1
                            };
                            assert(prev[pw] == self.entries@[w]);
                        }
                    }
                }
                return ;
            }
            i = i + 1;
        }
        proof {
            assert(!contains_id(self.entries@, id));
        }
    }

    /// A snapshot of the live queries: id and start time, in id order.
    pub fn list(&self) -> (r: Vec<(u64, u64)>)
        ensures
            r@.len() == self.entries@.len(),
            forall|j: int|
                0 <= j < r@.len() ==> #[trigger] r@[j] == (
                    self.entries@[j].0,
                    self.entries@[j].1.started_at_micros,
                ),
    {
        let mut out: Vec<(u64, u64)> = Vec::new();
        let mut i: usize = 0;
        while i < self.entries.len()
            invariant
                0 <= i <= self.entries@.len(),
                out@.len() == i,
                forall|j: int|
                    0 <= j < i ==> #[trigger] out@[j] == (
                        self.entries@[j].0,
                        self.entries@[j].1.started_at_micros,
                    ),
            decreases self.entries@.len() - i,
        {
            out.push((self.entries[i].0, self.entries[i].1.started_at_micros));
            i = i + 1;
        }
        out
    }

    /// Sets the poison of the query with this id. True when it was present:
    /// the caller answers `KILLING`; false stands for `NOT_FOUND`, which is
    /// an answer, not an error.
    pub fn kill(&self, id: u64) -> (found: bool)
        ensures
            found == contains_id(self.entries@, id),
    {
        let mut i: usize = 0;
        while i < self.entries.len()
            invariant
                0 <= i <= self.entries@.len(),
                forall|j: int| 0 <= j < i ==> (#[trigger] self.entries@[j]).0 != id,
            decreases self.entries@.len() - i,
        {
            if self.entries[i].0 == id {
                self.entries[i].1.poison.set();
                return true;
            }
            i = i + 1;
        }
        false
    }
}

} // verus!
