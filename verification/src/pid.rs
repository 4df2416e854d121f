//! Task numbers: issued in ascending order, and a number that comes back is
//! issued again before any fresh one, the last that came back first.

use vstd::prelude::*;

verus! {

/// The handle of a task number that is in use.
pub struct PidHandle(pub usize);

/// The mathematical state of the numbers: those below `current` have been
/// issued, and `recycled` are the issued numbers that have come back, in
/// the order in which they came.
pub struct PidPool {
    pub current: usize,
    pub recycled: Seq<usize>,
}

impl PidPool {
    /// The number `pid` is issued and has not come back.
    pub open spec fn is_allocated(self, pid: usize) -> bool {
        pid < self.current && !self.recycled.contains(pid)
    }

    /// The numbers that came back were issued, and each comes once.
    pub open spec fn wf(self) -> bool {
        &&& self.recycled.no_duplicates()
        &&& forall|i: int| 0 <= i < self.recycled.len() ==> #[trigger] self.recycled[i] < self.current
    }

    /// The number that is issued next.
    pub open spec fn upcoming(self) -> usize {
        if self.recycled.len() > 0 {
            self.recycled.last()
        } else {
            self.current
        }
    }
}

/// The task numbers.
pub struct PidAllocator {
    current: usize,
    recycled: Vec<usize>,
}

impl View for PidAllocator {
    type V = PidPool;

    closed spec fn view(&self) -> PidPool {
        PidPool { current: self.current, recycled: self.recycled@ }
    }
}

impl PidAllocator {
    /// No number is issued.
    pub fn new() -> (pids: PidAllocator)
        ensures
            pids@ == (PidPool { current: 0, recycled: Seq::empty() }),
            pids@.wf(),
    {
        PidAllocator { current: 0, recycled: Vec::new() }
    }

    /// Issues a number: the one that came back last, else the next fresh
    /// one.
    pub fn allocate(&mut self) -> (pid: PidHandle)
        requires
            old(self)@.wf(),
            old(self)@.recycled.len() > 0 || old(self)@.current < usize::MAX,
        ensures
            final(self)@.wf(),
            pid.0 == old(self)@.upcoming(),
            !old(self)@.is_allocated(pid.0),
            final(self)@.is_allocated(pid.0),
            forall|p: usize| p != pid.0 ==> final(self)@.is_allocated(p) == old(self)@.is_allocated(p),
            final(self)@ == (if old(self)@.recycled.len() > 0 {
                PidPool { current: old(self)@.current, recycled: old(self)@.recycled.drop_last() }
            } else {
                PidPool {
                    current: (old(self)@.current + 1) as usize,
                    recycled: old(self)@.recycled,
                }
            }),
    {
        let ghost pool = self@;
        if self.recycled.len() > 0 {
            let pid = self.recycled.pop().unwrap();
            proof {
                let rest = pool.recycled.drop_last();
                assert(pool.recycled[pool.recycled.len() - 1] == pid);
                assert(pool.recycled.contains(pid));
                assert forall|p: usize| rest.contains(p) <==> (pool.recycled.contains(p) && p
                    != pid) by {
                    if rest.contains(p) {
                        let k = choose|k: int| 0 <= k < rest.len() && rest[k] == p;
                        assert(pool.recycled[k] == p);
                    }
                    if pool.recycled.contains(p) && p != pid {
                        let k = choose|k: int|
                            0 <= k < pool.recycled.len() && pool.recycled[k] == p;
                        assert(rest[k] == p);
                    }
                }
                assert forall|i: int| 0 <= i < rest.len() implies #[trigger] rest[i]
                    < pool.current by {
                    assert(rest[i] == pool.recycled[i]);
                }
            }
            PidHandle(pid)
        } else {
            self.current += 1;
            PidHandle(self.current - 1)
        }
    }

    /// Whether the number `pid` is issued and has not come back.
    pub fn is_allocated(&self, pid: usize) -> (b: bool)
        ensures
            b == self@.is_allocated(pid),
    {
        if pid >= self.current {
            return false;
        }
        let mut i: usize = 0;
        while i < self.recycled.len()
            invariant
                i <= self.recycled@.len(),
                forall|j: int| 0 <= j < i ==> self.recycled@[j] != pid,
            decreases self.recycled@.len() - i,
        {
            if self.recycled[i] == pid {
                return false;
            }
            i += 1;
        }
        true
    }

    /// Takes the number `pid` back.
    pub fn dealloc(&mut self, pid: usize)
        requires
            old(self)@.wf(),
            old(self)@.is_allocated(pid),
        ensures
            final(self)@.wf(),
            final(self)@ == (PidPool {
                current: old(self)@.current,
                recycled: old(self)@.recycled.push(pid),
            }),
            forall|p: usize| final(self)@.is_allocated(p) == (old(self)@.is_allocated(p) && p != pid),
    {
        let ghost pool = self@;
        self.recycled.push(pid);
        proof {
            let more = pool.recycled.push(pid);
            assert forall|p: usize| more.contains(p) <==> (pool.recycled.contains(p) || p == pid) by {
                if more.contains(p) {
                    let k = choose|k: int| 0 <= k < more.len() && more[k] == p;
                    if k < pool.recycled.len() {
                        assert(pool.recycled[k] == p);
                    }
                }
                if pool.recycled.contains(p) {
                    let k = choose|k: int| 0 <= k < pool.recycled.len() && pool.recycled[k] == p;
                    assert(more[k] == p);
                }
                assert(more[more.len() - 1] == pid);
            }
            assert forall|i: int, j: int|
                0 <= i < more.len() && 0 <= j < more.len() && i != j implies more[i] != more[j] by {
                if i < pool.recycled.len() {
                    assert(pool.recycled.contains(more[i]));
                }
                if j < pool.recycled.len() {
                    assert(pool.recycled.contains(more[j]));
                }
            }
        }
    }
}

/// Issues a task number.
pub fn pid_alloc(pids: &mut PidAllocator) -> (pid: PidHandle)
    requires
        old(pids)@.wf(),
        old(pids)@.recycled.len() > 0 || old(pids)@.current < usize::MAX,
    ensures
        final(pids)@.wf(),
        pid.0 == old(pids)@.upcoming(),
        !old(pids)@.is_allocated(pid.0),
        final(pids)@.is_allocated(pid.0),
        forall|p: usize| p != pid.0 ==> final(pids)@.is_allocated(p) == old(pids)@.is_allocated(p),
        final(pids)@ == (if old(pids)@.recycled.len() > 0 {
            PidPool { current: old(pids)@.current, recycled: old(pids)@.recycled.drop_last() }
        } else {
            PidPool { current: (old(pids)@.current + 1) as usize, recycled: old(pids)@.recycled }
        }),
{
    pids.allocate()
}

/// Takes the task number `pid` back.
pub fn pid_dealloc(pids: &mut PidAllocator, pid: usize)
    requires
        old(pids)@.wf(),
        old(pids)@.is_allocated(pid),
    ensures
        final(pids)@.wf(),
        final(pids)@ == (PidPool {
            current: old(pids)@.current,
            recycled: old(pids)@.recycled.push(pid),
        }),
        forall|p: usize| final(pids)@.is_allocated(p) == (old(pids)@.is_allocated(p) && p != pid),
{
    pids.dealloc(pid);
}

} // verus!
