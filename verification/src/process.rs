//! Process control blocks: an address space plus the tasks sharing it.
//!
//! A process owns its tasks and its children; parents are reached by arena
//! index only.  The three primitive tables are fixed slots that are reused
//! lowest-empty-index first, and the per-slot available-unit counts feed the
//! deadlock detector when its per-process toggle is on.

use vstd::prelude::*;

use crate::mem::MemorySet;
use crate::mem::ms_wf;
use crate::task::TaskControlBlock;

verus! {

/// Clamp bound of every detector counter.  All bookkeeping moves counters
/// by single steps through `cap_inc` / `cap_dec`, which stop at this bound
/// instead of overflowing; until a counter has been stepped the same way
/// 2^40 times in a row — far beyond any real run — the steps are exactly
/// plus and minus one.
pub const COUNTER_CAP: i64 = 0x100_0000_0000;

/// Most tasks one process's table may hold; keeps the detector's summations
/// comfortably inside 64 bits.
pub const MAX_TASKS: usize = 0x1_0000;

pub open spec fn spec_cap_inc(x: i64) -> i64 {
    if x < COUNTER_CAP {
        (x + 1) as i64
    } else {
        x
    }
}

pub open spec fn spec_cap_dec(x: i64) -> i64 {
    if x > -COUNTER_CAP {
        (x - 1) as i64
    } else {
        x
    }
}

/// One step up, clamped at the counter bound.
pub fn cap_inc(x: i64) -> (r: i64)
    ensures
        r == spec_cap_inc(x),
{
    if x < COUNTER_CAP {
        x + 1
    } else {
        x
    }
}

/// One step down, clamped at the counter bound.
pub fn cap_dec(x: i64) -> (r: i64)
    ensures
        r == spec_cap_dec(x),
{
    if x > -COUNTER_CAP {
        x - 1
    } else {
        x
    }
}

/// A process: identity and linkage, address space, tasks, and the primitive
/// slot tables with their detector state.
pub struct ProcessControlBlock {
    /// This process's arena index.
    pub pid: usize,
    /// Arena index of the parent, if any; a lookup key, never an owner.
    pub parent: Option<usize>,
    /// Arena indices of owned children, in creation order.
    pub children: Vec<usize>,
    /// Exited and waiting to be reaped.
    pub zombie: bool,
    /// Meaningful once `zombie` holds.
    pub exit_code: i32,
    /// The address space.
    pub memory_set: MemorySet,
    /// The translation-table handle of the address space; a fresh one is
    /// issued whenever the address space is replaced.
    pub token: usize,
    /// The task table; a slot empties when its task is torn down.
    pub tasks: Vec<Option<TaskControlBlock>>,
    /// Mutex slots: each empty or the arena index of a mutex instance.
    pub mutex_list: Vec<Option<usize>>,
    /// Semaphore slots.
    pub semaphore_list: Vec<Option<usize>>,
    /// Condition-variable slots.
    pub condvar_list: Vec<Option<usize>>,
    /// Units of each mutex slot currently available; detector state.
    pub mutex_res: Vec<i64>,
    /// Units of each semaphore slot currently available; detector state.
    pub semaphore_res: Vec<i64>,
    /// The deadlock-detection toggle, off by default.
    pub open_detect: bool,
}

/// Every counter the detector reads sits within the clamp bound.
pub open spec fn counters_bounded(p: ProcessControlBlock) -> bool {
    &&& forall|i: int|
        0 <= i < p.mutex_res.len() ==> -COUNTER_CAP <= #[trigger] p.mutex_res[i] <= COUNTER_CAP
    &&& forall|i: int|
        0 <= i < p.semaphore_res.len() ==> -COUNTER_CAP <= #[trigger] p.semaphore_res[i]
            <= COUNTER_CAP
    &&& forall|t: int, i: int|
        0 <= t < p.tasks.len() && p.tasks[t] is Some && 0 <= i
            < p.tasks[t]->Some_0.inner.mutex_alloc.len() ==> -COUNTER_CAP <= #[trigger] p.tasks[t]->Some_0.inner.mutex_alloc[i] <= COUNTER_CAP
    &&& forall|t: int, i: int|
        0 <= t < p.tasks.len() && p.tasks[t] is Some && 0 <= i
            < p.tasks[t]->Some_0.inner.mutex_need.len() ==> -COUNTER_CAP <= #[trigger] p.tasks[t]->Some_0.inner.mutex_need[i] <= COUNTER_CAP
    &&& forall|t: int, i: int|
        0 <= t < p.tasks.len() && p.tasks[t] is Some && 0 <= i
            < p.tasks[t]->Some_0.inner.semaphore_alloc.len() ==> -COUNTER_CAP <= #[trigger] p.tasks[t]->Some_0.inner.semaphore_alloc[i] <= COUNTER_CAP
    &&& forall|t: int, i: int|
        0 <= t < p.tasks.len() && p.tasks[t] is Some && 0 <= i
            < p.tasks[t]->Some_0.inner.semaphore_need.len() ==> -COUNTER_CAP <= #[trigger] p.tasks[t]->Some_0.inner.semaphore_need[i] <= COUNTER_CAP
}

/// While detection is on, the resource vectors and every task's tracking
/// vectors stay exactly as long as the slot tables.
pub open spec fn detect_vectors_ok(p: ProcessControlBlock) -> bool {
    &&& p.mutex_res.len() == p.mutex_list.len()
    &&& p.semaphore_res.len() == p.semaphore_list.len()
    &&& forall|t: int|
        0 <= t < p.tasks.len() && #[trigger] p.tasks[t] is Some ==> {
            &&& p.tasks[t]->Some_0.inner.mutex_alloc.len() == p.mutex_list.len()
            &&& p.tasks[t]->Some_0.inner.mutex_need.len() == p.mutex_list.len()
            &&& p.tasks[t]->Some_0.inner.semaphore_alloc.len() == p.semaphore_list.len()
            &&& p.tasks[t]->Some_0.inner.semaphore_need.len() == p.semaphore_list.len()
        }
}

/// Well-formedness of one process within the kernel's arenas.
pub open spec fn proc_wf(
    p: ProcessControlBlock,
    pid: int,
    nprocs: int,
    nmutex: int,
    nsem: int,
    ncond: int,
) -> bool {
    &&& p.pid == pid
    &&& p.zombie ==> p.tasks.len() == 0 && p.children.len() == 0
    &&& p.tasks.len() <= MAX_TASKS
    &&& p.mutex_list.len() <= MAX_TASKS
    &&& p.semaphore_list.len() <= MAX_TASKS
    &&& p.condvar_list.len() <= MAX_TASKS
    &&& forall|t: int|
        0 <= t < p.tasks.len() && #[trigger] p.tasks[t] is Some ==> p.tasks[t]->Some_0.process
            == pid && p.tasks[t]->Some_0.inner.priority >= 2
    &&& forall|i: int|
        0 <= i < p.mutex_list.len() && #[trigger] p.mutex_list[i] is Some ==> p.mutex_list[i]->Some_0
            < nmutex
    &&& forall|i: int|
        0 <= i < p.semaphore_list.len() && #[trigger] p.semaphore_list[i] is Some
            ==> p.semaphore_list[i]->Some_0 < nsem
    &&& forall|i: int|
        0 <= i < p.condvar_list.len() && #[trigger] p.condvar_list[i] is Some
            ==> p.condvar_list[i]->Some_0 < ncond
    &&& forall|c: int| 0 <= c < p.children.len() ==> 0 < #[trigger] p.children[c] < nprocs
    &&& p.open_detect ==> detect_vectors_ok(p)
    &&& counters_bounded(p)
    &&& ms_wf(p.memory_set)
}

impl ProcessControlBlock {
    /// The process id.
    pub fn getpid(&self) -> (r: usize)
        ensures
            r == self.pid,
    {
        self.pid
    }

    /// Whether the process has exited and awaits reaping.
    pub fn is_zombie(&self) -> (r: bool)
        ensures
            r == self.zombie,
    {
        self.zombie
    }

    /// A fresh process with empty tables, detection off, and the given
    /// address-space handle.
    pub fn new(pid: usize, parent: Option<usize>, token: usize, heap_bottom: usize) -> (r:
        ProcessControlBlock)
        ensures
            r.pid == pid,
            r.parent == parent,
            r.children@ == Seq::<usize>::empty(),
            !r.zombie,
            r.exit_code == 0,
            r.memory_set.areas@ == Seq::<crate::mem::MapArea>::empty(),
            r.memory_set.heap_bottom == heap_bottom,
            r.memory_set.program_brk == heap_bottom,
            r.token == token,
            r.tasks@ == Seq::<Option<TaskControlBlock>>::empty(),
            r.mutex_list@ == Seq::<Option<usize>>::empty(),
            r.semaphore_list@ == Seq::<Option<usize>>::empty(),
            r.condvar_list@ == Seq::<Option<usize>>::empty(),
            r.mutex_res@ == Seq::<i64>::empty(),
            r.semaphore_res@ == Seq::<i64>::empty(),
            !r.open_detect,
    {
        ProcessControlBlock {
            pid,
            parent,
            children: Vec::new(),
            zombie: false,
            exit_code: 0,
            memory_set: MemorySet::new(heap_bottom),
            token,
            tasks: Vec::new(),
            mutex_list: Vec::new(),
            semaphore_list: Vec::new(),
            condvar_list: Vec::new(),
            mutex_res: Vec::new(),
            semaphore_res: Vec::new(),
            open_detect: false,
        }
    }
}

/// All four counter vectors of one task sit within the clamp bound.
pub open spec fn counters_ok_task(t: TaskControlBlock) -> bool {
    &&& forall|i: int|
        0 <= i < t.inner.mutex_alloc.len() ==> -COUNTER_CAP <= #[trigger] t.inner.mutex_alloc[i]
            <= COUNTER_CAP
    &&& forall|i: int|
        0 <= i < t.inner.mutex_need.len() ==> -COUNTER_CAP <= #[trigger] t.inner.mutex_need[i]
            <= COUNTER_CAP
    &&& forall|i: int|
        0 <= i < t.inner.semaphore_alloc.len() ==> -COUNTER_CAP
            <= #[trigger] t.inner.semaphore_alloc[i] <= COUNTER_CAP
    &&& forall|i: int|
        0 <= i < t.inner.semaphore_need.len() ==> -COUNTER_CAP
            <= #[trigger] t.inner.semaphore_need[i] <= COUNTER_CAP
}

/// Process well-formedness survives an update of one task that keeps its
/// owner, a weight of at least 2, and the shape of its tracking vectors.
#[verifier::rlimit(60)]
pub proof fn lemma_proc_wf_task_update(
    pa: ProcessControlBlock,
    pb: ProcessControlBlock,
    tid: int,
    pid: int,
    nprocs: int,
    nmutex: int,
    nsem: int,
    ncond: int,
)
    requires
        proc_wf(pa, pid, nprocs, nmutex, nsem, ncond),
        pb == (ProcessControlBlock { tasks: pb.tasks, ..pa }),
        pb.tasks.len() == pa.tasks.len(),
        0 <= tid < pa.tasks.len(),
        pa.tasks[tid] is Some,
        pb.tasks[tid] is Some,
        forall|x: int| 0 <= x < pa.tasks.len() && x != tid ==> pb.tasks[x] == #[trigger] pa.tasks[x],
        pb.tasks[tid]->Some_0.process == pa.tasks[tid]->Some_0.process,
        pb.tasks[tid]->Some_0.inner.priority >= 2,
        pb.tasks[tid]->Some_0.inner.mutex_alloc.len() == pa.tasks[tid]->Some_0.inner.mutex_alloc.len(),
        pb.tasks[tid]->Some_0.inner.mutex_need.len() == pa.tasks[tid]->Some_0.inner.mutex_need.len(),
        pb.tasks[tid]->Some_0.inner.semaphore_alloc.len() == pa.tasks[tid]->Some_0.inner.semaphore_alloc.len(),
        pb.tasks[tid]->Some_0.inner.semaphore_need.len() == pa.tasks[tid]->Some_0.inner.semaphore_need.len(),
        counters_ok_task(pb.tasks[tid]->Some_0),
    ensures
        proc_wf(pb, pid, nprocs, nmutex, nsem, ncond),
{
    assert(counters_bounded(pb)) by {
        assert forall|t: int, i: int|
            0 <= t < pb.tasks.len() && pb.tasks[t] is Some && 0 <= i
                < pb.tasks[t]->Some_0.inner.mutex_alloc.len() implies -COUNTER_CAP
            <= #[trigger] pb.tasks[t]->Some_0.inner.mutex_alloc[i] <= COUNTER_CAP by {
            if t != tid {
                assert(pb.tasks[t] == pa.tasks[t]);
            }
        }
        assert forall|t: int, i: int|
            0 <= t < pb.tasks.len() && pb.tasks[t] is Some && 0 <= i
                < pb.tasks[t]->Some_0.inner.mutex_need.len() implies -COUNTER_CAP
            <= #[trigger] pb.tasks[t]->Some_0.inner.mutex_need[i] <= COUNTER_CAP by {
            if t != tid {
                assert(pb.tasks[t] == pa.tasks[t]);
            }
        }
        assert forall|t: int, i: int|
            0 <= t < pb.tasks.len() && pb.tasks[t] is Some && 0 <= i
                < pb.tasks[t]->Some_0.inner.semaphore_alloc.len() implies -COUNTER_CAP
            <= #[trigger] pb.tasks[t]->Some_0.inner.semaphore_alloc[i] <= COUNTER_CAP by {
            if t != tid {
                assert(pb.tasks[t] == pa.tasks[t]);
            }
        }
        assert forall|t: int, i: int|
            0 <= t < pb.tasks.len() && pb.tasks[t] is Some && 0 <= i
                < pb.tasks[t]->Some_0.inner.semaphore_need.len() implies -COUNTER_CAP
            <= #[trigger] pb.tasks[t]->Some_0.inner.semaphore_need[i] <= COUNTER_CAP by {
            if t != tid {
                assert(pb.tasks[t] == pa.tasks[t]);
            }
        }
    }
    if pb.open_detect {
        assert(detect_vectors_ok(pb)) by {
            assert forall|t: int|
                0 <= t < pb.tasks.len() && #[trigger] pb.tasks[t] is Some implies {
                &&& pb.tasks[t]->Some_0.inner.mutex_alloc.len() == pb.mutex_list.len()
                &&& pb.tasks[t]->Some_0.inner.mutex_need.len() == pb.mutex_list.len()
                &&& pb.tasks[t]->Some_0.inner.semaphore_alloc.len() == pb.semaphore_list.len()
                &&& pb.tasks[t]->Some_0.inner.semaphore_need.len() == pb.semaphore_list.len()
            } by {
                if t != tid {
                    assert(pb.tasks[t] == pa.tasks[t]);
                }
            }
        }
    }
    assert forall|t: int|
        0 <= t < pb.tasks.len() && #[trigger] pb.tasks[t] is Some implies pb.tasks[t]->Some_0.process
        == pid && pb.tasks[t]->Some_0.inner.priority >= 2 by {
        if t != tid {
            assert(pb.tasks[t] == pa.tasks[t]);
        }
    }
}

/// The lowest-index empty slot of a table, if any: the index every create
/// operation reuses before it appends.
pub fn lowest_free_slot(v: &Vec<Option<usize>>) -> (r: Option<usize>)
    ensures
        match r {
            Some(i) => i < v.len() && v[i as int] is None && forall|j: int|
                0 <= j < i ==> #[trigger] v[j] is Some,
            None => forall|j: int| 0 <= j < v.len() ==> #[trigger] v[j] is Some,
        },
{
    let mut i: usize = 0;
    while i < v.len()
        invariant
            i <= v.len(),
            forall|j: int| 0 <= j < i ==> #[trigger] v[j] is Some,
        decreases v.len() - i,
    {
        if v[i].is_none() {
            return Some(i);
        }
        i += 1;
    }
    None
}

} // verus!
