//! The kernel's state and its syscall surface.
//!
//! One logical CPU runs one task at a time.  The state is an arena of
//! processes (each owning its tasks), the ready queue, the sleeping list,
//! and kernel-wide arenas of primitive instances that processes share by
//! index.  Every syscall is a function from this state and its arguments to
//! the next state and a signed result; the dispatcher that traps, decodes
//! and writes results back into saved registers stays outside the crate.

use vstd::prelude::*;

use crate::mem::MemorySet;
use crate::mem::ms_wf;
use crate::process::COUNTER_CAP;
use crate::process::MAX_TASKS;
use crate::process::ProcessControlBlock;
use crate::process::cap_dec;
use crate::process::counters_ok_task;
use crate::process::cap_inc;
use crate::process::detect_vectors_ok;
use crate::process::lowest_free_slot;
use crate::process::proc_wf;
use crate::process::spec_cap_dec;
use crate::process::spec_cap_inc;
use crate::sched::BIG_STRIDE;
use crate::sched::ReadyEntry;
use crate::sched::entry_strides;
use crate::sched::pick_min;
use crate::sched::pick_of;
use crate::sched::wadd64;
use crate::sched::wrapping_add64;
use crate::sync::CondvarInst;
use crate::sync::MutexInst;
use crate::sync::SemInst;
use crate::sync::TaskRef;
use crate::task::TaskControlBlock;
use crate::task::TaskStatus;
use crate::task::TrapContext;
use vstd::pervasive::unreached;

verus! {

/// Most process slots the arena may hold.
pub const MAX_PROCS: usize = 0x1000;

/// The result a refused acquisition returns while detection is on.
pub const DEADLOCK_ERR: isize = -0xDEAD;

/// A time instant split the way the clock syscall reports it.
#[derive(Clone, Copy, PartialEq, Eq, Structural, Debug)]
pub struct TimeVal {
    pub sec: usize,
    pub usec: usize,
}

/// What the task-information syscall reports about the running task.
pub struct TaskInfo {
    /// The task's status in its life cycle.
    pub status: TaskStatus,
    /// The numbers of syscalls called by the task, by kind.
    pub syscall_times: Vec<u32>,
    /// Total running time of the task.
    pub time: usize,
}

/// One sleeping task and the instant it is due back.
#[derive(Clone, Copy, PartialEq, Eq, Structural, Debug)]
pub struct SleepEntry {
    pub expire_ms: usize,
    pub task: TaskRef,
}

/// The whole kernel state.
pub struct Kernel {
    /// The process arena; a slot empties when a zombie is reaped.
    pub procs: Vec<Option<ProcessControlBlock>>,
    /// Ready tasks, in enqueue order.
    pub ready: Vec<ReadyEntry>,
    /// The one Running task, or nothing while the CPU idles.
    pub running: Option<TaskRef>,
    /// All mutex instances ever created, shared by index.
    pub mutexes: Vec<MutexInst>,
    /// All semaphore instances.
    pub semaphores: Vec<SemInst>,
    /// All condition-variable instances.
    pub condvars: Vec<CondvarInst>,
    /// Tasks waiting on the timer.
    pub sleepers: Vec<SleepEntry>,
    /// The monotonic clock, in milliseconds, as last read from the timer.
    pub clock_ms: usize,
    /// Source of fresh translation-table handles.
    pub next_token: usize,
}

/// `r` names an existing task of an existing process.
pub open spec fn ref_ok(k: Kernel, r: TaskRef) -> bool {
    &&& r.pid < k.procs.len()
    &&& k.procs[r.pid as int] is Some
    &&& r.tid < k.procs[r.pid as int]->Some_0.tasks.len()
    &&& k.procs[r.pid as int]->Some_0.tasks[r.tid as int] is Some
}

pub open spec fn proc_at(k: Kernel, p: int) -> ProcessControlBlock {
    k.procs[p]->Some_0
}

pub open spec fn task_at(k: Kernel, r: TaskRef) -> TaskControlBlock {
    proc_at(k, r.pid as int).tasks[r.tid as int]->Some_0
}

pub open spec fn cur_ref(k: Kernel) -> TaskRef {
    k.running->Some_0
}

pub open spec fn cur_proc(k: Kernel) -> ProcessControlBlock {
    proc_at(k, cur_ref(k).pid as int)
}

pub open spec fn cur_task(k: Kernel) -> TaskControlBlock {
    task_at(k, cur_ref(k))
}

/// Well-formedness of the whole kernel state.
pub open spec fn kwf(k: Kernel) -> bool {
    &&& 0 < k.procs.len() <= MAX_PROCS
    &&& k.procs[0] is Some
    &&& !k.procs[0]->Some_0.zombie
    &&& forall|p: int|
        0 <= p < k.procs.len() && #[trigger] k.procs[p] is Some ==> proc_wf(
            k.procs[p]->Some_0,
            p,
            k.procs.len() as int,
            k.mutexes.len() as int,
            k.semaphores.len() as int,
            k.condvars.len() as int,
        )
    &&& forall|p1: int, i1: int, p2: int, i2: int|
        0 <= p1 < k.procs.len() && k.procs[p1] is Some && 0 <= i1 < k.procs[p1]->Some_0.children.len()
            && 0 <= p2 < k.procs.len() && k.procs[p2] is Some && 0 <= i2
            < k.procs[p2]->Some_0.children.len() && (p1 != p2 || i1 != i2)
            ==> #[trigger] k.procs[p1]->Some_0.children[i1] != #[trigger] k.procs[p2]->Some_0.children[i2]
    &&& forall|p: int, i: int|
        0 <= p < k.procs.len() && k.procs[p] is Some && 0 <= i < k.procs[p]->Some_0.children.len()
            ==> k.procs[#[trigger] k.procs[p]->Some_0.children[i] as int] is Some
    &&& forall|i: int| 0 <= i < k.ready.len() ==> ref_ok(k, (#[trigger] k.ready[i]).to_ref())
    &&& k.running is Some ==> ref_ok(k, k.running->Some_0)
    &&& forall|i: int| 0 <= i < k.sleepers.len() ==> ref_ok(k, (#[trigger] k.sleepers[i]).task)
    &&& forall|m: int, w: int|
        0 <= m < k.mutexes.len() && 0 <= w < k.mutexes[m].waiters.len() ==> ref_ok(
            k,
            (#[trigger] k.mutexes[m].waiters[w]).task,
        )
    &&& forall|m: int, w: int|
        0 <= m < k.semaphores.len() && 0 <= w < k.semaphores[m].waiters.len() ==> ref_ok(
            k,
            (#[trigger] k.semaphores[m].waiters[w]).task,
        )
    &&& forall|m: int, w: int|
        0 <= m < k.condvars.len() && 0 <= w < k.condvars[m].waiters.len() ==> ref_ok(
            k,
            (#[trigger] k.condvars[m].waiters[w]).task,
        ) && k.condvars[m].waiters[w].mutex_arena < k.mutexes.len()
    &&& forall|m: int|
        0 <= m < k.semaphores.len() ==> -COUNTER_CAP <= (#[trigger] k.semaphores[m]).count
            <= COUNTER_CAP
}

impl ReadyEntry {
    /// The task this entry names, without its stride snapshot.
    pub open spec fn to_ref(self) -> TaskRef {
        TaskRef { pid: self.pid, tid: self.tid }
    }
}

/// All processes except `p` read the same in `a` and `b`.
pub open spec fn procs_same_except(a: Kernel, b: Kernel, p: int) -> bool {
    &&& a.procs.len() == b.procs.len()
    &&& forall|q: int| 0 <= q < a.procs.len() && q != p ==> a.procs[q] == #[trigger] b.procs[q]
}

/// All processes except `p1` and `p2` read the same in `a` and `b`.
pub open spec fn procs_same_except2(a: Kernel, b: Kernel, p1: int, p2: int) -> bool {
    &&& a.procs.len() == b.procs.len()
    &&& forall|q: int|
        0 <= q < a.procs.len() && q != p1 && q != p2 ==> a.procs[q] == #[trigger] b.procs[q]
}

/// The scheduler's own state reads the same in `a` and `b`.
pub open spec fn sched_unchanged(a: Kernel, b: Kernel) -> bool {
    &&& a.ready == b.ready
    &&& a.running == b.running
    &&& a.sleepers == b.sleepers
    &&& a.clock_ms == b.clock_ms
}

/// The primitive arenas read the same in `a` and `b`.
pub open spec fn arenas_unchanged(a: Kernel, b: Kernel) -> bool {
    &&& a.mutexes == b.mutexes
    &&& a.semaphores == b.semaphores
    &&& a.condvars == b.condvars
}

/// Exclusive access to the process at arena index `pid`.
fn proc_mut(procs: &mut Vec<Option<ProcessControlBlock>>, pid: usize) -> (p: &mut
    ProcessControlBlock)
    requires
        pid < old(procs).len(),
        old(procs)[pid as int] is Some,
    ensures
        *p == old(procs)[pid as int]->Some_0,
        final(procs)@ == old(procs)@.update(pid as int, Some(*final(p))),
{
    match &mut procs[pid] {
        Some(p) => p,
        None => unreached(),
    }
}

/// Shared access to the process at arena index `pid`.
fn proc_ref(procs: &Vec<Option<ProcessControlBlock>>, pid: usize) -> (p: &ProcessControlBlock)
    requires
        pid < procs.len(),
        procs[pid as int] is Some,
    ensures
        *p == procs[pid as int]->Some_0,
{
    match &procs[pid] {
        Some(p) => p,
        None => unreached(),
    }
}

/// Exclusive access to the task in slot `tid`.
fn task_mut(tasks: &mut Vec<Option<TaskControlBlock>>, tid: usize) -> (t: &mut TaskControlBlock)
    requires
        tid < old(tasks).len(),
        old(tasks)[tid as int] is Some,
    ensures
        *t == old(tasks)[tid as int]->Some_0,
        final(tasks)@ == old(tasks)@.update(tid as int, Some(*final(t))),
{
    match &mut tasks[tid] {
        Some(t) => t,
        None => unreached(),
    }
}

/// Shared access to the task in slot `tid`.
fn task_ref(tasks: &Vec<Option<TaskControlBlock>>, tid: usize) -> (t: &TaskControlBlock)
    requires
        tid < tasks.len(),
        tasks[tid as int] is Some,
    ensures
        *t == tasks[tid as int]->Some_0,
{
    match &tasks[tid] {
        Some(t) => t,
        None => unreached(),
    }
}

impl Kernel {
    /// Boot: one root process with one Running task and an empty scheduler.
    pub fn new(heap_bottom: usize) -> (k: Kernel)
        ensures
            kwf(k),
            k.procs.len() == 1,
            k.procs[0] is Some,
            proc_at(k, 0).pid == 0,
            proc_at(k, 0).parent == None::<usize>,
            proc_at(k, 0).children@ == Seq::<usize>::empty(),
            !proc_at(k, 0).zombie,
            proc_at(k, 0).exit_code == 0,
            proc_at(k, 0).token == 0,
            proc_at(k, 0).mutex_list@ == Seq::<Option<usize>>::empty(),
            proc_at(k, 0).semaphore_list@ == Seq::<Option<usize>>::empty(),
            proc_at(k, 0).condvar_list@ == Seq::<Option<usize>>::empty(),
            proc_at(k, 0).mutex_res@ == Seq::<i64>::empty(),
            proc_at(k, 0).semaphore_res@ == Seq::<i64>::empty(),
            proc_at(k, 0).tasks.len() == 1,
            task_at(k, TaskRef { pid: 0, tid: 0 }) == (TaskControlBlock {
                inner: crate::task::TaskControlBlockInner {
                    task_status: TaskStatus::Running,
                    ..task_at(k, TaskRef { pid: 0, tid: 0 }).inner
                },
                ..task_at(k, TaskRef { pid: 0, tid: 0 })
            }),
            task_at(k, TaskRef { pid: 0, tid: 0 }).process == 0,
            task_at(k, TaskRef { pid: 0, tid: 0 }).inner.trap_cx == (TrapContext { a0: 0 }),
            task_at(k, TaskRef { pid: 0, tid: 0 }).inner.task_status == TaskStatus::Running,
            task_at(k, TaskRef { pid: 0, tid: 0 }).inner.exit_code == None::<i32>,
            task_at(k, TaskRef { pid: 0, tid: 0 }).inner.syscall_times@ == Seq::new(
                crate::task::MAX_SYSCALL_NUM as nat,
                |i: int| 0u32,
            ),
            task_at(k, TaskRef { pid: 0, tid: 0 }).inner.time == 0,
            task_at(k, TaskRef { pid: 0, tid: 0 }).inner.priority
                == crate::task::DEFAULT_PRIORITY,
            task_at(k, TaskRef { pid: 0, tid: 0 }).inner.stride == 0,
            task_at(k, TaskRef { pid: 0, tid: 0 }).inner.mutex_alloc@ == Seq::<i64>::empty(),
            task_at(k, TaskRef { pid: 0, tid: 0 }).inner.mutex_need@ == Seq::<i64>::empty(),
            task_at(k, TaskRef { pid: 0, tid: 0 }).inner.semaphore_alloc@ == Seq::<i64>::empty(),
            task_at(k, TaskRef { pid: 0, tid: 0 }).inner.semaphore_need@ == Seq::<i64>::empty(),
            k.running == Some(TaskRef { pid: 0, tid: 0 }),
            k.ready.len() == 0,
            k.mutexes.len() == 0,
            k.semaphores.len() == 0,
            k.condvars.len() == 0,
            k.sleepers.len() == 0,
            k.clock_ms == 0,
            k.next_token == 1,
            proc_at(k, 0).memory_set.areas@ == Seq::<crate::mem::MapArea>::empty(),
            proc_at(k, 0).memory_set.heap_bottom == heap_bottom,
            proc_at(k, 0).memory_set.program_brk == heap_bottom,
            !proc_at(k, 0).open_detect,
    {
        let mut root = ProcessControlBlock::new(0, None, 0, heap_bottom);
        let mut t = TaskControlBlock::new(0, 0, 0);
        t.inner.task_status = TaskStatus::Running;
        root.tasks.push(Some(t));
        let mut procs: Vec<Option<ProcessControlBlock>> = Vec::new();
        procs.push(Some(root));
        Kernel {
            procs,
            ready: Vec::new(),
            running: Some(TaskRef { pid: 0, tid: 0 }),
            mutexes: Vec::new(),
            semaphores: Vec::new(),
            condvars: Vec::new(),
            sleepers: Vec::new(),
            clock_ms: 0,
            next_token: 1,
        }
    }
}

/// The process id of the calling process.
pub fn sys_getpid(k: &Kernel) -> (r: isize)
    requires
        kwf(*k),
        k.running is Some,
    ensures
        r == cur_ref(*k).pid as isize,
{
    match &k.running {
        Some(r) => r.pid as isize,
        None => unreached(),
    }
}

/// Sets the calling task's scheduling weight: `-1` for a weight below 2,
/// the weight itself otherwise.
#[verifier::rlimit(100)]
pub fn sys_set_priority(k: &mut Kernel, prio: isize) -> (r: isize)
    requires
        kwf(*old(k)),
        old(k).running is Some,
    ensures
        kwf(*final(k)),
        prio < 2 ==> r == -1 && *final(k) == *old(k),
        prio >= 2 ==> r == prio && procs_same_except(
            *old(k),
            *final(k),
            cur_ref(*old(k)).pid as int,
        ) && cur_task(*final(k)).inner == (crate::task::TaskControlBlockInner {
            priority: prio as u64,
            ..cur_task(*old(k)).inner
        }) && sched_unchanged(*old(k), *final(k)) && arenas_unchanged(*old(k), *final(k)) && final(k).running == old(k).running && final(k).next_token == old(k).next_token && (forall|t: int|
            0 <= t < cur_proc(*old(k)).tasks.len() && t != cur_ref(*old(k)).tid as int
                ==> cur_proc(*final(k)).tasks[t] == #[trigger] cur_proc(*old(k)).tasks[t]) && (
        cur_proc(*final(k)) == ProcessControlBlock {
            tasks: cur_proc(*final(k)).tasks,
            ..cur_proc(*old(k))
        }),
{
    if prio < 2 {
        return -1;
    }
    let r = match &k.running {
        Some(r) => *r,
        None => unreached(),
    };
    let p = proc_mut(&mut k.procs, r.pid);
    let t = task_mut(&mut p.tasks, r.tid);
    t.inner.priority = prio as u64;
    prio
}

/// Turns deadlock detection on (`1`) or off (`0`) for the calling process;
/// any other value is invalid.  Turning it on sizes the resource vectors
/// and every task's tracking vectors to the current tables, crediting each
/// slot with the units currently available.
pub fn sys_enable_deadlock_detect(k: &mut Kernel, enabled: usize) -> (r: isize)
    requires
        kwf(*old(k)),
        old(k).running is Some,
    ensures
        kwf(*final(k)),
        enabled != 0 && enabled != 1 ==> r == -1 && *final(k) == *old(k),
        enabled == 0 ==> r == 0 && procs_same_except(
            *old(k),
            *final(k),
            cur_ref(*old(k)).pid as int,
        ) && cur_proc(*final(k)) == (ProcessControlBlock {
            open_detect: false,
            ..cur_proc(*old(k))
        }) && sched_unchanged(*old(k), *final(k)) && arenas_unchanged(*old(k), *final(k)) && final(k).running == old(k).running,
        enabled == 1 ==> r == 0 && procs_same_except(
            *old(k),
            *final(k),
            cur_ref(*old(k)).pid as int,
        ) && cur_proc(*final(k)).open_detect && detect_vectors_ok(cur_proc(*final(k)))
            && sched_unchanged(*old(k), *final(k)) && arenas_unchanged(*old(k), *final(k)) && final(k).running == old(k).running,
{
    if enabled == 0 {
        let r = match &k.running {
            Some(r) => *r,
            None => unreached(),
        };
        let p = proc_mut(&mut k.procs, r.pid);
        p.open_detect = false;
        0
    } else if enabled == 1 {
        enable_detection(k);
        0
    } else {
        -1
    }
}

/// `n` is truncated or zero-extended from `o` to length `len`: existing
/// entries are kept in place, missing ones become zero.
pub open spec fn vec_resized(n: Seq<i64>, o: Seq<i64>, len: int) -> bool {
    &&& n.len() == len
    &&& (forall|j: int| 0 <= j < len && j < o.len() ==> #[trigger] n[j] == o[j])
    &&& (forall|j: int| 0 <= j < len && j >= o.len() ==> #[trigger] n[j] == 0i64)
}

/// The detection switch-on: resizes every detector vector to the tables and
/// credits each slot with its currently available units.
#[verifier::rlimit(80)]
fn enable_detection(k: &mut Kernel)
    requires
        kwf(*old(k)),
        old(k).running is Some,
    ensures
        kwf(*final(k)),
        procs_same_except(*old(k), *final(k), cur_ref(*old(k)).pid as int),
        cur_proc(*final(k)).open_detect,
        detect_vectors_ok(cur_proc(*final(k))),
        cur_proc(*final(k)) == (ProcessControlBlock {
            mutex_res: cur_proc(*final(k)).mutex_res,
            semaphore_res: cur_proc(*final(k)).semaphore_res,
            tasks: cur_proc(*final(k)).tasks,
            open_detect: true,
            ..cur_proc(*old(k))
        }),
        forall|i: int|
            0 <= i < cur_proc(*old(k)).mutex_list.len() ==> #[trigger] cur_proc(
                *final(k),
            ).mutex_res@[i] == (if cur_proc(*old(k)).mutex_list@[i] is Some && old(k).mutexes[cur_proc(
                *old(k),
            ).mutex_list@[i]->Some_0 as int].locked {
                0i64
            } else {
                1i64
            }),
        forall|i: int|
            0 <= i < cur_proc(*old(k)).semaphore_list.len() ==> #[trigger] cur_proc(
                *final(k),
            ).semaphore_res@[i] == (if cur_proc(*old(k)).semaphore_list@[i] is Some {
                (if old(k).semaphores[cur_proc(*old(k)).semaphore_list@[i]->Some_0 as int].count
                    > 0 {
                    old(k).semaphores[cur_proc(*old(k)).semaphore_list@[i]->Some_0 as int].count
                } else {
                    0i64
                })
            } else {
                0i64
            }),
        cur_proc(*final(k)).tasks.len() == cur_proc(*old(k)).tasks.len(),
        forall|t: int|
            0 <= t < cur_proc(*old(k)).tasks.len() ==> (#[trigger] cur_proc(
                *final(k),
            ).tasks[t] is Some <==> cur_proc(*old(k)).tasks[t] is Some),
        forall|t: int|
            0 <= t < cur_proc(*old(k)).tasks.len() && #[trigger] cur_proc(*old(k)).tasks[t] is Some
                ==> {
                let tn = cur_proc(*final(k)).tasks[t]->Some_0;
                let to = cur_proc(*old(k)).tasks[t]->Some_0;
                &&& tn == (TaskControlBlock {
                    inner: crate::task::TaskControlBlockInner {
                        mutex_alloc: tn.inner.mutex_alloc,
                        mutex_need: tn.inner.mutex_need,
                        semaphore_alloc: tn.inner.semaphore_alloc,
                        semaphore_need: tn.inner.semaphore_need,
                        ..to.inner
                    },
                    ..to
                })
                &&& vec_resized(tn.inner.mutex_alloc@, to.inner.mutex_alloc@, cur_proc(*old(k)).mutex_list@.len() as int)
                &&& vec_resized(tn.inner.mutex_need@, to.inner.mutex_need@, cur_proc(*old(k)).mutex_list@.len() as int)
                &&& vec_resized(tn.inner.semaphore_alloc@, to.inner.semaphore_alloc@, cur_proc(*old(k)).semaphore_list@.len() as int)
                &&& vec_resized(tn.inner.semaphore_need@, to.inner.semaphore_need@, cur_proc(*old(k)).semaphore_list@.len() as int)
            },
        sched_unchanged(*old(k), *final(k)),
        arenas_unchanged(*old(k), *final(k)),
        final(k).running == old(k).running,
        final(k).next_token == old(k).next_token,
{
    let r = match &k.running {
        Some(r) => *r,
        None => unreached(),
    };
    let ghost pre = *k;
    let n_mutex_total = k.mutexes.len();
    // Available units per mutex slot: 1 when the slot's instance is free.
    let mut mres: Vec<i64> = Vec::new();
    let mut sres: Vec<i64> = Vec::new();
    {
        let p = proc_ref(&k.procs, r.pid);
        let mut i: usize = 0;
        while i < p.mutex_list.len()
            invariant
                i <= p.mutex_list.len(),
                mres.len() == i,
                forall|j: int|
                    0 <= j < i ==> #[trigger] mres@[j] == (if p.mutex_list@[j] is Some
                        && pre.mutexes[p.mutex_list@[j]->Some_0 as int].locked {
                        0i64
                    } else {
                        1i64
                    }),
                forall|j: int| 0 <= j < i ==> 0 <= #[trigger] mres[j] <= 1,
                *p == proc_at(pre, r.pid as int),
                kwf(pre),
                r.pid < pre.procs.len(),
                pre.procs[r.pid as int] is Some,
                pre == *k,
            decreases p.mutex_list.len() - i,
        {
            match p.mutex_list[i] {
                Some(m) => {
                    proof {
                        assert(proc_wf(
                            *p,
                            r.pid as int,
                            pre.procs.len() as int,
                            pre.mutexes.len() as int,
                            pre.semaphores.len() as int,
                            pre.condvars.len() as int,
                        ));
                    }
                    if k.mutexes[m].locked {
                        mres.push(0);
                    } else {
                        mres.push(1);
                    }
                },
                None => {
                    mres.push(1);
                },
            }
            i += 1;
        }
        let mut i2: usize = 0;
        while i2 < p.semaphore_list.len()
            invariant
                i2 <= p.semaphore_list.len(),
                sres.len() == i2,
                forall|j: int|
                    0 <= j < i2 ==> #[trigger] sres@[j] == (if p.semaphore_list@[j] is Some {
                        (if pre.semaphores[p.semaphore_list@[j]->Some_0 as int].count > 0 {
                            pre.semaphores[p.semaphore_list@[j]->Some_0 as int].count
                        } else {
                            0i64
                        })
                    } else {
                        0i64
                    }),
                forall|j: int| 0 <= j < i2 ==> -COUNTER_CAP <= #[trigger] sres[j] <= COUNTER_CAP,
                *p == proc_at(pre, r.pid as int),
                kwf(pre),
                r.pid < pre.procs.len(),
                pre.procs[r.pid as int] is Some,
                pre == *k,
            decreases p.semaphore_list.len() - i2,
        {
            match p.semaphore_list[i2] {
                Some(s) => {
                    proof {
                        assert(proc_wf(
                            *p,
                            r.pid as int,
                            pre.procs.len() as int,
                            pre.mutexes.len() as int,
                            pre.semaphores.len() as int,
                            pre.condvars.len() as int,
                        ));
                    }
                    let c = k.semaphores[s].count;
                    if c > 0 {
                        sres.push(c);
                    } else {
                        sres.push(0);
                    }
                },
                None => {
                    sres.push(0);
                },
            }
            i2 += 1;
        }
    }
    let p = proc_mut(&mut k.procs, r.pid);
    let nm = p.mutex_list.len();
    let ns = p.semaphore_list.len();
    p.mutex_res = mres;
    p.semaphore_res = sres;
    let ghost snap = *p;
    proof {
        assert(proc_wf(
            proc_at(pre, r.pid as int),
            r.pid as int,
            pre.procs.len() as int,
            pre.mutexes.len() as int,
            pre.semaphores.len() as int,
            pre.condvars.len() as int,
        ));
    }
    let mut t: usize = 0;
    while t < p.tasks.len()
        invariant
            t <= p.tasks.len(),
            *p == (ProcessControlBlock { tasks: p.tasks, ..snap }),
            p.tasks.len() == snap.tasks.len(),
            snap.tasks == proc_at(pre, r.pid as int).tasks,
            crate::process::counters_bounded(proc_at(pre, r.pid as int)),
            forall|x: int|
                0 <= x < snap.tasks.len() && #[trigger] snap.tasks[x] is Some
                    ==> snap.tasks[x]->Some_0.process == r.pid
                    && snap.tasks[x]->Some_0.inner.priority >= 2,
            nm == p.mutex_list.len(),
            ns == p.semaphore_list.len(),
            forall|x: int| t <= x < p.tasks.len() ==> p.tasks[x] == snap.tasks[x],
            forall|x: int|
                0 <= x < t ==> (#[trigger] p.tasks[x] is Some <==> snap.tasks[x] is Some),
            forall|x: int|
                0 <= x < t && #[trigger] p.tasks[x] is Some ==> {
                    let tn = p.tasks[x]->Some_0;
                    let to = snap.tasks[x]->Some_0;
                    &&& tn == (TaskControlBlock {
                        inner: crate::task::TaskControlBlockInner {
                            mutex_alloc: tn.inner.mutex_alloc,
                            mutex_need: tn.inner.mutex_need,
                            semaphore_alloc: tn.inner.semaphore_alloc,
                            semaphore_need: tn.inner.semaphore_need,
                            ..to.inner
                        },
                        ..to
                    })
                    &&& vec_resized(tn.inner.mutex_alloc@, to.inner.mutex_alloc@, nm as int)
                    &&& vec_resized(tn.inner.mutex_need@, to.inner.mutex_need@, nm as int)
                    &&& vec_resized(tn.inner.semaphore_alloc@, to.inner.semaphore_alloc@, ns as int)
                    &&& vec_resized(tn.inner.semaphore_need@, to.inner.semaphore_need@, ns as int)
                    &&& tn.process == r.pid
                    &&& tn.inner.priority >= 2
                    &&& counters_ok_task(tn)
                },
        decreases p.tasks.len() - t,
    {
        let is_live = p.tasks[t].is_some();
        if is_live {
            let ghost old_tasks = p.tasks@;
            let tk = task_mut(&mut p.tasks, t);
            tk.inner.mutex_alloc = resize_zeros(&tk.inner.mutex_alloc, nm);
            tk.inner.mutex_need = resize_zeros(&tk.inner.mutex_need, nm);
            tk.inner.semaphore_alloc = resize_zeros(&tk.inner.semaphore_alloc, ns);
            tk.inner.semaphore_need = resize_zeros(&tk.inner.semaphore_need, ns);
            proof {
                assert(p.tasks@ == old_tasks.update(
                    t as int,
                    Some(p.tasks@[t as int]->Some_0),
                ));
                let tn = p.tasks@[t as int]->Some_0;
                let to = snap.tasks[t as int]->Some_0;
                assert(proc_at(pre, r.pid as int).tasks[t as int]->Some_0 == to);
                assert forall|j: int|
                    0 <= j < tn.inner.mutex_alloc.len() implies -COUNTER_CAP
                    <= #[trigger] tn.inner.mutex_alloc[j] <= COUNTER_CAP by {
                    if j < to.inner.mutex_alloc.len() {
                        assert(tn.inner.mutex_alloc[j] == to.inner.mutex_alloc[j]);
                    } else {
                        assert(tn.inner.mutex_alloc[j] == 0i64);
                    }
                }
                assert forall|j: int|
                    0 <= j < tn.inner.mutex_need.len() implies -COUNTER_CAP
                    <= #[trigger] tn.inner.mutex_need[j] <= COUNTER_CAP by {
                    if j < to.inner.mutex_need.len() {
                        assert(tn.inner.mutex_need[j] == to.inner.mutex_need[j]);
                    } else {
                        assert(tn.inner.mutex_need[j] == 0i64);
                    }
                }
                assert forall|j: int|
                    0 <= j < tn.inner.semaphore_alloc.len() implies -COUNTER_CAP
                    <= #[trigger] tn.inner.semaphore_alloc[j] <= COUNTER_CAP by {
                    if j < to.inner.semaphore_alloc.len() {
                        assert(tn.inner.semaphore_alloc[j] == to.inner.semaphore_alloc[j]);
                    } else {
                        assert(tn.inner.semaphore_alloc[j] == 0i64);
                    }
                }
                assert forall|j: int|
                    0 <= j < tn.inner.semaphore_need.len() implies -COUNTER_CAP
                    <= #[trigger] tn.inner.semaphore_need[j] <= COUNTER_CAP by {
                    if j < to.inner.semaphore_need.len() {
                        assert(tn.inner.semaphore_need[j] == to.inner.semaphore_need[j]);
                    } else {
                        assert(tn.inner.semaphore_need[j] == 0i64);
                    }
                }
                assert(counters_ok_task(tn));
            }
        }
        t += 1;
    }
    p.open_detect = true;
}

/// Only the task `r` (and nothing else among the processes) differs
/// between `a` and `b`; its slot stays occupied.
pub open spec fn only_task_changed(a: Kernel, b: Kernel, r: TaskRef) -> bool {
    &&& procs_same_except(a, b, r.pid as int)
    &&& r.pid < b.procs.len()
    &&& b.procs[r.pid as int] is Some
    &&& proc_at(b, r.pid as int) == (ProcessControlBlock {
        tasks: proc_at(b, r.pid as int).tasks,
        ..proc_at(a, r.pid as int)
    })
    &&& proc_at(b, r.pid as int).tasks.len() == proc_at(a, r.pid as int).tasks.len()
    &&& forall|x: int|
        0 <= x < proc_at(a, r.pid as int).tasks.len() && x != r.tid as int ==> proc_at(
            b,
            r.pid as int,
        ).tasks[x] == #[trigger] proc_at(a, r.pid as int).tasks[x]
    &&& proc_at(b, r.pid as int).tasks[r.tid as int] is Some
}

/// What one selection does: with an empty queue the CPU goes idle;
/// otherwise the first minimal-stride entry leaves the queue, its task
/// becomes Running, and its stride grows by `BIG_STRIDE / priority`.
pub open spec fn fetch_rel(a: Kernel, b: Kernel) -> bool {
    if a.ready.len() == 0 {
        b == a
    } else {
        let i = pick_of(entry_strides(a.ready@));
        let e = a.ready@[i];
        &&& 0 <= i < a.ready.len()
        &&& b.ready@ == a.ready@.remove(i)
        &&& b.running == Some(e.to_ref())
        &&& only_task_changed(a, b, e.to_ref())
        &&& task_at(b, e.to_ref()).inner == (crate::task::TaskControlBlockInner {
            task_status: TaskStatus::Running,
            stride: wadd64(
                task_at(a, e.to_ref()).inner.stride,
                BIG_STRIDE / task_at(a, e.to_ref()).inner.priority,
            ),
            ..task_at(a, e.to_ref()).inner
        })
        &&& b.sleepers == a.sleepers
        &&& b.clock_ms == a.clock_ms
        &&& arenas_unchanged(a, b)
        &&& b.next_token == a.next_token
    }
}

/// The step a yield makes before selection: the caller turns Ready and
/// joins the queue tail, and the CPU is momentarily idle.
pub open spec fn yield_mid_rel(a: Kernel, b: Kernel) -> bool {
    &&& a.running is Some
    &&& only_task_changed(a, b, cur_ref(a))
    &&& task_at(b, cur_ref(a)).inner == (crate::task::TaskControlBlockInner {
        task_status: TaskStatus::Ready,
        ..cur_task(a).inner
    })
    &&& b.ready@ == a.ready@.push(
        ReadyEntry {
            pid: cur_ref(a).pid,
            tid: cur_ref(a).tid,
            stride: cur_task(a).inner.stride,
        },
    )
    &&& b.running is None
    &&& b.sleepers == a.sleepers
    &&& b.clock_ms == a.clock_ms
    &&& arenas_unchanged(a, b)
    &&& b.next_token == a.next_token
}

/// Task references stay valid across a single-task update.
pub proof fn lemma_ref_ok_after_task_update(a: Kernel, b: Kernel, r: TaskRef, x: TaskRef)
    requires
        only_task_changed(a, b, r),
        ref_ok(a, x),
    ensures
        ref_ok(b, x),
{
}

/// Well-formedness survives an update of one task that keeps its owner, a
/// weight of at least 2, and its four tracking vectors, as long as every
/// queue of the new state names tasks that existed in the old one and the
/// arenas keep their sizes and bounded counts.
#[verifier::rlimit(100)]
pub proof fn lemma_kwf_after_task_update(a: Kernel, b: Kernel, r: TaskRef)
    requires
        kwf(a),
        ref_ok(a, r),
        only_task_changed(a, b, r),
        task_at(b, r).process == task_at(a, r).process,
        task_at(b, r).inner.priority >= 2,
        task_at(b, r).inner.mutex_alloc.len() == task_at(a, r).inner.mutex_alloc.len(),
        task_at(b, r).inner.mutex_need.len() == task_at(a, r).inner.mutex_need.len(),
        task_at(b, r).inner.semaphore_alloc.len() == task_at(a, r).inner.semaphore_alloc.len(),
        task_at(b, r).inner.semaphore_need.len() == task_at(a, r).inner.semaphore_need.len(),
        counters_ok_task(task_at(b, r)),
        b.mutexes.len() == a.mutexes.len(),
        b.semaphores.len() == a.semaphores.len(),
        b.condvars.len() == a.condvars.len(),
        forall|i: int| 0 <= i < b.ready.len() ==> ref_ok(a, (#[trigger] b.ready[i]).to_ref()),
        b.running is Some ==> ref_ok(a, b.running->Some_0),
        forall|i: int| 0 <= i < b.sleepers.len() ==> ref_ok(a, (#[trigger] b.sleepers[i]).task),
        forall|m: int, w: int|
            0 <= m < b.mutexes.len() && 0 <= w < b.mutexes[m].waiters.len() ==> ref_ok(
                a,
                (#[trigger] b.mutexes[m].waiters[w]).task,
            ),
        forall|m: int, w: int|
            0 <= m < b.semaphores.len() && 0 <= w < b.semaphores[m].waiters.len() ==> ref_ok(
                a,
                (#[trigger] b.semaphores[m].waiters[w]).task,
            ),
        forall|m: int, w: int|
            0 <= m < b.condvars.len() && 0 <= w < b.condvars[m].waiters.len() ==> ref_ok(
                a,
                (#[trigger] b.condvars[m].waiters[w]).task,
            ) && b.condvars[m].waiters[w].mutex_arena < b.mutexes.len(),
        forall|m: int|
            0 <= m < b.semaphores.len() ==> -COUNTER_CAP <= (#[trigger] b.semaphores[m]).count
                <= COUNTER_CAP,
    ensures
        kwf(b),
{
    let pid = r.pid as int;
    assert(proc_wf(
        proc_at(a, pid),
        pid,
        a.procs.len() as int,
        a.mutexes.len() as int,
        a.semaphores.len() as int,
        a.condvars.len() as int,
    ));
    assert forall|p: int| 0 <= p < b.procs.len() && #[trigger] b.procs[p] is Some implies proc_wf(
        b.procs[p]->Some_0,
        p,
        b.procs.len() as int,
        b.mutexes.len() as int,
        b.semaphores.len() as int,
        b.condvars.len() as int,
    ) by {
        if p != pid {
            assert(b.procs[p] == a.procs[p]);
        } else {
            crate::process::lemma_proc_wf_task_update(
                proc_at(a, pid),
                proc_at(b, pid),
                r.tid as int,
                pid,
                a.procs.len() as int,
                a.mutexes.len() as int,
                a.semaphores.len() as int,
                a.condvars.len() as int,
            );
        }
    }
    assert forall|i: int| 0 <= i < b.ready.len() implies ref_ok(
        b,
        (#[trigger] b.ready[i]).to_ref(),
    ) by {
        lemma_ref_ok_after_task_update(a, b, r, b.ready[i].to_ref());
    }
    assert forall|i: int| 0 <= i < b.sleepers.len() implies ref_ok(
        b,
        (#[trigger] b.sleepers[i]).task,
    ) by {
        lemma_ref_ok_after_task_update(a, b, r, b.sleepers[i].task);
    }
    if b.running is Some {
        lemma_ref_ok_after_task_update(a, b, r, b.running->Some_0);
    }
    assert forall|m: int, w: int|
        0 <= m < b.mutexes.len() && 0 <= w < b.mutexes[m].waiters.len() implies ref_ok(
        b,
        (#[trigger] b.mutexes[m].waiters[w]).task,
    ) by {
        lemma_ref_ok_after_task_update(a, b, r, b.mutexes[m].waiters[w].task);
    }
    assert forall|m: int, w: int|
        0 <= m < b.semaphores.len() && 0 <= w < b.semaphores[m].waiters.len() implies ref_ok(
        b,
        (#[trigger] b.semaphores[m].waiters[w]).task,
    ) by {
        lemma_ref_ok_after_task_update(a, b, r, b.semaphores[m].waiters[w].task);
    }
    assert forall|m: int, w: int|
        0 <= m < b.condvars.len() && 0 <= w < b.condvars[m].waiters.len() implies ref_ok(
        b,
        (#[trigger] b.condvars[m].waiters[w]).task,
    ) && b.condvars[m].waiters[w].mutex_arena < b.mutexes.len() by {
        lemma_ref_ok_after_task_update(a, b, r, b.condvars[m].waiters[w].task);
    }
}

/// Task references stay valid when one process changes without moving its
/// task slots.
pub proof fn lemma_ref_ok_after_proc_update(a: Kernel, b: Kernel, pid: int, x: TaskRef)
    requires
        procs_same_except(a, b, pid),
        0 <= pid < b.procs.len(),
        b.procs[pid] is Some,
        proc_at(b, pid).tasks.len() >= proc_at(a, pid).tasks.len(),
        forall|t: int|
            0 <= t < proc_at(a, pid).tasks.len() && proc_at(a, pid).tasks[t] is Some
                ==> #[trigger] proc_at(b, pid).tasks[t] is Some,
        ref_ok(a, x),
    ensures
        ref_ok(b, x),
{
}

/// Well-formedness survives replacing one process by a well-formed one with
/// the same children and task-slot shape, while the arenas only grow and
/// their old entries stay put.
#[verifier::rlimit(100)]
pub proof fn lemma_kwf_after_proc_update(a: Kernel, b: Kernel, pid: int)
    requires
        kwf(a),
        0 <= pid < a.procs.len(),
        a.procs[pid] is Some,
        procs_same_except(a, b, pid),
        b.procs[pid] is Some,
        proc_wf(
            proc_at(b, pid),
            pid,
            b.procs.len() as int,
            b.mutexes.len() as int,
            b.semaphores.len() as int,
            b.condvars.len() as int,
        ),
        proc_at(b, pid).children == proc_at(a, pid).children,
        proc_at(b, pid).zombie == proc_at(a, pid).zombie,
        proc_at(b, pid).tasks.len() >= proc_at(a, pid).tasks.len(),
        forall|t: int|
            0 <= t < proc_at(a, pid).tasks.len() && proc_at(a, pid).tasks[t] is Some
                ==> #[trigger] proc_at(b, pid).tasks[t] is Some,
        b.ready == a.ready,
        b.running == a.running,
        b.sleepers == a.sleepers,
        b.mutexes.len() >= a.mutexes.len(),
        b.semaphores.len() >= a.semaphores.len(),
        b.condvars.len() >= a.condvars.len(),
        forall|m: int| 0 <= m < a.mutexes.len() ==> #[trigger] b.mutexes[m] == a.mutexes[m],
        forall|m: int|
            a.mutexes.len() <= m < b.mutexes.len() ==> (#[trigger] b.mutexes[m]).waiters.len() == 0,
        forall|m: int| 0 <= m < a.semaphores.len() ==> #[trigger] b.semaphores[m] == a.semaphores[m],
        forall|m: int|
            a.semaphores.len() <= m < b.semaphores.len() ==> (#[trigger] b.semaphores[m]).waiters.len()
                == 0 && -COUNTER_CAP <= b.semaphores[m].count <= COUNTER_CAP,
        forall|m: int| 0 <= m < a.condvars.len() ==> #[trigger] b.condvars[m] == a.condvars[m],
        forall|m: int|
            a.condvars.len() <= m < b.condvars.len() ==> (#[trigger] b.condvars[m]).waiters.len()
                == 0,
    ensures
        kwf(b),
{
    assert forall|p: int| 0 <= p < b.procs.len() && #[trigger] b.procs[p] is Some implies proc_wf(
        b.procs[p]->Some_0,
        p,
        b.procs.len() as int,
        b.mutexes.len() as int,
        b.semaphores.len() as int,
        b.condvars.len() as int,
    ) by {
        if p != pid {
            assert(b.procs[p] == a.procs[p]);
            assert(proc_wf(
                a.procs[p]->Some_0,
                p,
                a.procs.len() as int,
                a.mutexes.len() as int,
                a.semaphores.len() as int,
                a.condvars.len() as int,
            ));
        }
    }
    assert forall|i: int| 0 <= i < b.ready.len() implies ref_ok(
        b,
        (#[trigger] b.ready[i]).to_ref(),
    ) by {
        lemma_ref_ok_after_proc_update(a, b, pid, b.ready[i].to_ref());
    }
    assert forall|i: int| 0 <= i < b.sleepers.len() implies ref_ok(
        b,
        (#[trigger] b.sleepers[i]).task,
    ) by {
        lemma_ref_ok_after_proc_update(a, b, pid, b.sleepers[i].task);
    }
    if b.running is Some {
        lemma_ref_ok_after_proc_update(a, b, pid, b.running->Some_0);
    }
    assert forall|m: int, w: int|
        0 <= m < b.mutexes.len() && 0 <= w < b.mutexes[m].waiters.len() implies ref_ok(
        b,
        (#[trigger] b.mutexes[m].waiters[w]).task,
    ) by {
        assert(m < a.mutexes.len());
        lemma_ref_ok_after_proc_update(a, b, pid, b.mutexes[m].waiters[w].task);
    }
    assert forall|m: int, w: int|
        0 <= m < b.semaphores.len() && 0 <= w < b.semaphores[m].waiters.len() implies ref_ok(
        b,
        (#[trigger] b.semaphores[m].waiters[w]).task,
    ) by {
        assert(m < a.semaphores.len());
        lemma_ref_ok_after_proc_update(a, b, pid, b.semaphores[m].waiters[w].task);
    }
    assert forall|m: int, w: int|
        0 <= m < b.condvars.len() && 0 <= w < b.condvars[m].waiters.len() implies ref_ok(
        b,
        (#[trigger] b.condvars[m].waiters[w]).task,
    ) && b.condvars[m].waiters[w].mutex_arena < b.mutexes.len() by {
        assert(m < a.condvars.len());
        lemma_ref_ok_after_proc_update(a, b, pid, b.condvars[m].waiters[w].task);
    }
}

/// Every live task's counters sit within the clamp bound; read off the
/// owning process's well-formedness.
pub proof fn lemma_counters_ok_of(a: Kernel, r: TaskRef)
    requires
        kwf(a),
        ref_ok(a, r),
    ensures
        counters_ok_task(task_at(a, r)),
{
    assert(proc_wf(
        proc_at(a, r.pid as int),
        r.pid as int,
        a.procs.len() as int,
        a.mutexes.len() as int,
        a.semaphores.len() as int,
        a.condvars.len() as int,
    ));
    assert(crate::process::counters_bounded(proc_at(a, r.pid as int)));
}

/// Appends `r`, with its current stride, to the ready-queue tail.
fn enqueue_ready(k: &mut Kernel, r: TaskRef)
    requires
        kwf(*old(k)),
        ref_ok(*old(k), r),
    ensures
        kwf(*final(k)),
        final(k).ready@ == old(k).ready@.push(
            ReadyEntry { pid: r.pid, tid: r.tid, stride: task_at(*old(k), r).inner.stride },
        ),
        *final(k) == (Kernel { ready: final(k).ready, ..*old(k) }),
{
    let stride = {
        let p = proc_ref(&k.procs, r.pid);
        let t = task_ref(&p.tasks, r.tid);
        t.inner.stride
    };
    k.ready.push(ReadyEntry { pid: r.pid, tid: r.tid, stride });
}

/// One selection; the caller has already disposed of the previous task.
#[verifier::rlimit(100)]
fn fetch(k: &mut Kernel)
    requires
        kwf(*old(k)),
        old(k).running is None,
    ensures
        kwf(*final(k)),
        fetch_rel(*old(k), *final(k)),
{
    if k.ready.len() == 0 {
        return ;
    }
    let i = pick_min(&k.ready);
    let e = k.ready.remove(i);
    proof {
        assert(ref_ok(*old(k), e.to_ref()));
        assert forall|j: int| 0 <= j < k.ready.len() implies ref_ok(
            *old(k),
            (#[trigger] k.ready[j]).to_ref(),
        ) by {
            if j < i {
                assert(k.ready[j] == old(k).ready[j]);
            } else {
                assert(k.ready[j] == old(k).ready[j + 1]);
            }
        }
    }
    let p = proc_mut(&mut k.procs, e.pid);
    let t = task_mut(&mut p.tasks, e.tid);
    t.inner.task_status = TaskStatus::Running;
    let inc = BIG_STRIDE / t.inner.priority;
    t.inner.stride = wrapping_add64(t.inner.stride, inc);
    k.running = Some(TaskRef { pid: e.pid, tid: e.tid });
}

/// The caller gives up the CPU: it turns Ready, joins the queue tail, and a
/// selection runs.
/// Marks the caller Ready and sends it to the queue tail, leaving the CPU
/// momentarily idle.
#[verifier::rlimit(100)]
#[verifier::spinoff_prover]
fn suspend_current(k: &mut Kernel)
    requires
        kwf(*old(k)),
        old(k).running is Some,
    ensures
        kwf(*final(k)),
        yield_mid_rel(*old(k), *final(k)),
{
    let rf = match &k.running {
        Some(rf) => *rf,
        None => unreached(),
    };
    {
        let p = proc_mut(&mut k.procs, rf.pid);
        let t = task_mut(&mut p.tasks, rf.tid);
        t.inner.task_status = TaskStatus::Ready;
    }
    enqueue_ready(k, rf);
    k.running = None;
    proof {
        let a = *old(k);
        assert forall|i: int| 0 <= i < k.ready.len() implies ref_ok(
            a,
            (#[trigger] k.ready[i]).to_ref(),
        ) by {
            if i < a.ready.len() {
                assert(k.ready[i] == a.ready[i]);
            } else {
                assert(k.ready[i].to_ref() == rf);
            }
        }
        lemma_counters_ok_of(a, rf);
        assert(only_task_changed(a, *k, rf));
        lemma_kwf_after_task_update(a, *k, rf);
    }
}

/// The caller gives up the CPU without blocking: it turns Ready, joins the
/// queue tail, and a selection runs.
pub fn sys_yield(k: &mut Kernel) -> (r: isize)
    requires
        kwf(*old(k)),
        old(k).running is Some,
    ensures
        kwf(*final(k)),
        r == 0,
        exists|mid: Kernel| #[trigger] yield_mid_rel(*old(k), mid) && fetch_rel(mid, *final(k)),
{
    suspend_current(k);
    let ghost mid = *k;
    fetch(k);
    proof {
        assert(yield_mid_rel(*old(k), mid) && fetch_rel(mid, *final(k)));
    }
    0
}

/// The step a sleep makes before selection: the caller blocks and joins the
/// timer list with its due instant.
pub open spec fn sleep_mid_rel(a: Kernel, b: Kernel, expire: usize) -> bool {
    &&& a.running is Some
    &&& only_task_changed(a, b, cur_ref(a))
    &&& task_at(b, cur_ref(a)).inner == (crate::task::TaskControlBlockInner {
        task_status: TaskStatus::Blocked,
        ..cur_task(a).inner
    })
    &&& b.sleepers@ == a.sleepers@.push(SleepEntry { expire_ms: expire, task: cur_ref(a) })
    &&& b.ready == a.ready
    &&& b.running is None
    &&& b.clock_ms == a.clock_ms
    &&& arenas_unchanged(a, b)
    &&& b.next_token == a.next_token
}

/// The instant a sleep of `ms` started now is due back, saturating at the
/// clock type's end.
pub open spec fn sleep_deadline(now: usize, ms: usize) -> usize {
    if now + ms <= usize::MAX {
        (now + ms) as usize
    } else {
        usize::MAX
    }
}

/// The caller sleeps for `ms` milliseconds: it blocks on the timer list and
/// a selection runs; the timer interrupt re-enqueues it when the clock
/// passes the deadline.
#[verifier::rlimit(100)]
pub fn sys_sleep(k: &mut Kernel, ms: usize) -> (r: isize)
    requires
        kwf(*old(k)),
        old(k).running is Some,
    ensures
        kwf(*final(k)),
        r == 0,
        exists|mid: Kernel|
            #[trigger] sleep_mid_rel(*old(k), mid, sleep_deadline(old(k).clock_ms, ms))
                && fetch_rel(mid, *final(k)),
{
    let expire = if ms <= usize::MAX - k.clock_ms {
        k.clock_ms + ms
    } else {
        usize::MAX
    };
    let rf = match &k.running {
        Some(rf) => *rf,
        None => unreached(),
    };
    {
        let p = proc_mut(&mut k.procs, rf.pid);
        let t = task_mut(&mut p.tasks, rf.tid);
        t.inner.task_status = TaskStatus::Blocked;
    }
    k.sleepers.push(SleepEntry { expire_ms: expire, task: rf });
    k.running = None;
    let ghost mid = *k;
    proof {
        lemma_counters_ok_of(*old(k), rf);
        assert(only_task_changed(*old(k), mid, rf));
        lemma_kwf_after_task_update(*old(k), mid, rf);
        assert(sleep_mid_rel(*old(k), mid, sleep_deadline(old(k).clock_ms, ms)));
    }
    fetch(k);
    0
}

/// The sleepers still due after the clock reaches `now`: those with a
/// later deadline, in list order.
pub open spec fn kept_sleepers(s: Seq<SleepEntry>, now: int) -> Seq<SleepEntry>
    decreases s.len(),
{
    if s.len() == 0 {
        s
    } else {
        let rest = kept_sleepers(s.drop_last(), now);
        if s.last().expire_ms > now {
            rest.push(s.last())
        } else {
            rest
        }
    }
}

/// The tasks a tick at `now` wakes: those of the sleepers whose deadline
/// has arrived, in list order.
pub open spec fn woken_sleepers(s: Seq<SleepEntry>, now: int) -> Seq<TaskRef>
    decreases s.len(),
{
    if s.len() == 0 {
        Seq::empty()
    } else {
        let rest = woken_sleepers(s.drop_last(), now);
        if s.last().expire_ms <= now {
            rest.push(s.last().task)
        } else {
            rest
        }
    }
}

/// `r` occurs among the first `n` entries of `s`.
pub open spec fn ref_in(s: Seq<TaskRef>, n: int, r: TaskRef) -> bool {
    exists|x: int| 0 <= x < n && s[x] == r
}

/// Well-formedness survives replacing the sleeping list by one whose
/// entries all name existing tasks, with the clock moved.
proof fn lemma_kwf_after_sleeper_update(a: Kernel, b: Kernel)
    requires
        kwf(a),
        b == (Kernel { sleepers: b.sleepers, clock_ms: b.clock_ms, ..a }),
        forall|i: int| 0 <= i < b.sleepers.len() ==> ref_ok(a, (#[trigger] b.sleepers[i]).task),
    ensures
        kwf(b),
{
}

/// The timer interrupt's edge: the clock has advanced to `now_ms`; exactly
/// the sleepers whose deadline has arrived leave the sleeping list, each
/// turning Ready — nothing else about it changed — and joining the ready
/// queue's tail in list order; the later sleepers stay put.
#[verifier::rlimit(100)]
#[verifier::spinoff_prover]
pub fn timer_tick(k: &mut Kernel, now_ms: usize)
    requires
        kwf(*old(k)),
        old(k).clock_ms <= now_ms,
    ensures
        kwf(*final(k)),
        final(k).clock_ms == now_ms,
        final(k).sleepers@ == kept_sleepers(old(k).sleepers@, now_ms as int),
        ({
            let woken = woken_sleepers(old(k).sleepers@, now_ms as int);
            &&& final(k).ready@.len() == old(k).ready@.len() + woken.len()
            &&& (forall|x: int|
                0 <= x < old(k).ready@.len() ==> #[trigger] final(k).ready@[x] == old(k).ready@[x])
            &&& (forall|x: int|
                0 <= x < woken.len() ==> #[trigger] final(k).ready@[old(k).ready@.len() + x] == (
                ReadyEntry {
                    pid: woken[x].pid,
                    tid: woken[x].tid,
                    stride: task_at(*old(k), woken[x]).inner.stride,
                }))
            &&& final(k).procs.len() == old(k).procs.len()
            &&& (forall|p: int|
                0 <= p < old(k).procs.len() ==> (#[trigger] final(k).procs@[p] is Some <==> old(
                    k,
                ).procs@[p] is Some))
            &&& (forall|p: int|
                0 <= p < old(k).procs.len() && old(k).procs@[p] is Some ==> (#[trigger] proc_at(
                    *final(k),
                    p,
                )) == (ProcessControlBlock { tasks: proc_at(*final(k), p).tasks, ..proc_at(*old(k), p) })
                    && proc_at(*final(k), p).tasks.len() == proc_at(*old(k), p).tasks.len())
            &&& (forall|p: int, t: int|
                0 <= p < old(k).procs.len() && old(k).procs@[p] is Some && 0 <= t < proc_at(
                    *old(k),
                    p,
                ).tasks.len() ==> #[trigger] proc_at(*final(k), p).tasks[t] == (if ref_in(
                    woken,
                    woken.len() as int,
                    (TaskRef { pid: p as usize, tid: t as usize }),
                ) && proc_at(*old(k), p).tasks[t] is Some {
                    Some(
                        TaskControlBlock {
                            inner: (crate::task::TaskControlBlockInner {
                                task_status: TaskStatus::Ready,
                                ..proc_at(*old(k), p).tasks[t]->Some_0.inner
                            }),
                            ..proc_at(*old(k), p).tasks[t]->Some_0
                        },
                    )
                } else {
                    proc_at(*old(k), p).tasks[t]
                }))
        }),
        final(k).running == old(k).running,
        arenas_unchanged(*old(k), *final(k)),
        final(k).next_token == old(k).next_token,
{
    k.clock_ms = now_ms;
    let ghost pre = *old(k);
    let ghost woken = woken_sleepers(pre.sleepers@, now_ms as int);
    let mut kept: Vec<SleepEntry> = Vec::new();
    let mut due: Vec<TaskRef> = Vec::new();
    let n = k.sleepers.len();
    let mut i: usize = 0;
    while i < n
        invariant
            i <= n,
            n == pre.sleepers.len(),
            kwf(pre),
            *k == (Kernel { clock_ms: now_ms, ..pre }),
            kept@ == kept_sleepers(pre.sleepers@.take(i as int), now_ms as int),
            due@ == woken_sleepers(pre.sleepers@.take(i as int), now_ms as int),
            forall|x: int| 0 <= x < kept.len() ==> ref_ok(pre, (#[trigger] kept@[x]).task),
            forall|x: int| 0 <= x < due.len() ==> ref_ok(pre, #[trigger] due@[x]),
        decreases n - i,
    {
        let e = k.sleepers[i];
        proof {
            assert(pre.sleepers@.take(i + 1).drop_last() =~= pre.sleepers@.take(i as int));
            assert(pre.sleepers@.take(i + 1).last() == e);
        }
        if e.expire_ms <= now_ms {
            due.push(e.task);
        } else {
            kept.push(e);
        }
        i += 1;
    }
    proof {
        assert(pre.sleepers@.take(n as int) =~= pre.sleepers@);
    }
    k.sleepers = kept;
    proof {
        lemma_kwf_after_sleeper_update(pre, *k);
    }
    let nd = due.len();
    let mut j: usize = 0;
    while j < nd
        invariant
            j <= nd,
            nd == due.len(),
            due@ == woken,
            woken == woken_sleepers(pre.sleepers@, now_ms as int),
            kwf(pre),
            kwf(*k),
            k.sleepers@ == kept_sleepers(pre.sleepers@, now_ms as int),
            k.clock_ms == now_ms,
            k.running == pre.running,
            arenas_unchanged(pre, *k),
            k.next_token == pre.next_token,
            k.ready@.len() == pre.ready@.len() + j,
            forall|x: int| 0 <= x < pre.ready@.len() ==> #[trigger] k.ready@[x] == pre.ready@[x],
            forall|x: int|
                0 <= x < j ==> #[trigger] k.ready@[pre.ready@.len() + x] == (ReadyEntry {
                    pid: woken[x].pid,
                    tid: woken[x].tid,
                    stride: task_at(pre, woken[x]).inner.stride,
                }),
            k.procs.len() == pre.procs.len(),
            forall|p: int|
                0 <= p < pre.procs.len() ==> (#[trigger] k.procs@[p] is Some <==> pre.procs@[p] is Some),
            forall|p: int|
                0 <= p < pre.procs.len() && pre.procs@[p] is Some ==> (#[trigger] proc_at(*k, p))
                    == (ProcessControlBlock { tasks: proc_at(*k, p).tasks, ..proc_at(pre, p) })
                    && proc_at(*k, p).tasks.len() == proc_at(pre, p).tasks.len(),
            forall|p: int, t: int|
                0 <= p < pre.procs.len() && pre.procs@[p] is Some && 0 <= t < proc_at(
                    pre,
                    p,
                ).tasks.len() ==> #[trigger] proc_at(*k, p).tasks[t] == (if ref_in(
                    woken,
                    j as int,
                    (TaskRef { pid: p as usize, tid: t as usize }),
                ) && proc_at(pre, p).tasks[t] is Some {
                    Some(
                        TaskControlBlock {
                            inner: (crate::task::TaskControlBlockInner {
                                task_status: TaskStatus::Ready,
                                ..proc_at(pre, p).tasks[t]->Some_0.inner
                            }),
                            ..proc_at(pre, p).tasks[t]->Some_0
                        },
                    )
                } else {
                    proc_at(pre, p).tasks[t]
                }),
            forall|x: int| 0 <= x < due.len() ==> ref_ok(pre, #[trigger] due@[x]),
        decreases nd - j,
    {
        let w = due[j];
        let ghost c = *k;
        proof {
            assert(ref_ok(pre, w));
            assert(ref_ok(c, w));
        }
        {
            let p = proc_mut(&mut k.procs, w.pid);
            let t = task_mut(&mut p.tasks, w.tid);
            t.inner.task_status = TaskStatus::Ready;
        }
        proof {
            lemma_counters_ok_of(c, w);
            assert(only_task_changed(c, *k, w));
            lemma_kwf_after_task_update(c, *k, w);
        }
        enqueue_ready(k, w);
        proof {
            assert(task_at(c, w).inner.stride == task_at(pre, w).inner.stride);
            assert forall|p: int|
                0 <= p < pre.procs.len() && pre.procs@[p] is Some implies (#[trigger] proc_at(
                *k,
                p,
            )) == (ProcessControlBlock { tasks: proc_at(*k, p).tasks, ..proc_at(pre, p) })
                && proc_at(*k, p).tasks.len() == proc_at(pre, p).tasks.len() by {
                if p != w.pid as int {
                    assert(proc_at(*k, p) == proc_at(c, p));
                } else {
                    assert(proc_at(c, p) == (ProcessControlBlock {
                        tasks: proc_at(c, p).tasks,
                        ..proc_at(pre, p)
                    }));
                    assert(proc_at(*k, p) == (ProcessControlBlock {
                        tasks: proc_at(*k, p).tasks,
                        ..proc_at(c, p)
                    }));
                }
            }
            assert forall|p: int, t: int|
                0 <= p < pre.procs.len() && pre.procs@[p] is Some && 0 <= t < proc_at(
                    pre,
                    p,
                ).tasks.len() implies #[trigger] proc_at(*k, p).tasks[t] == (if ref_in(
                woken,
                j + 1,
                (TaskRef { pid: p as usize, tid: t as usize }),
            ) && proc_at(pre, p).tasks[t] is Some {
                Some(
                    TaskControlBlock {
                        inner: (crate::task::TaskControlBlockInner {
                            task_status: TaskStatus::Ready,
                            ..proc_at(pre, p).tasks[t]->Some_0.inner
                        }),
                        ..proc_at(pre, p).tasks[t]->Some_0
                    },
                )
            } else {
                proc_at(pre, p).tasks[t]
            }) by {
                let rr = TaskRef { pid: p as usize, tid: t as usize };
                if p == w.pid as int && t == w.tid as int {
                    assert(woken[j as int] == rr);
                    assert(ref_in(woken, j + 1, rr));
                } else {
                    assert(proc_at(*k, p).tasks[t] == proc_at(c, p).tasks[t]);
                    assert(ref_in(woken, j + 1, rr) == ref_in(woken, j as int, rr)) by {
                        if ref_in(woken, j + 1, rr) {
                            let x = choose|x: int| 0 <= x < j + 1 && woken[x] == rr;
                            assert(x != j);
                            assert(ref_in(woken, j as int, rr));
                        }
                        if ref_in(woken, j as int, rr) {
                            assert(ref_in(woken, j + 1, rr));
                        }
                    }
                }
            }
        }
        j += 1;
    }
}

/// Maps `[start, start + len)` into the calling process's address space:
/// `-1` on a misaligned start, out-of-range or empty permission bits, or an
/// overlap with an existing region; `0` and a fresh region otherwise.
#[verifier::rlimit(100)]
pub fn sys_mmap(k: &mut Kernel, start: usize, len: usize, port: usize) -> (r: isize)
    requires
        kwf(*old(k)),
        old(k).running is Some,
        start + len <= usize::MAX,
    ensures
        kwf(*final(k)),
        procs_same_except(*old(k), *final(k), cur_ref(*old(k)).pid as int),
        final(k).running == old(k).running,
        arenas_unchanged(*old(k), *final(k)),
        final(k).ready == old(k).ready,
        final(k).sleepers == old(k).sleepers,
        final(k).clock_ms == old(k).clock_ms,
        cur_proc(*final(k)) == (ProcessControlBlock {
            memory_set: cur_proc(*final(k)).memory_set,
            ..cur_proc(*old(k))
        }),
        r == 0 || r == -1,
        r == 0 <==> crate::mem::mmap_args_ok(start, port) && !exists|i: int|
            0 <= i < cur_proc(*old(k)).memory_set.areas.len() && crate::mem::area_overlaps(
                #[trigger] cur_proc(*old(k)).memory_set.areas[i],
                start as int,
                start + len,
            ),
        r == 0 ==> cur_proc(*final(k)).memory_set.areas@ == cur_proc(
            *old(k),
        ).memory_set.areas@.push(
            (crate::mem::MapArea {
                start,
                end: (start + len) as usize,
                perm: crate::mem::perm_of_port(port),
            }),
        ),
        r == -1 ==> cur_proc(*final(k)).memory_set == cur_proc(*old(k)).memory_set,
        cur_proc(*final(k)).memory_set.heap_bottom == cur_proc(*old(k)).memory_set.heap_bottom,
        cur_proc(*final(k)).memory_set.program_brk == cur_proc(*old(k)).memory_set.program_brk,
{
    let rf = match &k.running {
        Some(rf) => *rf,
        None => unreached(),
    };
    let ghost a = *k;
    let p = proc_mut(&mut k.procs, rf.pid);
    let r = p.memory_set.mmap(start, len, port);
    proof {
        lemma_kwf_after_proc_update(a, *k, rf.pid as int);
    }
    r
}

/// Unmaps `[start, start + len)`: `0` exactly when the range is the union
/// of whole existing regions, which go away; `-1` and no change otherwise.
#[verifier::rlimit(100)]
pub fn sys_munmap(k: &mut Kernel, start: usize, len: usize) -> (r: isize)
    requires
        kwf(*old(k)),
        old(k).running is Some,
        start + len <= usize::MAX,
    ensures
        kwf(*final(k)),
        procs_same_except(*old(k), *final(k), cur_ref(*old(k)).pid as int),
        final(k).running == old(k).running,
        arenas_unchanged(*old(k), *final(k)),
        final(k).ready == old(k).ready,
        final(k).sleepers == old(k).sleepers,
        final(k).clock_ms == old(k).clock_ms,
        cur_proc(*final(k)) == (ProcessControlBlock {
            memory_set: cur_proc(*final(k)).memory_set,
            ..cur_proc(*old(k))
        }),
        r == 0 || r == -1,
        r == 0 <==> crate::mem::munmap_matches(
            cur_proc(*old(k)).memory_set.areas@,
            start as int,
            start + len,
        ),
        r == 0 ==> cur_proc(*final(k)).memory_set.areas@ == crate::mem::kept_areas(
            cur_proc(*old(k)).memory_set.areas@,
            start as int,
            start + len,
        ),
        r == -1 ==> cur_proc(*final(k)).memory_set == cur_proc(*old(k)).memory_set,
{
    let rf = match &k.running {
        Some(rf) => *rf,
        None => unreached(),
    };
    let ghost a = *k;
    let p = proc_mut(&mut k.procs, rf.pid);
    let r = p.memory_set.munmap(start, len);
    proof {
        lemma_kwf_after_proc_update(a, *k, rf.pid as int);
    }
    r
}

/// Moves the calling process's program break by `size` bytes, returning the
/// break before the call, or `-1` — and no change — when the move would fall
/// below the heap segment's bottom.
#[verifier::rlimit(100)]
pub fn sys_sbrk(k: &mut Kernel, size: i32) -> (r: isize)
    requires
        kwf(*old(k)),
        old(k).running is Some,
        cur_proc(*old(k)).memory_set.program_brk + size <= usize::MAX,
        cur_proc(*old(k)).memory_set.program_brk <= isize::MAX,
    ensures
        kwf(*final(k)),
        procs_same_except(*old(k), *final(k), cur_ref(*old(k)).pid as int),
        final(k).running == old(k).running,
        arenas_unchanged(*old(k), *final(k)),
        final(k).ready == old(k).ready,
        final(k).sleepers == old(k).sleepers,
        cur_proc(*final(k)) == (ProcessControlBlock {
            memory_set: cur_proc(*final(k)).memory_set,
            ..cur_proc(*old(k))
        }),
        cur_proc(*old(k)).memory_set.program_brk + size >= cur_proc(
            *old(k),
        ).memory_set.heap_bottom ==> r == cur_proc(*old(k)).memory_set.program_brk as isize
            && cur_proc(*final(k)).memory_set.program_brk == cur_proc(
            *old(k),
        ).memory_set.program_brk + size,
        cur_proc(*old(k)).memory_set.program_brk + size < cur_proc(
            *old(k),
        ).memory_set.heap_bottom ==> r == -1 && cur_proc(*final(k)).memory_set == cur_proc(
            *old(k),
        ).memory_set,
        cur_proc(*final(k)).memory_set.areas@ == cur_proc(*old(k)).memory_set.areas@,
        cur_proc(*final(k)).memory_set.heap_bottom == cur_proc(*old(k)).memory_set.heap_bottom,
{
    let rf = match &k.running {
        Some(rf) => *rf,
        None => unreached(),
    };
    let ghost a = *k;
    let p = proc_mut(&mut k.procs, rf.pid);
    let r = match p.memory_set.change_program_brk(size) {
        Some(old_brk) => old_brk as isize,
        None => -1,
    };
    proof {
        lemma_kwf_after_proc_update(a, *k, rf.pid as int);
    }
    r
}

/// Zeroes entry `id` of the chosen need and allocation vector of every
/// live task; the other vectors and all other task state stay put.
fn zero_columns(tasks: &mut Vec<Option<TaskControlBlock>>, id: usize, use_sem: bool)
    requires
        forall|t: int|
            0 <= t < old(tasks).len() && #[trigger] old(tasks)[t] is Some ==> (if use_sem {
                id < old(tasks)[t]->Some_0.inner.semaphore_alloc.len() && id
                    < old(tasks)[t]->Some_0.inner.semaphore_need.len()
            } else {
                id < old(tasks)[t]->Some_0.inner.mutex_alloc.len() && id
                    < old(tasks)[t]->Some_0.inner.mutex_need.len()
            }),
    ensures
        final(tasks).len() == old(tasks).len(),
        forall|t: int|
            0 <= t < old(tasks).len() ==> (#[trigger] final(tasks)[t] is Some <==> old(
                tasks,
            )[t] is Some),
        forall|t: int|
            0 <= t < old(tasks).len() && #[trigger] old(tasks)[t] is Some ==> {
                let tn = final(tasks)[t]->Some_0;
                let to = old(tasks)[t]->Some_0;
                if use_sem {
                    tn == (TaskControlBlock {
                        inner: crate::task::TaskControlBlockInner {
                            semaphore_alloc: tn.inner.semaphore_alloc,
                            semaphore_need: tn.inner.semaphore_need,
                            ..to.inner
                        },
                        ..to
                    }) && tn.inner.semaphore_alloc@ == to.inner.semaphore_alloc@.update(
                        id as int,
                        0i64,
                    ) && tn.inner.semaphore_need@ == to.inner.semaphore_need@.update(id as int, 0i64)
                } else {
                    tn == (TaskControlBlock {
                        inner: crate::task::TaskControlBlockInner {
                            mutex_alloc: tn.inner.mutex_alloc,
                            mutex_need: tn.inner.mutex_need,
                            ..to.inner
                        },
                        ..to
                    }) && tn.inner.mutex_alloc@ == to.inner.mutex_alloc@.update(id as int, 0i64)
                        && tn.inner.mutex_need@ == to.inner.mutex_need@.update(id as int, 0i64)
                }
            },
{
    let mut t: usize = 0;
    while t < tasks.len()
        invariant
            t <= tasks.len(),
            tasks.len() == old(tasks).len(),
            forall|x: int|
                0 <= x < old(tasks).len() && #[trigger] old(tasks)[x] is Some ==> (if use_sem {
                    id < old(tasks)[x]->Some_0.inner.semaphore_alloc.len() && id
                        < old(tasks)[x]->Some_0.inner.semaphore_need.len()
                } else {
                    id < old(tasks)[x]->Some_0.inner.mutex_alloc.len() && id
                        < old(tasks)[x]->Some_0.inner.mutex_need.len()
                }),
            forall|x: int| t <= x < tasks.len() ==> #[trigger] tasks[x] == old(tasks)[x],
            forall|x: int|
                0 <= x < t ==> (#[trigger] tasks[x] is Some <==> old(tasks)[x] is Some),
            forall|x: int|
                0 <= x < t && #[trigger] old(tasks)[x] is Some ==> {
                    let tn = tasks[x]->Some_0;
                    let to = old(tasks)[x]->Some_0;
                    if use_sem {
                        tn == (TaskControlBlock {
                            inner: crate::task::TaskControlBlockInner {
                                semaphore_alloc: tn.inner.semaphore_alloc,
                                semaphore_need: tn.inner.semaphore_need,
                                ..to.inner
                            },
                            ..to
                        }) && tn.inner.semaphore_alloc@ == to.inner.semaphore_alloc@.update(
                            id as int,
                            0i64,
                        ) && tn.inner.semaphore_need@ == to.inner.semaphore_need@.update(
                            id as int,
                            0i64,
                        )
                    } else {
                        tn == (TaskControlBlock {
                            inner: crate::task::TaskControlBlockInner {
                                mutex_alloc: tn.inner.mutex_alloc,
                                mutex_need: tn.inner.mutex_need,
                                ..to.inner
                            },
                            ..to
                        }) && tn.inner.mutex_alloc@ == to.inner.mutex_alloc@.update(id as int, 0i64)
                            && tn.inner.mutex_need@ == to.inner.mutex_need@.update(id as int, 0i64)
                    }
                },
        decreases tasks.len() - t,
    {
        let is_live = tasks[t].is_some();
        if is_live {
            let tk = task_mut(tasks, t);
            if use_sem {
                tk.inner.semaphore_alloc[id] = 0;
                tk.inner.semaphore_need[id] = 0;
            } else {
                tk.inner.mutex_alloc[id] = 0;
                tk.inner.mutex_need[id] = 0;
            }
        }
        t += 1;
    }
}

/// Appends a zero entry to the chosen need and allocation vector of every
/// live task, matching a freshly appended table slot.
fn push_columns(tasks: &mut Vec<Option<TaskControlBlock>>, use_sem: bool)
    ensures
        final(tasks).len() == old(tasks).len(),
        forall|t: int|
            0 <= t < old(tasks).len() ==> (#[trigger] final(tasks)[t] is Some <==> old(
                tasks,
            )[t] is Some),
        forall|t: int|
            0 <= t < old(tasks).len() && #[trigger] old(tasks)[t] is Some ==> {
                let tn = final(tasks)[t]->Some_0;
                let to = old(tasks)[t]->Some_0;
                if use_sem {
                    tn == (TaskControlBlock {
                        inner: crate::task::TaskControlBlockInner {
                            semaphore_alloc: tn.inner.semaphore_alloc,
                            semaphore_need: tn.inner.semaphore_need,
                            ..to.inner
                        },
                        ..to
                    }) && tn.inner.semaphore_alloc@ == to.inner.semaphore_alloc@.push(0i64)
                        && tn.inner.semaphore_need@ == to.inner.semaphore_need@.push(0i64)
                } else {
                    tn == (TaskControlBlock {
                        inner: crate::task::TaskControlBlockInner {
                            mutex_alloc: tn.inner.mutex_alloc,
                            mutex_need: tn.inner.mutex_need,
                            ..to.inner
                        },
                        ..to
                    }) && tn.inner.mutex_alloc@ == to.inner.mutex_alloc@.push(0i64)
                        && tn.inner.mutex_need@ == to.inner.mutex_need@.push(0i64)
                }
            },
{
    let mut t: usize = 0;
    while t < tasks.len()
        invariant
            t <= tasks.len(),
            tasks.len() == old(tasks).len(),
            forall|x: int| t <= x < tasks.len() ==> #[trigger] tasks[x] == old(tasks)[x],
            forall|x: int|
                0 <= x < t ==> (#[trigger] tasks[x] is Some <==> old(tasks)[x] is Some),
            forall|x: int|
                0 <= x < t && #[trigger] old(tasks)[x] is Some ==> {
                    let tn = tasks[x]->Some_0;
                    let to = old(tasks)[x]->Some_0;
                    if use_sem {
                        tn == (TaskControlBlock {
                            inner: crate::task::TaskControlBlockInner {
                                semaphore_alloc: tn.inner.semaphore_alloc,
                                semaphore_need: tn.inner.semaphore_need,
                                ..to.inner
                            },
                            ..to
                        }) && tn.inner.semaphore_alloc@ == to.inner.semaphore_alloc@.push(0i64)
                            && tn.inner.semaphore_need@ == to.inner.semaphore_need@.push(0i64)
                    } else {
                        tn == (TaskControlBlock {
                            inner: crate::task::TaskControlBlockInner {
                                mutex_alloc: tn.inner.mutex_alloc,
                                mutex_need: tn.inner.mutex_need,
                                ..to.inner
                            },
                            ..to
                        }) && tn.inner.mutex_alloc@ == to.inner.mutex_alloc@.push(0i64)
                            && tn.inner.mutex_need@ == to.inner.mutex_need@.push(0i64)
                    }
                },
        decreases tasks.len() - t,
    {
        let is_live = tasks[t].is_some();
        if is_live {
            let tk = task_mut(tasks, t);
            if use_sem {
                tk.inner.semaphore_alloc.push(0);
                tk.inner.semaphore_need.push(0);
            } else {
                tk.inner.mutex_alloc.push(0);
                tk.inner.mutex_need.push(0);
            }
        }
        t += 1;
    }
}

/// What every create operation promises about its slot: the lowest empty
/// slot index is reused when one exists; otherwise the table grows by one.
pub open spec fn create_slot_spec(old_list: Seq<Option<usize>>, r: isize, grown: bool) -> bool {
    if grown {
        &&& r == old_list.len() as isize
        &&& forall|j: int| 0 <= j < old_list.len() ==> #[trigger] old_list[j] is Some
    } else {
        &&& 0 <= r < old_list.len()
        &&& old_list[r as int] is None
        &&& forall|j: int| 0 <= j < r ==> #[trigger] old_list[j] is Some
    }
}

/// Creates a mutex — spin or blocking by `blocking` — in the lowest empty
/// slot of the calling process's mutex table, appending a slot only when
/// none is empty, and returns the slot index.  While detection is on the
/// slot's available count becomes 1 and every task's tracking entries for
/// it become 0.  `-1` only when the table is at the model's capacity.
#[verifier::rlimit(100)]
pub fn sys_mutex_create(k: &mut Kernel, blocking: bool) -> (r: isize)
    requires
        kwf(*old(k)),
        old(k).running is Some,
    ensures
        kwf(*final(k)),
        final(k).running == old(k).running,
        final(k).ready == old(k).ready,
        final(k).sleepers == old(k).sleepers,
        final(k).clock_ms == old(k).clock_ms,
        final(k).semaphores == old(k).semaphores,
        final(k).condvars == old(k).condvars,
        r == -1 ==> *final(k) == *old(k),
        r == -1 <==> cur_proc(*old(k)).mutex_list.len() >= MAX_TASKS && (forall|j: int|
            0 <= j < cur_proc(*old(k)).mutex_list.len() ==> #[trigger] cur_proc(
                *old(k),
            ).mutex_list@[j] is Some),
        r != -1 ==> {
            let po = cur_proc(*old(k));
            let pn = cur_proc(*final(k));
            let grown = pn.mutex_list.len() > po.mutex_list.len();
            &&& procs_same_except(*old(k), *final(k), cur_ref(*old(k)).pid as int)
            &&& create_slot_spec(po.mutex_list@, r, grown)
            &&& final(k).mutexes.len() == old(k).mutexes.len() + 1
            &&& forall|m: int|
                0 <= m < old(k).mutexes.len() ==> #[trigger] final(k).mutexes[m] == old(
                    k,
                ).mutexes[m]
            &&& final(k).mutexes[old(k).mutexes.len() as int].blocking == blocking
            &&& !final(k).mutexes[old(k).mutexes.len() as int].locked
            &&& final(k).mutexes[old(k).mutexes.len() as int].waiters.len() == 0
            &&& pn.mutex_list@ == (if grown {
                po.mutex_list@.push(Some(old(k).mutexes.len() as usize))
            } else {
                po.mutex_list@.update(r as int, Some(old(k).mutexes.len() as usize))
            })
            &&& pn.tasks.len() == po.tasks.len()
            &&& (forall|t: int|
                0 <= t < po.tasks.len() ==> (#[trigger] pn.tasks[t] is Some <==> po.tasks[t] is Some))
            &&& po.open_detect ==> pn.mutex_res@ == (if grown {
                po.mutex_res@.push(1i64)
            } else {
                po.mutex_res@.update(r as int, 1i64)
            }) && (forall|t: int|
                0 <= t < po.tasks.len() && #[trigger] po.tasks[t] is Some ==> {
                    let tn = pn.tasks[t]->Some_0;
                    let to = po.tasks[t]->Some_0;
                    &&& tn == (TaskControlBlock {
                        inner: crate::task::TaskControlBlockInner {
                            mutex_alloc: tn.inner.mutex_alloc,
                            mutex_need: tn.inner.mutex_need,
                            ..to.inner
                        },
                        ..to
                    })
                    &&& tn.inner.mutex_alloc@ == (if grown {
                        to.inner.mutex_alloc@.push(0i64)
                    } else {
                        to.inner.mutex_alloc@.update(r as int, 0i64)
                    })
                    &&& tn.inner.mutex_need@ == (if grown {
                        to.inner.mutex_need@.push(0i64)
                    } else {
                        to.inner.mutex_need@.update(r as int, 0i64)
                    })
                })
            &&& !po.open_detect ==> pn.mutex_res == po.mutex_res && pn.tasks == po.tasks
            &&& pn == (ProcessControlBlock {
                mutex_list: pn.mutex_list,
                mutex_res: pn.mutex_res,
                tasks: pn.tasks,
                ..po
            })
        },
{
    let rf = match &k.running {
        Some(rf) => *rf,
        None => unreached(),
    };
    let ghost a = *k;
    let (slot, flag, at_cap) = {
        let p = proc_ref(&k.procs, rf.pid);
        let s = lowest_free_slot(&p.mutex_list);
        (s, p.open_detect, p.mutex_list.len() >= MAX_TASKS)
    };
    if slot.is_none() && at_cap {
        return -1;
    }
    let arena_id = k.mutexes.len();
    k.mutexes.push(MutexInst { blocking, locked: false, waiters: Vec::new() });
    let p = proc_mut(&mut k.procs, rf.pid);
    proof {
        assert(proc_wf(
            *p,
            rf.pid as int,
            a.procs.len() as int,
            a.mutexes.len() as int,
            a.semaphores.len() as int,
            a.condvars.len() as int,
        ));
    }
    let r: isize;
    match slot {
        Some(id) => {
            p.mutex_list[id] = Some(arena_id);
            if flag {
                p.mutex_res[id] = 1;
                zero_columns(&mut p.tasks, id, false);
            }
            r = id as isize;
        },
        None => {
            p.mutex_list.push(Some(arena_id));
            if flag {
                p.mutex_res.push(1);
                push_columns(&mut p.tasks, false);
            }
            r = (p.mutex_list.len() - 1) as isize;
        },
    }
    proof {
        lemma_kwf_after_proc_update(a, *k, rf.pid as int);
    }
    r
}

/// Creates a semaphore with `res_count` initial units in the lowest empty
/// slot of the calling process's semaphore table, appending only when none
/// is empty, and returns the slot index.  While detection is on the slot's
/// available count becomes `res_count` and every task's tracking entries
/// for it become 0.  `-1` only when the table is at the model's capacity.
#[verifier::rlimit(100)]
pub fn sys_semaphore_create(k: &mut Kernel, res_count: usize) -> (r: isize)
    requires
        kwf(*old(k)),
        old(k).running is Some,
        res_count <= COUNTER_CAP as usize,
    ensures
        kwf(*final(k)),
        final(k).running == old(k).running,
        final(k).ready == old(k).ready,
        final(k).sleepers == old(k).sleepers,
        final(k).clock_ms == old(k).clock_ms,
        final(k).mutexes == old(k).mutexes,
        final(k).condvars == old(k).condvars,
        r == -1 ==> *final(k) == *old(k),
        r == -1 <==> cur_proc(*old(k)).semaphore_list.len() >= MAX_TASKS && (forall|j: int|
            0 <= j < cur_proc(*old(k)).semaphore_list.len() ==> #[trigger] cur_proc(
                *old(k),
            ).semaphore_list@[j] is Some),
        r != -1 ==> {
            let po = cur_proc(*old(k));
            let pn = cur_proc(*final(k));
            let grown = pn.semaphore_list.len() > po.semaphore_list.len();
            &&& procs_same_except(*old(k), *final(k), cur_ref(*old(k)).pid as int)
            &&& create_slot_spec(po.semaphore_list@, r, grown)
            &&& final(k).semaphores.len() == old(k).semaphores.len() + 1
            &&& forall|m: int|
                0 <= m < old(k).semaphores.len() ==> #[trigger] final(k).semaphores[m] == old(
                    k,
                ).semaphores[m]
            &&& final(k).semaphores[old(k).semaphores.len() as int].count == res_count
            &&& final(k).semaphores[old(k).semaphores.len() as int].waiters.len() == 0
            &&& pn.semaphore_list@ == (if grown {
                po.semaphore_list@.push(Some(old(k).semaphores.len() as usize))
            } else {
                po.semaphore_list@.update(r as int, Some(old(k).semaphores.len() as usize))
            })
            &&& pn.tasks.len() == po.tasks.len()
            &&& (forall|t: int|
                0 <= t < po.tasks.len() ==> (#[trigger] pn.tasks[t] is Some <==> po.tasks[t] is Some))
            &&& po.open_detect ==> pn.semaphore_res@ == (if grown {
                po.semaphore_res@.push(res_count as i64)
            } else {
                po.semaphore_res@.update(r as int, res_count as i64)
            }) && (forall|t: int|
                0 <= t < po.tasks.len() && #[trigger] po.tasks[t] is Some ==> {
                    let tn = pn.tasks[t]->Some_0;
                    let to = po.tasks[t]->Some_0;
                    &&& tn == (TaskControlBlock {
                        inner: crate::task::TaskControlBlockInner {
                            semaphore_alloc: tn.inner.semaphore_alloc,
                            semaphore_need: tn.inner.semaphore_need,
                            ..to.inner
                        },
                        ..to
                    })
                    &&& tn.inner.semaphore_alloc@ == (if grown {
                        to.inner.semaphore_alloc@.push(0i64)
                    } else {
                        to.inner.semaphore_alloc@.update(r as int, 0i64)
                    })
                    &&& tn.inner.semaphore_need@ == (if grown {
                        to.inner.semaphore_need@.push(0i64)
                    } else {
                        to.inner.semaphore_need@.update(r as int, 0i64)
                    })
                })
            &&& !po.open_detect ==> pn.semaphore_res == po.semaphore_res && pn.tasks == po.tasks
            &&& pn == (ProcessControlBlock {
                semaphore_list: pn.semaphore_list,
                semaphore_res: pn.semaphore_res,
                tasks: pn.tasks,
                ..po
            })
        },
{
    let rf = match &k.running {
        Some(rf) => *rf,
        None => unreached(),
    };
    let ghost a = *k;
    let (slot, flag, at_cap) = {
        let p = proc_ref(&k.procs, rf.pid);
        let s = lowest_free_slot(&p.semaphore_list);
        (s, p.open_detect, p.semaphore_list.len() >= MAX_TASKS)
    };
    if slot.is_none() && at_cap {
        return -1;
    }
    let arena_id = k.semaphores.len();
    k.semaphores.push(SemInst { count: res_count as i64, waiters: Vec::new() });
    let p = proc_mut(&mut k.procs, rf.pid);
    proof {
        assert(proc_wf(
            *p,
            rf.pid as int,
            a.procs.len() as int,
            a.mutexes.len() as int,
            a.semaphores.len() as int,
            a.condvars.len() as int,
        ));
    }
    let r: isize;
    match slot {
        Some(id) => {
            p.semaphore_list[id] = Some(arena_id);
            if flag {
                p.semaphore_res[id] = res_count as i64;
                zero_columns(&mut p.tasks, id, true);
            }
            r = id as isize;
        },
        None => {
            p.semaphore_list.push(Some(arena_id));
            if flag {
                p.semaphore_res.push(res_count as i64);
                push_columns(&mut p.tasks, true);
            }
            r = (p.semaphore_list.len() - 1) as isize;
        },
    }
    proof {
        lemma_kwf_after_proc_update(a, *k, rf.pid as int);
    }
    r
}

/// Creates a condition variable in the lowest empty slot of the calling
/// process's condvar table, appending only when none is empty, and returns
/// the slot index.  `-1` only when the table is at the model's capacity.
#[verifier::rlimit(100)]
pub fn sys_condvar_create(k: &mut Kernel) -> (r: isize)
    requires
        kwf(*old(k)),
        old(k).running is Some,
    ensures
        kwf(*final(k)),
        final(k).running == old(k).running,
        final(k).ready == old(k).ready,
        final(k).sleepers == old(k).sleepers,
        final(k).clock_ms == old(k).clock_ms,
        final(k).mutexes == old(k).mutexes,
        final(k).semaphores == old(k).semaphores,
        r == -1 ==> *final(k) == *old(k),
        r == -1 <==> cur_proc(*old(k)).condvar_list.len() >= MAX_TASKS && (forall|j: int|
            0 <= j < cur_proc(*old(k)).condvar_list.len() ==> #[trigger] cur_proc(
                *old(k),
            ).condvar_list@[j] is Some),
        r != -1 ==> {
            let po = cur_proc(*old(k));
            let pn = cur_proc(*final(k));
            let grown = pn.condvar_list.len() > po.condvar_list.len();
            &&& procs_same_except(*old(k), *final(k), cur_ref(*old(k)).pid as int)
            &&& create_slot_spec(po.condvar_list@, r, grown)
            &&& final(k).condvars.len() == old(k).condvars.len() + 1
            &&& forall|m: int|
                0 <= m < old(k).condvars.len() ==> #[trigger] final(k).condvars[m] == old(
                    k,
                ).condvars[m]
            &&& final(k).condvars[old(k).condvars.len() as int].waiters.len() == 0
            &&& pn.condvar_list@ == (if grown {
                po.condvar_list@.push(Some(old(k).condvars.len() as usize))
            } else {
                po.condvar_list@.update(r as int, Some(old(k).condvars.len() as usize))
            })
            &&& pn == (ProcessControlBlock { condvar_list: pn.condvar_list, ..po })
        },
{
    let rf = match &k.running {
        Some(rf) => *rf,
        None => unreached(),
    };
    let ghost a = *k;
    let (slot, at_cap) = {
        let p = proc_ref(&k.procs, rf.pid);
        let s = lowest_free_slot(&p.condvar_list);
        (s, p.condvar_list.len() >= MAX_TASKS)
    };
    if slot.is_none() && at_cap {
        return -1;
    }
    let arena_id = k.condvars.len();
    k.condvars.push(CondvarInst { waiters: Vec::new() });
    let p = proc_mut(&mut k.procs, rf.pid);
    proof {
        assert(proc_wf(
            *p,
            rf.pid as int,
            a.procs.len() as int,
            a.mutexes.len() as int,
            a.semaphores.len() as int,
            a.condvars.len() as int,
        ));
    }
    let r: isize;
    match slot {
        Some(id) => {
            p.condvar_list[id] = Some(arena_id);
            r = id as isize;
        },
        None => {
            p.condvar_list.push(Some(arena_id));
            r = (p.condvar_list.len() - 1) as isize;
        },
    }
    proof {
        lemma_kwf_after_proc_update(a, *k, rf.pid as int);
    }
    r
}

/// Empties a mutex slot for reuse: `0` when the slot holds an unlocked,
/// waiter-free mutex; `-1` — and no change — otherwise.
#[verifier::rlimit(100)]
pub fn sys_mutex_destroy(k: &mut Kernel, mutex_id: usize) -> (r: isize)
    requires
        kwf(*old(k)),
        old(k).running is Some,
    ensures
        kwf(*final(k)),
        r == 0 <==> mutex_id < cur_proc(*old(k)).mutex_list.len() && cur_proc(
            *old(k),
        ).mutex_list[mutex_id as int] is Some && !old(k).mutexes[cur_proc(
            *old(k),
        ).mutex_list[mutex_id as int]->Some_0 as int].locked && old(k).mutexes[cur_proc(
            *old(k),
        ).mutex_list[mutex_id as int]->Some_0 as int].waiters.len() == 0,
        r == -1 ==> *final(k) == *old(k),
        r == 0 ==> procs_same_except(*old(k), *final(k), cur_ref(*old(k)).pid as int)
            && cur_proc(*final(k)) == (ProcessControlBlock {
            mutex_list: cur_proc(*final(k)).mutex_list,
            ..cur_proc(*old(k))
        }) && cur_proc(*final(k)).mutex_list@ == cur_proc(*old(k)).mutex_list@.update(
            mutex_id as int,
            None::<usize>,
        ) && arenas_unchanged(*old(k), *final(k)) && final(k).running == old(k).running && final(k).ready == old(k).ready
            && final(k).sleepers == old(k).sleepers && final(k).clock_ms == old(k).clock_ms
            && final(k).next_token == old(k).next_token,
        r == 0 || r == -1,
{
    let rf = match &k.running {
        Some(rf) => *rf,
        None => unreached(),
    };
    let ghost a = *k;
    let arena = {
        let p = proc_ref(&k.procs, rf.pid);
        if mutex_id >= p.mutex_list.len() {
            return -1;
        }
        match p.mutex_list[mutex_id] {
            Some(m) => m,
            None => {
                return -1;
            },
        }
    };
    proof {
        assert(proc_wf(
            proc_at(a, rf.pid as int),
            rf.pid as int,
            a.procs.len() as int,
            a.mutexes.len() as int,
            a.semaphores.len() as int,
            a.condvars.len() as int,
        ));
    }
    if k.mutexes[arena].locked || k.mutexes[arena].waiters.len() > 0 {
        return -1;
    }
    let p = proc_mut(&mut k.procs, rf.pid);
    p.mutex_list[mutex_id] = None;
    proof {
        lemma_kwf_after_proc_update(a, *k, rf.pid as int);
    }
    0
}

/// Empties a semaphore slot for reuse: `0` when the slot holds a
/// waiter-free semaphore; `-1` — and no change — otherwise.
#[verifier::rlimit(100)]
pub fn sys_semaphore_destroy(k: &mut Kernel, sem_id: usize) -> (r: isize)
    requires
        kwf(*old(k)),
        old(k).running is Some,
    ensures
        kwf(*final(k)),
        r == 0 <==> sem_id < cur_proc(*old(k)).semaphore_list.len() && cur_proc(
            *old(k),
        ).semaphore_list[sem_id as int] is Some && old(k).semaphores[cur_proc(
            *old(k),
        ).semaphore_list[sem_id as int]->Some_0 as int].waiters.len() == 0,
        r == -1 ==> *final(k) == *old(k),
        r == 0 ==> procs_same_except(*old(k), *final(k), cur_ref(*old(k)).pid as int)
            && cur_proc(*final(k)) == (ProcessControlBlock {
            semaphore_list: cur_proc(*final(k)).semaphore_list,
            ..cur_proc(*old(k))
        }) && cur_proc(*final(k)).semaphore_list@ == cur_proc(*old(k)).semaphore_list@.update(
            sem_id as int,
            None::<usize>,
        ) && arenas_unchanged(*old(k), *final(k)) && final(k).running == old(k).running && final(k).ready == old(k).ready
            && final(k).sleepers == old(k).sleepers && final(k).clock_ms == old(k).clock_ms
            && final(k).next_token == old(k).next_token,
        r == 0 || r == -1,
{
    let rf = match &k.running {
        Some(rf) => *rf,
        None => unreached(),
    };
    let ghost a = *k;
    let arena = {
        let p = proc_ref(&k.procs, rf.pid);
        if sem_id >= p.semaphore_list.len() {
            return -1;
        }
        match p.semaphore_list[sem_id] {
            Some(m) => m,
            None => {
                return -1;
            },
        }
    };
    proof {
        assert(proc_wf(
            proc_at(a, rf.pid as int),
            rf.pid as int,
            a.procs.len() as int,
            a.mutexes.len() as int,
            a.semaphores.len() as int,
            a.condvars.len() as int,
        ));
    }
    if k.semaphores[arena].waiters.len() > 0 {
        return -1;
    }
    let p = proc_mut(&mut k.procs, rf.pid);
    p.semaphore_list[sem_id] = None;
    proof {
        lemma_kwf_after_proc_update(a, *k, rf.pid as int);
    }
    0
}

/// Well-formedness survives changing the primitive instances alone, as long
/// as the processes and queues stay put, the arenas keep their sizes, every
/// waiter still names an existing task, and counts stay bounded.
pub proof fn lemma_kwf_after_arena_update(a: Kernel, b: Kernel)
    requires
        kwf(a),
        b.procs == a.procs,
        b.ready == a.ready,
        b.running == a.running,
        b.sleepers == a.sleepers,
        b.mutexes.len() == a.mutexes.len(),
        b.semaphores.len() == a.semaphores.len(),
        b.condvars.len() == a.condvars.len(),
        forall|m: int, w: int|
            0 <= m < b.mutexes.len() && 0 <= w < b.mutexes[m].waiters.len() ==> ref_ok(
                a,
                (#[trigger] b.mutexes[m].waiters[w]).task,
            ),
        forall|m: int, w: int|
            0 <= m < b.semaphores.len() && 0 <= w < b.semaphores[m].waiters.len() ==> ref_ok(
                a,
                (#[trigger] b.semaphores[m].waiters[w]).task,
            ),
        forall|m: int, w: int|
            0 <= m < b.condvars.len() && 0 <= w < b.condvars[m].waiters.len() ==> ref_ok(
                a,
                (#[trigger] b.condvars[m].waiters[w]).task,
            ) && b.condvars[m].waiters[w].mutex_arena < b.mutexes.len(),
        forall|m: int|
            0 <= m < b.semaphores.len() ==> -COUNTER_CAP <= (#[trigger] b.semaphores[m]).count
                <= COUNTER_CAP,
    ensures
        kwf(b),
{
    assert forall|p: int| 0 <= p < b.procs.len() && #[trigger] b.procs[p] is Some implies proc_wf(
        b.procs[p]->Some_0,
        p,
        b.procs.len() as int,
        b.mutexes.len() as int,
        b.semaphores.len() as int,
        b.condvars.len() as int,
    ) by {
        assert(a.procs[p] is Some);
    }
}

/// The slot `id` of the calling process's mutex table is occupied.
pub open spec fn mutex_slot_live(k: Kernel, id: int) -> bool {
    &&& 0 <= id < cur_proc(k).mutex_list.len()
    &&& cur_proc(k).mutex_list[id] is Some
}

/// The acquisition-side bookkeeping step: while detection is on, the
/// caller's need entry for the slot goes up by one; otherwise nothing moves.
pub open spec fn lock_need_rel(a: Kernel, b: Kernel, id: int) -> bool {
    if !cur_proc(a).open_detect {
        b == a
    } else {
        &&& only_task_changed(a, b, cur_ref(a))
        &&& task_at(b, cur_ref(a)) == (TaskControlBlock {
            inner: crate::task::TaskControlBlockInner {
                mutex_need: task_at(b, cur_ref(a)).inner.mutex_need,
                ..cur_task(a).inner
            },
            ..cur_task(a)
        })
        &&& task_at(b, cur_ref(a)).inner.mutex_need@ == cur_task(a).inner.mutex_need@.update(
            id,
            spec_cap_inc(cur_task(a).inner.mutex_need@[id]),
        )
        &&& b.ready == a.ready
        &&& b.running == a.running
        &&& b.sleepers == a.sleepers
        &&& b.clock_ms == a.clock_ms
        &&& arenas_unchanged(a, b)
        &&& b.next_token == a.next_token
    }
}

/// The safety check's verdict on the state after the need step: the
/// Banker's simulation over the caller's task list and mutex snapshot.
pub open spec fn mutex_state_safe(b: Kernel) -> bool {
    crate::sync::banker_ok(
        cur_proc(b).tasks@,
        crate::sync::seq_int(cur_proc(b).mutex_res@),
        crate::sync::all_false(cur_proc(b).tasks.len() as nat),
        false,
    )
}

/// The step a refused or granted acquisition leaves behind, or the blocked
/// tail: what `sys_mutex_lock` does after the need step `b`.
pub open spec fn lock_outcome_rel(b: Kernel, c: Kernel, id: int, r: isize) -> bool {
    let flag = cur_proc(b).open_detect;
    let arena = cur_proc(b).mutex_list[id]->Some_0 as int;
    if flag && !mutex_state_safe(b) {
        // Refused before blocking: the tentative need stays up; nothing
        // else — in particular no allocation or available count — moves.
        &&& r == DEADLOCK_ERR
        &&& c == b
    } else if !b.mutexes[arena].locked {
        // Free: the caller takes it at once.
        &&& r == 0
        &&& c.mutexes.len() == b.mutexes.len()
        &&& forall|m: int| 0 <= m < b.mutexes.len() && m != arena ==> #[trigger] c.mutexes[m]
            == b.mutexes[m]
        &&& c.mutexes[arena].locked
        &&& c.mutexes[arena].blocking == b.mutexes[arena].blocking
        &&& c.mutexes[arena].waiters == b.mutexes[arena].waiters
        &&& c.semaphores == b.semaphores
        &&& c.condvars == b.condvars
        &&& c.ready == b.ready
        &&& c.running == b.running
        &&& c.sleepers == b.sleepers
        &&& c.clock_ms == b.clock_ms
        &&& if flag {
            &&& procs_same_except(b, c, cur_ref(b).pid as int)
            &&& cur_ref(b).pid < c.procs.len()
            &&& c.procs[cur_ref(b).pid as int] is Some
            &&& cur_proc(c).tasks.len() == cur_proc(b).tasks.len()
            &&& forall|x: int|
                0 <= x < cur_proc(b).tasks.len() && x != cur_ref(b).tid as int ==> cur_proc(
                    c,
                ).tasks[x] == #[trigger] cur_proc(b).tasks[x]
            &&& cur_proc(c).tasks[cur_ref(b).tid as int] is Some
            &&& cur_proc(c) == (ProcessControlBlock {
                tasks: cur_proc(c).tasks,
                mutex_res: cur_proc(c).mutex_res,
                ..cur_proc(b)
            })
            &&& cur_proc(c).mutex_res@ == cur_proc(b).mutex_res@.update(
                id,
                spec_cap_dec(cur_proc(b).mutex_res@[id]),
            )
            &&& task_at(c, cur_ref(b)) == (TaskControlBlock {
                inner: crate::task::TaskControlBlockInner {
                    mutex_need: task_at(c, cur_ref(b)).inner.mutex_need,
                    mutex_alloc: task_at(c, cur_ref(b)).inner.mutex_alloc,
                    ..cur_task(b).inner
                },
                ..cur_task(b)
            })
            &&& task_at(c, cur_ref(b)).inner.mutex_need@ == cur_task(b).inner.mutex_need@.update(
                id,
                spec_cap_dec(cur_task(b).inner.mutex_need@[id]),
            )
            &&& task_at(c, cur_ref(b)).inner.mutex_alloc@ == cur_task(b).inner.mutex_alloc@.update(
                id,
                spec_cap_inc(cur_task(b).inner.mutex_alloc@[id]),
            )
        } else {
            c.procs == b.procs
        }
    } else {
        // Contended: the caller joins the wait queue, blocks, and a
        // selection runs.
        &&& r == 0
        &&& exists|mid: Kernel|
            #[trigger] lock_block_mid_rel(b, mid, id) && fetch_rel(mid, c)
    }
}

/// The blocked tail's first half: the caller has joined the wait queue of
/// its slot's mutex and blocked, and the CPU is momentarily idle.
pub open spec fn lock_block_mid_rel(b: Kernel, mid: Kernel, id: int) -> bool {
    let arena = cur_proc(b).mutex_list[id]->Some_0 as int;
    &&& mid.clock_ms == b.clock_ms
    &&& only_task_changed(b, mid, cur_ref(b))
    &&& task_at(mid, cur_ref(b)).inner == (crate::task::TaskControlBlockInner {
        task_status: TaskStatus::Blocked,
        ..cur_task(b).inner
    })
    &&& mid.mutexes.len() == b.mutexes.len()
    &&& forall|m: int|
        0 <= m < b.mutexes.len() && m != arena ==> #[trigger] mid.mutexes[m] == b.mutexes[m]
    &&& mid.mutexes[arena].locked == b.mutexes[arena].locked
    &&& mid.mutexes[arena].blocking == b.mutexes[arena].blocking
    &&& mid.mutexes[arena].waiters@ == b.mutexes[arena].waiters@.push(
        (crate::sync::QueuedWaiter { task: cur_ref(b), slot: id as usize }),
    )
    &&& mid.semaphores == b.semaphores
    &&& mid.condvars == b.condvars
    &&& mid.ready == b.ready
    &&& mid.sleepers == b.sleepers
    &&& mid.running is None
}

/// Acquires a mutex slot of the calling process.  While detection is on the
/// caller's need entry rises first and the Banker's safety check runs over
/// the snapshot; an unsafe state is refused at once — before any blocking —
/// with the distinguished result, the tentative need left in place.
/// Otherwise the caller takes a free mutex immediately, moving need to
/// allocation and taking the available unit, or joins the wait queue and
/// blocks.
#[verifier::rlimit(100)]
pub fn sys_mutex_lock(k: &mut Kernel, mutex_id: usize) -> (r: isize)
    requires
        kwf(*old(k)),
        old(k).running is Some,
        mutex_slot_live(*old(k), mutex_id as int),
    ensures
        kwf(*final(k)),
        exists|mid: Kernel|
            #[trigger] lock_need_rel(*old(k), mid, mutex_id as int) && lock_outcome_rel(
                mid,
                *final(k),
                mutex_id as int,
                r,
            ),
{
    let rf = match &k.running {
        Some(rf) => *rf,
        None => unreached(),
    };
    let ghost a = *k;
    let (flag, arena) = {
        let p = proc_ref(&k.procs, rf.pid);
        let ar = match p.mutex_list[mutex_id] {
            Some(m) => m,
            None => unreached(),
        };
        (p.open_detect, ar)
    };
    proof {
        assert(proc_wf(
            proc_at(a, rf.pid as int),
            rf.pid as int,
            a.procs.len() as int,
            a.mutexes.len() as int,
            a.semaphores.len() as int,
            a.condvars.len() as int,
        ));
    }
    if flag {
        let p = proc_mut(&mut k.procs, rf.pid);
        let t = task_mut(&mut p.tasks, rf.tid);
        let cur = t.inner.mutex_need[mutex_id];
        t.inner.mutex_need[mutex_id] = cap_inc(cur);
        proof {
            assert(t.inner.mutex_need@ == task_at(a, rf).inner.mutex_need@.update(
                mutex_id as int,
                spec_cap_inc(task_at(a, rf).inner.mutex_need@[mutex_id as int]),
            ));
        }
    }
    proof {
        if flag {
            lemma_counters_ok_of(a, rf);
            assert(only_task_changed(a, *k, rf));
            lemma_kwf_after_task_update(a, *k, rf);
        }
        assert(lock_need_rel(a, *k, mutex_id as int));
    }
    let ghost b = *k;
    if flag {
        let safe = {
            let p = proc_ref(&k.procs, rf.pid);
            crate::sync::detect_safe(&p.tasks, &p.mutex_res, false)
        };
        if !safe {
            return DEADLOCK_ERR;
        }
    }
    let locked_now = k.mutexes[arena].locked;
    if !locked_now {
        {
            let m = &mut k.mutexes[arena];
            m.locked = true;
        }
        proof {
            lemma_kwf_after_arena_update(b, *k);
        }
        if flag {
            let ghost c0 = *k;
            let p = proc_mut(&mut k.procs, rf.pid);
            let res_cur = p.mutex_res[mutex_id];
            p.mutex_res[mutex_id] = cap_dec(res_cur);
            let t = task_mut(&mut p.tasks, rf.tid);
            let need_cur = t.inner.mutex_need[mutex_id];
            t.inner.mutex_need[mutex_id] = cap_dec(need_cur);
            let alloc_cur = t.inner.mutex_alloc[mutex_id];
            t.inner.mutex_alloc[mutex_id] = cap_inc(alloc_cur);
            proof {
                let pa = proc_at(c0, rf.pid as int);
                let pb = proc_at(*k, rf.pid as int);
                let pm = (ProcessControlBlock { mutex_res: pb.mutex_res, ..pa });
                assert(proc_wf(
                    pa,
                    rf.pid as int,
                    c0.procs.len() as int,
                    c0.mutexes.len() as int,
                    c0.semaphores.len() as int,
                    c0.condvars.len() as int,
                ));
                assert forall|i: int|
                    0 <= i < pm.mutex_res.len() implies -COUNTER_CAP <= #[trigger] pm.mutex_res[i]
                    <= COUNTER_CAP by {
                    if i != mutex_id as int {
                        assert(pm.mutex_res[i] == pa.mutex_res[i]);
                    }
                }
                assert(proc_wf(
                    pm,
                    rf.pid as int,
                    c0.procs.len() as int,
                    c0.mutexes.len() as int,
                    c0.semaphores.len() as int,
                    c0.condvars.len() as int,
                ));
                crate::process::lemma_proc_wf_task_update(
                    pm,
                    pb,
                    rf.tid as int,
                    rf.pid as int,
                    c0.procs.len() as int,
                    c0.mutexes.len() as int,
                    c0.semaphores.len() as int,
                    c0.condvars.len() as int,
                );
                lemma_kwf_after_proc_update(c0, *k, rf.pid as int);
            }
        }
        proof {
            assert(lock_outcome_rel(b, *k, mutex_id as int, 0));
        }
        return 0;
    }
    {
        let m = &mut k.mutexes[arena];
        m.waiters.push(crate::sync::QueuedWaiter { task: rf, slot: mutex_id });
    }
    proof {
        assert forall|m: int, w: int|
            0 <= m < k.mutexes.len() && 0 <= w < k.mutexes[m].waiters.len() implies ref_ok(
            b,
            (#[trigger] k.mutexes[m].waiters[w]).task,
        ) by {
            if m != arena as int || w < b.mutexes[arena as int].waiters.len() {
                assert(k.mutexes[m].waiters[w] == b.mutexes[m].waiters[w]);
            } else {
                assert(k.mutexes[m].waiters[w].task == rf);
            }
        }
        lemma_kwf_after_arena_update(b, *k);
    }
    let ghost c1 = *k;
    {
        let p = proc_mut(&mut k.procs, rf.pid);
        let t = task_mut(&mut p.tasks, rf.tid);
        t.inner.task_status = TaskStatus::Blocked;
    }
    k.running = None;
    proof {
        lemma_counters_ok_of(c1, rf);
        assert(only_task_changed(c1, *k, rf));
        lemma_kwf_after_task_update(c1, *k, rf);
    }
    let ghost mid = *k;
    fetch(k);
    proof {
        assert(only_task_changed(b, mid, rf));
        assert(lock_block_mid_rel(b, mid, mutex_id as int));
        assert(lock_outcome_rel(b, *final(k), mutex_id as int, 0));
    }
    0
}

/// The release-side bookkeeping step: the slot's available count goes up
/// and the caller's allocation down by one.  This runs on every release
/// whose tracking entries exist — whether or not detection is on at release
/// time — so a unit taken while detection was on is returned even after the
/// toggle goes off; a slot the vectors never reached has nothing recorded
/// to undo.
pub open spec fn unlock_book_rel(a: Kernel, b: Kernel, id: int) -> bool {
    if !(id < cur_proc(a).mutex_res.len() && id < cur_task(a).inner.mutex_alloc.len()) {
        b == a
    } else {
        &&& procs_same_except(a, b, cur_ref(a).pid as int)
        &&& cur_ref(a).pid < b.procs.len()
        &&& b.procs[cur_ref(a).pid as int] is Some
        &&& cur_proc(b) == (ProcessControlBlock {
            tasks: cur_proc(b).tasks,
            mutex_res: cur_proc(b).mutex_res,
            ..cur_proc(a)
        })
        &&& cur_proc(b).mutex_res@ == cur_proc(a).mutex_res@.update(
            id,
            spec_cap_inc(cur_proc(a).mutex_res@[id]),
        )
        &&& cur_proc(b).tasks.len() == cur_proc(a).tasks.len()
        &&& forall|x: int|
            0 <= x < cur_proc(a).tasks.len() && x != cur_ref(a).tid as int ==> cur_proc(b).tasks[x]
                == #[trigger] cur_proc(a).tasks[x]
        &&& cur_proc(b).tasks[cur_ref(a).tid as int] is Some
        &&& task_at(b, cur_ref(a)) == (TaskControlBlock {
            inner: crate::task::TaskControlBlockInner {
                mutex_alloc: task_at(b, cur_ref(a)).inner.mutex_alloc,
                ..cur_task(a).inner
            },
            ..cur_task(a)
        })
        &&& task_at(b, cur_ref(a)).inner.mutex_alloc@ == cur_task(a).inner.mutex_alloc@.update(
            id,
            spec_cap_dec(cur_task(a).inner.mutex_alloc@[id]),
        )
        &&& b.ready == a.ready
        &&& b.running == a.running
        &&& b.sleepers == a.sleepers
        &&& b.clock_ms == a.clock_ms
        &&& arenas_unchanged(a, b)
    }
}

/// The grant a woken head waiter receives: its task turns Ready, and —
/// when its own process has detection on and its tracking vectors reach its
/// slot — its need moves to an allocation and the available unit is taken.
pub open spec fn mutex_grant_rel(b: Kernel, c: Kernel, w: crate::sync::QueuedWaiter) -> bool {
    let wflag = proc_at(b, w.task.pid as int).open_detect;
    let book = wflag && w.slot < task_at(b, w.task).inner.mutex_need.len() && w.slot < task_at(
        b,
        w.task,
    ).inner.mutex_alloc.len() && w.slot < proc_at(b, w.task.pid as int).mutex_res.len();
    &&& procs_same_except(b, c, w.task.pid as int)
    &&& w.task.pid < c.procs.len()
    &&& c.procs[w.task.pid as int] is Some
    &&& proc_at(c, w.task.pid as int) == (ProcessControlBlock {
        tasks: proc_at(c, w.task.pid as int).tasks,
        mutex_res: proc_at(c, w.task.pid as int).mutex_res,
        ..proc_at(b, w.task.pid as int)
    })
    &&& proc_at(c, w.task.pid as int).tasks.len() == proc_at(b, w.task.pid as int).tasks.len()
    &&& forall|x: int|
        0 <= x < proc_at(b, w.task.pid as int).tasks.len() && x != w.task.tid as int ==> proc_at(
            c,
            w.task.pid as int,
        ).tasks[x] == #[trigger] proc_at(b, w.task.pid as int).tasks[x]
    &&& proc_at(c, w.task.pid as int).tasks[w.task.tid as int] is Some
    &&& if book {
        &&& proc_at(c, w.task.pid as int).mutex_res@ == proc_at(
            b,
            w.task.pid as int,
        ).mutex_res@.update(
            w.slot as int,
            spec_cap_dec(proc_at(b, w.task.pid as int).mutex_res@[w.slot as int]),
        )
        &&& task_at(c, w.task) == (TaskControlBlock {
            inner: crate::task::TaskControlBlockInner {
                task_status: TaskStatus::Ready,
                mutex_need: task_at(c, w.task).inner.mutex_need,
                mutex_alloc: task_at(c, w.task).inner.mutex_alloc,
                ..task_at(b, w.task).inner
            },
            ..task_at(b, w.task)
        })
        &&& task_at(c, w.task).inner.mutex_need@ == task_at(b, w.task).inner.mutex_need@.update(
            w.slot as int,
            spec_cap_dec(task_at(b, w.task).inner.mutex_need@[w.slot as int]),
        )
        &&& task_at(c, w.task).inner.mutex_alloc@ == task_at(b, w.task).inner.mutex_alloc@.update(
            w.slot as int,
            spec_cap_inc(task_at(b, w.task).inner.mutex_alloc@[w.slot as int]),
        )
    } else {
        &&& proc_at(c, w.task.pid as int).mutex_res == proc_at(b, w.task.pid as int).mutex_res
        &&& task_at(c, w.task) == (TaskControlBlock {
            inner: crate::task::TaskControlBlockInner {
                task_status: TaskStatus::Ready,
                ..task_at(b, w.task).inner
            },
            ..task_at(b, w.task)
        })
    }
}

/// The hand-over step of a release: with no waiter the mutex simply opens;
/// otherwise the head waiter leaves the queue holding the mutex, turns
/// Ready, joins the ready queue, and makes its grant-time bookkeeping.
pub open spec fn unlock_wake_rel(b: Kernel, c: Kernel, id: int) -> bool {
    let arena = cur_proc(b).mutex_list[id]->Some_0 as int;
    if b.mutexes[arena].waiters.len() == 0 {
        &&& c.procs == b.procs
        &&& c.ready == b.ready
        &&& c.running == b.running
        &&& c.sleepers == b.sleepers
        &&& c.clock_ms == b.clock_ms
        &&& c.semaphores == b.semaphores
        &&& c.condvars == b.condvars
        &&& c.mutexes.len() == b.mutexes.len()
        &&& forall|m: int|
            0 <= m < b.mutexes.len() && m != arena ==> #[trigger] c.mutexes[m] == b.mutexes[m]
        &&& !c.mutexes[arena].locked
        &&& c.mutexes[arena].blocking == b.mutexes[arena].blocking
        &&& c.mutexes[arena].waiters@ == b.mutexes[arena].waiters@
    } else {
        let w = b.mutexes[arena].waiters[0];
        &&& c.mutexes.len() == b.mutexes.len()
        &&& forall|m: int|
            0 <= m < b.mutexes.len() && m != arena ==> #[trigger] c.mutexes[m] == b.mutexes[m]
        &&& c.mutexes[arena].locked == b.mutexes[arena].locked
        &&& c.mutexes[arena].blocking == b.mutexes[arena].blocking
        &&& c.mutexes[arena].waiters@ == b.mutexes[arena].waiters@.drop_first()
        &&& c.semaphores == b.semaphores
        &&& c.condvars == b.condvars
        &&& c.sleepers == b.sleepers
        &&& c.running == b.running
        &&& c.clock_ms == b.clock_ms
        &&& c.ready@ == b.ready@.push(
            ReadyEntry {
                pid: w.task.pid,
                tid: w.task.tid,
                stride: task_at(c, w.task).inner.stride,
            },
        )
        &&& mutex_grant_rel(b, c, w)
    }
}

/// The release-side bookkeeping of an unlock, alone: while detection is on
/// the slot's available unit returns and the caller's allocation drops.
#[verifier::rlimit(100)]
#[verifier::spinoff_prover]
fn mutex_release_book(k: &mut Kernel, mutex_id: usize)
    requires
        kwf(*old(k)),
        old(k).running is Some,
        mutex_slot_live(*old(k), mutex_id as int),
    ensures
        kwf(*final(k)),
        unlock_book_rel(*old(k), *final(k), mutex_id as int),
        final(k).running == old(k).running,
        mutex_slot_live(*final(k), mutex_id as int),
        cur_proc(*final(k)).mutex_list == cur_proc(*old(k)).mutex_list,
        arenas_unchanged(*old(k), *final(k)),
{
    let rf = match &k.running {
        Some(rf) => *rf,
        None => unreached(),
    };
    let ghost a = *k;
    let book = {
        let p = proc_ref(&k.procs, rf.pid);
        let t = task_ref(&p.tasks, rf.tid);
        mutex_id < p.mutex_res.len() && mutex_id < t.inner.mutex_alloc.len()
    };
    proof {
        assert(proc_wf(
            proc_at(a, rf.pid as int),
            rf.pid as int,
            a.procs.len() as int,
            a.mutexes.len() as int,
            a.semaphores.len() as int,
            a.condvars.len() as int,
        ));
    }
    if book {
        let p = proc_mut(&mut k.procs, rf.pid);
        let res_cur = p.mutex_res[mutex_id];
        p.mutex_res[mutex_id] = cap_inc(res_cur);
        let t = task_mut(&mut p.tasks, rf.tid);
        let alloc_cur = t.inner.mutex_alloc[mutex_id];
        t.inner.mutex_alloc[mutex_id] = cap_dec(alloc_cur);
        proof {
            let pa = proc_at(a, rf.pid as int);
            let pb = proc_at(*k, rf.pid as int);
            let pm = (ProcessControlBlock { mutex_res: pb.mutex_res, ..pa });
            assert forall|i: int|
                0 <= i < pm.mutex_res.len() implies -COUNTER_CAP <= #[trigger] pm.mutex_res[i]
                <= COUNTER_CAP by {
                if i != mutex_id as int {
                    assert(pm.mutex_res[i] == pa.mutex_res[i]);
                }
            }
            assert(proc_wf(
                pm,
                rf.pid as int,
                a.procs.len() as int,
                a.mutexes.len() as int,
                a.semaphores.len() as int,
                a.condvars.len() as int,
            ));
            crate::process::lemma_proc_wf_task_update(
                pm,
                pb,
                rf.tid as int,
                rf.pid as int,
                a.procs.len() as int,
                a.mutexes.len() as int,
                a.semaphores.len() as int,
                a.condvars.len() as int,
            );
            lemma_kwf_after_proc_update(a, *k, rf.pid as int);
        }
    }
}

/// Wakes the waiter `w`, granted its mutex: Ready, enqueued, and — when its
/// own process asks for it — with the grant-time bookkeeping made.
#[verifier::rlimit(100)]
#[verifier::spinoff_prover]
fn wake_mutex_waiter(k: &mut Kernel, w: crate::sync::QueuedWaiter)
    requires
        kwf(*old(k)),
        ref_ok(*old(k), w.task),
    ensures
        kwf(*final(k)),
        mutex_grant_rel(*old(k), *final(k), w),
        final(k).ready@ == old(k).ready@.push(
            ReadyEntry {
                pid: w.task.pid,
                tid: w.task.tid,
                stride: task_at(*final(k), w.task).inner.stride,
            },
        ),
        final(k).running == old(k).running,
        final(k).sleepers == old(k).sleepers,
        final(k).clock_ms == old(k).clock_ms,
        arenas_unchanged(*old(k), *final(k)),
{
    let ghost c1 = *k;
    let book = {
        let p = proc_ref(&k.procs, w.task.pid);
        let t = task_ref(&p.tasks, w.task.tid);
        p.open_detect && w.slot < t.inner.mutex_need.len() && w.slot < t.inner.mutex_alloc.len()
            && w.slot < p.mutex_res.len()
    };
    proof {
        assert(proc_wf(
            proc_at(c1, w.task.pid as int),
            w.task.pid as int,
            c1.procs.len() as int,
            c1.mutexes.len() as int,
            c1.semaphores.len() as int,
            c1.condvars.len() as int,
        ));
    }
    if book {
        let p = proc_mut(&mut k.procs, w.task.pid);
        let res_cur = p.mutex_res[w.slot];
        p.mutex_res[w.slot] = cap_dec(res_cur);
        let t = task_mut(&mut p.tasks, w.task.tid);
        let need_cur = t.inner.mutex_need[w.slot];
        t.inner.mutex_need[w.slot] = cap_dec(need_cur);
        let alloc_cur = t.inner.mutex_alloc[w.slot];
        t.inner.mutex_alloc[w.slot] = cap_inc(alloc_cur);
        t.inner.task_status = TaskStatus::Ready;
        proof {
            let pa = proc_at(c1, w.task.pid as int);
            let pb = proc_at(*k, w.task.pid as int);
            let pm = (ProcessControlBlock { mutex_res: pb.mutex_res, ..pa });
            assert forall|i: int|
                0 <= i < pm.mutex_res.len() implies -COUNTER_CAP <= #[trigger] pm.mutex_res[i]
                <= COUNTER_CAP by {
                if i != w.slot as int {
                    assert(pm.mutex_res[i] == pa.mutex_res[i]);
                }
            }
            assert(proc_wf(
                pm,
                w.task.pid as int,
                c1.procs.len() as int,
                c1.mutexes.len() as int,
                c1.semaphores.len() as int,
                c1.condvars.len() as int,
            ));
            crate::process::lemma_proc_wf_task_update(
                pm,
                pb,
                w.task.tid as int,
                w.task.pid as int,
                c1.procs.len() as int,
                c1.mutexes.len() as int,
                c1.semaphores.len() as int,
                c1.condvars.len() as int,
            );
            lemma_kwf_after_proc_update(c1, *k, w.task.pid as int);
        }
    } else {
        let p = proc_mut(&mut k.procs, w.task.pid);
        let t = task_mut(&mut p.tasks, w.task.tid);
        t.inner.task_status = TaskStatus::Ready;
        proof {
            lemma_counters_ok_of(c1, w.task);
            assert(only_task_changed(c1, *k, w.task));
            lemma_kwf_after_task_update(c1, *k, w.task);
        }
    }
    enqueue_ready(k, w.task);
}

/// The hand-over of a release: the mutex opens, or passes to the head
/// waiter, which wakes.
#[verifier::rlimit(100)]
#[verifier::spinoff_prover]
fn mutex_handover(k: &mut Kernel, mutex_id: usize)
    requires
        kwf(*old(k)),
        old(k).running is Some,
        mutex_slot_live(*old(k), mutex_id as int),
    ensures
        kwf(*final(k)),
        unlock_wake_rel(*old(k), *final(k), mutex_id as int),
{
    let rf = match &k.running {
        Some(rf) => *rf,
        None => unreached(),
    };
    let ghost b = *k;
    let arena = {
        let p = proc_ref(&k.procs, rf.pid);
        match p.mutex_list[mutex_id] {
            Some(m) => m,
            None => unreached(),
        }
    };
    proof {
        assert(proc_wf(
            proc_at(b, rf.pid as int),
            rf.pid as int,
            b.procs.len() as int,
            b.mutexes.len() as int,
            b.semaphores.len() as int,
            b.condvars.len() as int,
        ));
    }
    let has_waiter = k.mutexes[arena].waiters.len() > 0;
    if !has_waiter {
        {
            let m = &mut k.mutexes[arena];
            m.locked = false;
        }
        proof {
            lemma_kwf_after_arena_update(b, *k);
            assert(unlock_wake_rel(b, *k, mutex_id as int));
        }
        return ;
    }
    let w = {
        let m = &mut k.mutexes[arena];
        m.waiters.remove(0)
    };
    proof {
        assert forall|m: int, x: int|
            0 <= m < k.mutexes.len() && 0 <= x < k.mutexes[m].waiters.len() implies ref_ok(
            b,
            (#[trigger] k.mutexes[m].waiters[x]).task,
        ) by {
            if m == arena as int {
                assert(k.mutexes[m].waiters[x] == b.mutexes[m].waiters[x + 1]);
            }
        }
        lemma_kwf_after_arena_update(b, *k);
        assert(ref_ok(b, w.task));
    }
    wake_mutex_waiter(k, w);
    proof {
        assert(mutex_grant_rel(b, *final(k), w));
        assert(unlock_wake_rel(b, *final(k), mutex_id as int));
    }
}

/// Releases a mutex slot the caller's process holds.  The inverse
/// bookkeeping — the available unit back, the caller's allocation down —
/// runs first, unconditionally wherever the tracking entries exist, even if
/// detection was toggled off since the acquisition; then the mutex either
/// opens, with no waiter, or passes directly to the head waiter, which
/// wakes with its own grant-time bookkeeping.
pub fn sys_mutex_unlock(k: &mut Kernel, mutex_id: usize) -> (r: isize)
    requires
        kwf(*old(k)),
        old(k).running is Some,
        mutex_slot_live(*old(k), mutex_id as int),
        old(k).mutexes[cur_proc(*old(k)).mutex_list[mutex_id as int]->Some_0 as int].locked,
    ensures
        kwf(*final(k)),
        r == 0,
        exists|mid: Kernel|
            #[trigger] unlock_book_rel(*old(k), mid, mutex_id as int) && unlock_wake_rel(
                mid,
                *final(k),
                mutex_id as int,
            ),
{
    mutex_release_book(k, mutex_id);
    let ghost mid = *k;
    mutex_handover(k, mutex_id);
    proof {
        assert(unlock_book_rel(*old(k), mid, mutex_id as int) && unlock_wake_rel(
            mid,
            *final(k),
            mutex_id as int,
        ));
    }
    0
}

/// The slot `id` of the calling process's semaphore table is occupied.
pub open spec fn sem_slot_live(k: Kernel, id: int) -> bool {
    &&& 0 <= id < cur_proc(k).semaphore_list.len()
    &&& cur_proc(k).semaphore_list[id] is Some
}

/// The acquisition-side bookkeeping step of `down`: while detection is on,
/// the caller's need entry for the slot goes up by one.
pub open spec fn down_need_rel(a: Kernel, b: Kernel, id: int) -> bool {
    if !cur_proc(a).open_detect {
        b == a
    } else {
        &&& only_task_changed(a, b, cur_ref(a))
        &&& task_at(b, cur_ref(a)) == (TaskControlBlock {
            inner: crate::task::TaskControlBlockInner {
                semaphore_need: task_at(b, cur_ref(a)).inner.semaphore_need,
                ..cur_task(a).inner
            },
            ..cur_task(a)
        })
        &&& task_at(b, cur_ref(a)).inner.semaphore_need@ == cur_task(
            a,
        ).inner.semaphore_need@.update(id, spec_cap_inc(cur_task(a).inner.semaphore_need@[id]))
        &&& b.ready == a.ready
        &&& b.running == a.running
        &&& b.sleepers == a.sleepers
        &&& b.clock_ms == a.clock_ms
        &&& arenas_unchanged(a, b)
        &&& b.next_token == a.next_token
    }
}

/// The safety check's verdict on the state after the need step: the
/// Banker's simulation over the caller's task list and semaphore snapshot.
pub open spec fn sem_state_safe(b: Kernel) -> bool {
    crate::sync::banker_ok(
        cur_proc(b).tasks@,
        crate::sync::seq_int(cur_proc(b).semaphore_res@),
        crate::sync::all_false(cur_proc(b).tasks.len() as nat),
        true,
    )
}

/// The blocked tail's first half for `down`: the caller has joined the wait
/// queue of its slot's semaphore and blocked, the count already down.
pub open spec fn down_block_mid_rel(b: Kernel, mid: Kernel, id: int) -> bool {
    let arena = cur_proc(b).semaphore_list[id]->Some_0 as int;
    &&& mid.clock_ms == b.clock_ms
    &&& only_task_changed(b, mid, cur_ref(b))
    &&& task_at(mid, cur_ref(b)).inner == (crate::task::TaskControlBlockInner {
        task_status: TaskStatus::Blocked,
        ..cur_task(b).inner
    })
    &&& mid.semaphores.len() == b.semaphores.len()
    &&& forall|m: int|
        0 <= m < b.semaphores.len() && m != arena ==> #[trigger] mid.semaphores[m]
            == b.semaphores[m]
    &&& mid.semaphores[arena].count == spec_cap_dec(b.semaphores[arena].count)
    &&& mid.semaphores[arena].waiters@ == b.semaphores[arena].waiters@.push(
        (crate::sync::QueuedWaiter { task: cur_ref(b), slot: id as usize }),
    )
    &&& mid.mutexes == b.mutexes
    &&& mid.condvars == b.condvars
    &&& mid.ready == b.ready
    &&& mid.sleepers == b.sleepers
    &&& mid.running is None
}

/// What `sys_semaphore_down` does after the need step `b`: a refusal, an
/// immediate grant from a positive count, or the blocked tail.
pub open spec fn down_outcome_rel(b: Kernel, c: Kernel, id: int, r: isize) -> bool {
    let flag = cur_proc(b).open_detect;
    let arena = cur_proc(b).semaphore_list[id]->Some_0 as int;
    if flag && !sem_state_safe(b) {
        // Refused before blocking: the tentative need stays up; nothing
        // else — in particular no allocation or available count — moves.
        &&& r == DEADLOCK_ERR
        &&& c == b
    } else if b.semaphores[arena].count > 0 {
        &&& r == 0
        &&& c.semaphores.len() == b.semaphores.len()
        &&& forall|m: int|
            0 <= m < b.semaphores.len() && m != arena ==> #[trigger] c.semaphores[m]
                == b.semaphores[m]
        &&& c.semaphores[arena].count == spec_cap_dec(b.semaphores[arena].count)
        &&& c.semaphores[arena].waiters == b.semaphores[arena].waiters
        &&& c.mutexes == b.mutexes
        &&& c.condvars == b.condvars
        &&& c.ready == b.ready
        &&& c.running == b.running
        &&& c.sleepers == b.sleepers
        &&& c.clock_ms == b.clock_ms
        &&& if flag {
            &&& procs_same_except(b, c, cur_ref(b).pid as int)
            &&& cur_ref(b).pid < c.procs.len()
            &&& c.procs[cur_ref(b).pid as int] is Some
            &&& cur_proc(c).tasks.len() == cur_proc(b).tasks.len()
            &&& forall|x: int|
                0 <= x < cur_proc(b).tasks.len() && x != cur_ref(b).tid as int ==> cur_proc(
                    c,
                ).tasks[x] == #[trigger] cur_proc(b).tasks[x]
            &&& cur_proc(c).tasks[cur_ref(b).tid as int] is Some
            &&& cur_proc(c) == (ProcessControlBlock {
                tasks: cur_proc(c).tasks,
                semaphore_res: cur_proc(c).semaphore_res,
                ..cur_proc(b)
            })
            &&& cur_proc(c).semaphore_res@ == cur_proc(b).semaphore_res@.update(
                id,
                spec_cap_dec(cur_proc(b).semaphore_res@[id]),
            )
            &&& task_at(c, cur_ref(b)) == (TaskControlBlock {
                inner: crate::task::TaskControlBlockInner {
                    semaphore_need: task_at(c, cur_ref(b)).inner.semaphore_need,
                    semaphore_alloc: task_at(c, cur_ref(b)).inner.semaphore_alloc,
                    ..cur_task(b).inner
                },
                ..cur_task(b)
            })
            &&& task_at(c, cur_ref(b)).inner.semaphore_need@ == cur_task(
                b,
            ).inner.semaphore_need@.update(
                id,
                spec_cap_dec(cur_task(b).inner.semaphore_need@[id]),
            )
            &&& task_at(c, cur_ref(b)).inner.semaphore_alloc@ == cur_task(
                b,
            ).inner.semaphore_alloc@.update(
                id,
                spec_cap_inc(cur_task(b).inner.semaphore_alloc@[id]),
            )
        } else {
            c.procs == b.procs
        }
    } else {
        &&& r == 0
        &&& exists|mid: Kernel| #[trigger] down_block_mid_rel(b, mid, id) && fetch_rel(mid, c)
    }
}

/// Takes a unit of a semaphore slot of the calling process.  While
/// detection is on the caller's need rises first and the Banker's check
/// runs; an unsafe state is refused at once with the distinguished result,
/// the tentative need left in place.  Otherwise a positive count hands a
/// unit over immediately — moving need to allocation and taking the
/// available unit — and a non-positive one sends the caller to the wait
/// queue, blocked, the count one lower.
#[verifier::rlimit(100)]
#[verifier::spinoff_prover]
pub fn sys_semaphore_down(k: &mut Kernel, sem_id: usize) -> (r: isize)
    requires
        kwf(*old(k)),
        old(k).running is Some,
        sem_slot_live(*old(k), sem_id as int),
    ensures
        kwf(*final(k)),
        exists|mid: Kernel|
            #[trigger] down_need_rel(*old(k), mid, sem_id as int) && down_outcome_rel(
                mid,
                *final(k),
                sem_id as int,
                r,
            ),
{
    let rf = match &k.running {
        Some(rf) => *rf,
        None => unreached(),
    };
    let ghost a = *k;
    let (flag, arena) = {
        let p = proc_ref(&k.procs, rf.pid);
        let ar = match p.semaphore_list[sem_id] {
            Some(m) => m,
            None => unreached(),
        };
        (p.open_detect, ar)
    };
    proof {
        assert(proc_wf(
            proc_at(a, rf.pid as int),
            rf.pid as int,
            a.procs.len() as int,
            a.mutexes.len() as int,
            a.semaphores.len() as int,
            a.condvars.len() as int,
        ));
    }
    if flag {
        let p = proc_mut(&mut k.procs, rf.pid);
        let t = task_mut(&mut p.tasks, rf.tid);
        let cur = t.inner.semaphore_need[sem_id];
        t.inner.semaphore_need[sem_id] = cap_inc(cur);
        proof {
            assert(t.inner.semaphore_need@ == task_at(a, rf).inner.semaphore_need@.update(
                sem_id as int,
                spec_cap_inc(task_at(a, rf).inner.semaphore_need@[sem_id as int]),
            ));
        }
    }
    proof {
        if flag {
            lemma_counters_ok_of(a, rf);
            assert(only_task_changed(a, *k, rf));
            lemma_kwf_after_task_update(a, *k, rf);
        }
        assert(down_need_rel(a, *k, sem_id as int));
    }
    let ghost b = *k;
    if flag {
        let safe = {
            let p = proc_ref(&k.procs, rf.pid);
            crate::sync::detect_safe(&p.tasks, &p.semaphore_res, true)
        };
        if !safe {
            return DEADLOCK_ERR;
        }
    }
    let count_now = k.semaphores[arena].count;
    {
        let s = &mut k.semaphores[arena];
        let c = s.count;
        s.count = cap_dec(c);
    }
    proof {
        lemma_kwf_after_arena_update(b, *k);
    }
    if count_now > 0 {
        if flag {
            let ghost c0 = *k;
            let p = proc_mut(&mut k.procs, rf.pid);
            let res_cur = p.semaphore_res[sem_id];
            p.semaphore_res[sem_id] = cap_dec(res_cur);
            let t = task_mut(&mut p.tasks, rf.tid);
            let need_cur = t.inner.semaphore_need[sem_id];
            t.inner.semaphore_need[sem_id] = cap_dec(need_cur);
            let alloc_cur = t.inner.semaphore_alloc[sem_id];
            t.inner.semaphore_alloc[sem_id] = cap_inc(alloc_cur);
            proof {
                let pa = proc_at(c0, rf.pid as int);
                let pb = proc_at(*k, rf.pid as int);
                let pm = (ProcessControlBlock { semaphore_res: pb.semaphore_res, ..pa });
                assert forall|i: int|
                    0 <= i < pm.semaphore_res.len() implies -COUNTER_CAP
                    <= #[trigger] pm.semaphore_res[i] <= COUNTER_CAP by {
                    if i != sem_id as int {
                        assert(pm.semaphore_res[i] == pa.semaphore_res[i]);
                    }
                }
                assert(proc_wf(
                    pm,
                    rf.pid as int,
                    c0.procs.len() as int,
                    c0.mutexes.len() as int,
                    c0.semaphores.len() as int,
                    c0.condvars.len() as int,
                ));
                crate::process::lemma_proc_wf_task_update(
                    pm,
                    pb,
                    rf.tid as int,
                    rf.pid as int,
                    c0.procs.len() as int,
                    c0.mutexes.len() as int,
                    c0.semaphores.len() as int,
                    c0.condvars.len() as int,
                );
                lemma_kwf_after_proc_update(c0, *k, rf.pid as int);
            }
        }
        proof {
            assert(down_outcome_rel(b, *k, sem_id as int, 0));
        }
        return 0;
    }
    let ghost b2 = *k;
    {
        let s = &mut k.semaphores[arena];
        s.waiters.push(crate::sync::QueuedWaiter { task: rf, slot: sem_id });
    }
    proof {
        assert forall|m: int, w: int|
            0 <= m < k.semaphores.len() && 0 <= w < k.semaphores[m].waiters.len() implies ref_ok(
            b2,
            (#[trigger] k.semaphores[m].waiters[w]).task,
        ) by {
            if m != arena as int || w < b2.semaphores[arena as int].waiters.len() {
                assert(k.semaphores[m].waiters[w] == b2.semaphores[m].waiters[w]);
            } else {
                assert(k.semaphores[m].waiters[w].task == rf);
            }
        }
        lemma_kwf_after_arena_update(b2, *k);
    }
    let ghost c1 = *k;
    {
        let p = proc_mut(&mut k.procs, rf.pid);
        let t = task_mut(&mut p.tasks, rf.tid);
        t.inner.task_status = TaskStatus::Blocked;
    }
    k.running = None;
    proof {
        lemma_counters_ok_of(c1, rf);
        assert(only_task_changed(c1, *k, rf));
        lemma_kwf_after_task_update(c1, *k, rf);
    }
    let ghost mid = *k;
    fetch(k);
    proof {
        assert(down_block_mid_rel(b, mid, sem_id as int));
        assert(down_outcome_rel(b, *final(k), sem_id as int, 0));
    }
    0
}

/// The release-side bookkeeping step of `up`: the slot's available count
/// goes up and the caller's allocation down by one.  As for a mutex
/// release, this runs whenever the tracking entries exist, whether or not
/// detection is on at release time.
pub open spec fn up_book_rel(a: Kernel, b: Kernel, id: int) -> bool {
    if !(id < cur_proc(a).semaphore_res.len() && id < cur_task(a).inner.semaphore_alloc.len()) {
        b == a
    } else {
        &&& procs_same_except(a, b, cur_ref(a).pid as int)
        &&& cur_ref(a).pid < b.procs.len()
        &&& b.procs[cur_ref(a).pid as int] is Some
        &&& cur_proc(b) == (ProcessControlBlock {
            tasks: cur_proc(b).tasks,
            semaphore_res: cur_proc(b).semaphore_res,
            ..cur_proc(a)
        })
        &&& cur_proc(b).semaphore_res@ == cur_proc(a).semaphore_res@.update(
            id,
            spec_cap_inc(cur_proc(a).semaphore_res@[id]),
        )
        &&& cur_proc(b).tasks.len() == cur_proc(a).tasks.len()
        &&& forall|x: int|
            0 <= x < cur_proc(a).tasks.len() && x != cur_ref(a).tid as int ==> cur_proc(b).tasks[x]
                == #[trigger] cur_proc(a).tasks[x]
        &&& cur_proc(b).tasks[cur_ref(a).tid as int] is Some
        &&& task_at(b, cur_ref(a)) == (TaskControlBlock {
            inner: crate::task::TaskControlBlockInner {
                semaphore_alloc: task_at(b, cur_ref(a)).inner.semaphore_alloc,
                ..cur_task(a).inner
            },
            ..cur_task(a)
        })
        &&& task_at(b, cur_ref(a)).inner.semaphore_alloc@ == cur_task(
            a,
        ).inner.semaphore_alloc@.update(id, spec_cap_dec(cur_task(a).inner.semaphore_alloc@[id]))
        &&& b.ready == a.ready
        &&& b.running == a.running
        &&& b.sleepers == a.sleepers
        &&& b.clock_ms == a.clock_ms
        &&& arenas_unchanged(a, b)
    }
}

/// The grant a woken `down` waiter receives, the mirror of the mutex case
/// over the semaphore vectors.
pub open spec fn sem_grant_rel(b: Kernel, c: Kernel, w: crate::sync::QueuedWaiter) -> bool {
    let wflag = proc_at(b, w.task.pid as int).open_detect;
    let book = wflag && w.slot < task_at(b, w.task).inner.semaphore_need.len() && w.slot < task_at(
        b,
        w.task,
    ).inner.semaphore_alloc.len() && w.slot < proc_at(b, w.task.pid as int).semaphore_res.len();
    &&& procs_same_except(b, c, w.task.pid as int)
    &&& w.task.pid < c.procs.len()
    &&& c.procs[w.task.pid as int] is Some
    &&& proc_at(c, w.task.pid as int) == (ProcessControlBlock {
        tasks: proc_at(c, w.task.pid as int).tasks,
        semaphore_res: proc_at(c, w.task.pid as int).semaphore_res,
        ..proc_at(b, w.task.pid as int)
    })
    &&& proc_at(c, w.task.pid as int).tasks.len() == proc_at(b, w.task.pid as int).tasks.len()
    &&& forall|x: int|
        0 <= x < proc_at(b, w.task.pid as int).tasks.len() && x != w.task.tid as int ==> proc_at(
            c,
            w.task.pid as int,
        ).tasks[x] == #[trigger] proc_at(b, w.task.pid as int).tasks[x]
    &&& proc_at(c, w.task.pid as int).tasks[w.task.tid as int] is Some
    &&& if book {
        &&& proc_at(c, w.task.pid as int).semaphore_res@ == proc_at(
            b,
            w.task.pid as int,
        ).semaphore_res@.update(
            w.slot as int,
            spec_cap_dec(proc_at(b, w.task.pid as int).semaphore_res@[w.slot as int]),
        )
        &&& task_at(c, w.task) == (TaskControlBlock {
            inner: crate::task::TaskControlBlockInner {
                task_status: TaskStatus::Ready,
                semaphore_need: task_at(c, w.task).inner.semaphore_need,
                semaphore_alloc: task_at(c, w.task).inner.semaphore_alloc,
                ..task_at(b, w.task).inner
            },
            ..task_at(b, w.task)
        })
        &&& task_at(c, w.task).inner.semaphore_need@ == task_at(
            b,
            w.task,
        ).inner.semaphore_need@.update(
            w.slot as int,
            spec_cap_dec(task_at(b, w.task).inner.semaphore_need@[w.slot as int]),
        )
        &&& task_at(c, w.task).inner.semaphore_alloc@ == task_at(
            b,
            w.task,
        ).inner.semaphore_alloc@.update(
            w.slot as int,
            spec_cap_inc(task_at(b, w.task).inner.semaphore_alloc@[w.slot as int]),
        )
    } else {
        &&& proc_at(c, w.task.pid as int).semaphore_res == proc_at(
            b,
            w.task.pid as int,
        ).semaphore_res
        &&& task_at(c, w.task) == (TaskControlBlock {
            inner: crate::task::TaskControlBlockInner {
                task_status: TaskStatus::Ready,
                ..task_at(b, w.task).inner
            },
            ..task_at(b, w.task)
        })
    }
}

/// The hand-over step of `up`: the count rises, and when it stays at or
/// below zero with someone waiting, the head waiter leaves the queue
/// holding a unit, turns Ready, joins the ready queue, and makes its
/// grant-time bookkeeping.
pub open spec fn up_wake_rel(b: Kernel, c: Kernel, id: int) -> bool {
    let arena = cur_proc(b).semaphore_list[id]->Some_0 as int;
    let newcount = spec_cap_inc(b.semaphores[arena].count);
    if !(newcount <= 0 && b.semaphores[arena].waiters.len() > 0) {
        &&& c.procs == b.procs
        &&& c.ready == b.ready
        &&& c.running == b.running
        &&& c.sleepers == b.sleepers
        &&& c.clock_ms == b.clock_ms
        &&& c.mutexes == b.mutexes
        &&& c.condvars == b.condvars
        &&& c.semaphores.len() == b.semaphores.len()
        &&& forall|m: int|
            0 <= m < b.semaphores.len() && m != arena ==> #[trigger] c.semaphores[m]
                == b.semaphores[m]
        &&& c.semaphores[arena].count == newcount
        &&& c.semaphores[arena].waiters@ == b.semaphores[arena].waiters@
    } else {
        let w = b.semaphores[arena].waiters[0];
        &&& c.semaphores.len() == b.semaphores.len()
        &&& forall|m: int|
            0 <= m < b.semaphores.len() && m != arena ==> #[trigger] c.semaphores[m]
                == b.semaphores[m]
        &&& c.semaphores[arena].count == newcount
        &&& c.semaphores[arena].waiters@ == b.semaphores[arena].waiters@.drop_first()
        &&& c.mutexes == b.mutexes
        &&& c.condvars == b.condvars
        &&& c.sleepers == b.sleepers
        &&& c.running == b.running
        &&& c.clock_ms == b.clock_ms
        &&& c.ready@ == b.ready@.push(
            ReadyEntry {
                pid: w.task.pid,
                tid: w.task.tid,
                stride: task_at(c, w.task).inner.stride,
            },
        )
        &&& sem_grant_rel(b, c, w)
    }
}

/// The release-side bookkeeping of an `up`, alone.
#[verifier::rlimit(100)]
#[verifier::spinoff_prover]
fn sem_release_book(k: &mut Kernel, sem_id: usize)
    requires
        kwf(*old(k)),
        old(k).running is Some,
        sem_slot_live(*old(k), sem_id as int),
    ensures
        kwf(*final(k)),
        up_book_rel(*old(k), *final(k), sem_id as int),
        final(k).running == old(k).running,
        sem_slot_live(*final(k), sem_id as int),
        cur_proc(*final(k)).semaphore_list == cur_proc(*old(k)).semaphore_list,
        arenas_unchanged(*old(k), *final(k)),
{
    let rf = match &k.running {
        Some(rf) => *rf,
        None => unreached(),
    };
    let ghost a = *k;
    let book = {
        let p = proc_ref(&k.procs, rf.pid);
        let t = task_ref(&p.tasks, rf.tid);
        sem_id < p.semaphore_res.len() && sem_id < t.inner.semaphore_alloc.len()
    };
    proof {
        assert(proc_wf(
            proc_at(a, rf.pid as int),
            rf.pid as int,
            a.procs.len() as int,
            a.mutexes.len() as int,
            a.semaphores.len() as int,
            a.condvars.len() as int,
        ));
    }
    if book {
        let p = proc_mut(&mut k.procs, rf.pid);
        let res_cur = p.semaphore_res[sem_id];
        p.semaphore_res[sem_id] = cap_inc(res_cur);
        let t = task_mut(&mut p.tasks, rf.tid);
        let alloc_cur = t.inner.semaphore_alloc[sem_id];
        t.inner.semaphore_alloc[sem_id] = cap_dec(alloc_cur);
        proof {
            let pa = proc_at(a, rf.pid as int);
            let pb = proc_at(*k, rf.pid as int);
            let pm = (ProcessControlBlock { semaphore_res: pb.semaphore_res, ..pa });
            assert forall|i: int|
                0 <= i < pm.semaphore_res.len() implies -COUNTER_CAP
                <= #[trigger] pm.semaphore_res[i] <= COUNTER_CAP by {
                if i != sem_id as int {
                    assert(pm.semaphore_res[i] == pa.semaphore_res[i]);
                }
            }
            assert(proc_wf(
                pm,
                rf.pid as int,
                a.procs.len() as int,
                a.mutexes.len() as int,
                a.semaphores.len() as int,
                a.condvars.len() as int,
            ));
            crate::process::lemma_proc_wf_task_update(
                pm,
                pb,
                rf.tid as int,
                rf.pid as int,
                a.procs.len() as int,
                a.mutexes.len() as int,
                a.semaphores.len() as int,
                a.condvars.len() as int,
            );
            lemma_kwf_after_proc_update(a, *k, rf.pid as int);
        }
    }
}

/// Wakes the `down` waiter `w`, granted its unit: Ready, enqueued, and —
/// when its own process asks for it — with the grant-time bookkeeping made.
#[verifier::rlimit(100)]
#[verifier::spinoff_prover]
fn wake_sem_waiter(k: &mut Kernel, w: crate::sync::QueuedWaiter)
    requires
        kwf(*old(k)),
        ref_ok(*old(k), w.task),
    ensures
        kwf(*final(k)),
        sem_grant_rel(*old(k), *final(k), w),
        final(k).ready@ == old(k).ready@.push(
            ReadyEntry {
                pid: w.task.pid,
                tid: w.task.tid,
                stride: task_at(*final(k), w.task).inner.stride,
            },
        ),
        final(k).running == old(k).running,
        final(k).sleepers == old(k).sleepers,
        final(k).clock_ms == old(k).clock_ms,
        arenas_unchanged(*old(k), *final(k)),
{
    let ghost c1 = *k;
    let book = {
        let p = proc_ref(&k.procs, w.task.pid);
        let t = task_ref(&p.tasks, w.task.tid);
        p.open_detect && w.slot < t.inner.semaphore_need.len() && w.slot
            < t.inner.semaphore_alloc.len() && w.slot < p.semaphore_res.len()
    };
    proof {
        assert(proc_wf(
            proc_at(c1, w.task.pid as int),
            w.task.pid as int,
            c1.procs.len() as int,
            c1.mutexes.len() as int,
            c1.semaphores.len() as int,
            c1.condvars.len() as int,
        ));
    }
    if book {
        let p = proc_mut(&mut k.procs, w.task.pid);
        let res_cur = p.semaphore_res[w.slot];
        p.semaphore_res[w.slot] = cap_dec(res_cur);
        let t = task_mut(&mut p.tasks, w.task.tid);
        let need_cur = t.inner.semaphore_need[w.slot];
        t.inner.semaphore_need[w.slot] = cap_dec(need_cur);
        let alloc_cur = t.inner.semaphore_alloc[w.slot];
        t.inner.semaphore_alloc[w.slot] = cap_inc(alloc_cur);
        t.inner.task_status = TaskStatus::Ready;
        proof {
            let pa = proc_at(c1, w.task.pid as int);
            let pb = proc_at(*k, w.task.pid as int);
            let pm = (ProcessControlBlock { semaphore_res: pb.semaphore_res, ..pa });
            assert forall|i: int|
                0 <= i < pm.semaphore_res.len() implies -COUNTER_CAP
                <= #[trigger] pm.semaphore_res[i] <= COUNTER_CAP by {
                if i != w.slot as int {
                    assert(pm.semaphore_res[i] == pa.semaphore_res[i]);
                }
            }
            assert(proc_wf(
                pm,
                w.task.pid as int,
                c1.procs.len() as int,
                c1.mutexes.len() as int,
                c1.semaphores.len() as int,
                c1.condvars.len() as int,
            ));
            crate::process::lemma_proc_wf_task_update(
                pm,
                pb,
                w.task.tid as int,
                w.task.pid as int,
                c1.procs.len() as int,
                c1.mutexes.len() as int,
                c1.semaphores.len() as int,
                c1.condvars.len() as int,
            );
            lemma_kwf_after_proc_update(c1, *k, w.task.pid as int);
        }
    } else {
        let p = proc_mut(&mut k.procs, w.task.pid);
        let t = task_mut(&mut p.tasks, w.task.tid);
        t.inner.task_status = TaskStatus::Ready;
        proof {
            lemma_counters_ok_of(c1, w.task);
            assert(only_task_changed(c1, *k, w.task));
            lemma_kwf_after_task_update(c1, *k, w.task);
        }
    }
    enqueue_ready(k, w.task);
}

/// The hand-over of an `up`: the count rises and a due waiter wakes.
#[verifier::rlimit(100)]
#[verifier::spinoff_prover]
fn sem_handover(k: &mut Kernel, sem_id: usize)
    requires
        kwf(*old(k)),
        old(k).running is Some,
        sem_slot_live(*old(k), sem_id as int),
    ensures
        kwf(*final(k)),
        up_wake_rel(*old(k), *final(k), sem_id as int),
{
    let rf = match &k.running {
        Some(rf) => *rf,
        None => unreached(),
    };
    let ghost b = *k;
    let arena = {
        let p = proc_ref(&k.procs, rf.pid);
        match p.semaphore_list[sem_id] {
            Some(m) => m,
            None => unreached(),
        }
    };
    proof {
        assert(proc_wf(
            proc_at(b, rf.pid as int),
            rf.pid as int,
            b.procs.len() as int,
            b.mutexes.len() as int,
            b.semaphores.len() as int,
            b.condvars.len() as int,
        ));
    }
    let count_new = cap_inc(k.semaphores[arena].count);
    let waiters_due = count_new <= 0 && k.semaphores[arena].waiters.len() > 0;
    {
        let s = &mut k.semaphores[arena];
        let c = s.count;
        s.count = cap_inc(c);
    }
    proof {
        lemma_kwf_after_arena_update(b, *k);
    }
    if !waiters_due {
        proof {
            assert(up_wake_rel(b, *k, sem_id as int));
        }
        return ;
    }
    let ghost b1 = *k;
    let w = {
        let s = &mut k.semaphores[arena];
        s.waiters.remove(0)
    };
    proof {
        assert forall|m: int, x: int|
            0 <= m < k.semaphores.len() && 0 <= x < k.semaphores[m].waiters.len() implies ref_ok(
            b1,
            (#[trigger] k.semaphores[m].waiters[x]).task,
        ) by {
            if m == arena as int {
                assert(k.semaphores[m].waiters[x] == b1.semaphores[m].waiters[x + 1]);
            }
        }
        lemma_kwf_after_arena_update(b1, *k);
        assert(ref_ok(*k, w.task));
    }
    wake_sem_waiter(k, w);
    proof {
        assert(sem_grant_rel(b, *final(k), w));
        assert(up_wake_rel(b, *final(k), sem_id as int));
    }
}

/// Returns a unit to a semaphore slot of the calling process.  The inverse
/// bookkeeping — the available unit back, the caller's allocation down —
/// runs first, unconditionally wherever the tracking entries exist, even if
/// detection was toggled off since the acquisition; the count rises, and a
/// due waiter wakes holding the unit, with its own grant-time bookkeeping.
pub fn sys_semaphore_up(k: &mut Kernel, sem_id: usize) -> (r: isize)
    requires
        kwf(*old(k)),
        old(k).running is Some,
        sem_slot_live(*old(k), sem_id as int),
    ensures
        kwf(*final(k)),
        r == 0,
        exists|mid: Kernel|
            #[trigger] up_book_rel(*old(k), mid, sem_id as int) && up_wake_rel(
                mid,
                *final(k),
                sem_id as int,
            ),
{
    sem_release_book(k, sem_id);
    let ghost mid = *k;
    sem_handover(k, sem_id);
    proof {
        assert(up_book_rel(*old(k), mid, sem_id as int) && up_wake_rel(
            mid,
            *final(k),
            sem_id as int,
        ));
    }
    0
}

/// Creates one more task — a thread — in the calling process: Ready, with
/// the default weight, a zero stride, and tracking vectors sized to the
/// current tables, placed in the lowest empty task slot and enqueued.
/// `-1` only when the task table is at the model's capacity.
#[verifier::rlimit(100)]
#[verifier::spinoff_prover]
pub fn sys_thread_create(k: &mut Kernel) -> (r: isize)
    requires
        kwf(*old(k)),
        old(k).running is Some,
    ensures
        kwf(*final(k)),
        r == -1 ==> *final(k) == *old(k),
        r == -1 <==> cur_proc(*old(k)).tasks.len() >= MAX_TASKS && (forall|j: int|
            0 <= j < cur_proc(*old(k)).tasks.len() ==> #[trigger] cur_proc(
                *old(k),
            ).tasks@[j] is Some),
        r != -1 ==> {
            let po = cur_proc(*old(k));
            let pn = cur_proc(*final(k));
            let grown = pn.tasks.len() > po.tasks.len();
            &&& procs_same_except(*old(k), *final(k), cur_ref(*old(k)).pid as int)
            &&& 0 <= r < pn.tasks.len()
            &&& (grown ==> r == po.tasks.len() && (forall|j: int|
                0 <= j < po.tasks.len() ==> #[trigger] po.tasks[j] is Some))
            &&& (!grown ==> po.tasks[r as int] is None && (forall|j: int|
                0 <= j < r ==> #[trigger] po.tasks[j] is Some))
            &&& forall|j: int|
                0 <= j < po.tasks.len() && j != r ==> #[trigger] pn.tasks[j] == po.tasks[j]
            &&& pn.tasks[r as int] is Some
            &&& pn.tasks[r as int]->Some_0.process == cur_ref(*old(k)).pid
            &&& pn.tasks[r as int]->Some_0.inner.task_status == TaskStatus::Ready
            &&& pn.tasks[r as int]->Some_0.inner.stride == 0
            &&& pn.tasks[r as int]->Some_0.inner.priority == crate::task::DEFAULT_PRIORITY
            &&& pn == (ProcessControlBlock { tasks: pn.tasks, ..po })
            &&& final(k).ready@ == old(k).ready@.push(
                ReadyEntry { pid: cur_ref(*old(k)).pid, tid: r as usize, stride: 0 },
            )
            &&& final(k).running == old(k).running
            &&& final(k).sleepers == old(k).sleepers
            &&& arenas_unchanged(*old(k), *final(k))
            &&& final(k).clock_ms == old(k).clock_ms
        },
{
    let rf = match &k.running {
        Some(rf) => *rf,
        None => unreached(),
    };
    let ghost a = *k;
    proof {
        assert(proc_wf(
            proc_at(a, rf.pid as int),
            rf.pid as int,
            a.procs.len() as int,
            a.mutexes.len() as int,
            a.semaphores.len() as int,
            a.condvars.len() as int,
        ));
    }
    let (free, nm, ns) = {
        let p = proc_ref(&k.procs, rf.pid);
        let mut fr: Option<usize> = None;
        let mut i: usize = 0;
        while i < p.tasks.len()
            invariant
                i <= p.tasks.len(),
                match fr {
                    Some(f) => f < p.tasks.len() && p.tasks[f as int] is None && forall|j: int|
                        0 <= j < f ==> #[trigger] p.tasks[j] is Some,
                    None => forall|j: int| 0 <= j < i ==> #[trigger] p.tasks[j] is Some,
                },
            decreases p.tasks.len() - i,
        {
            if fr.is_none() && p.tasks[i].is_none() {
                fr = Some(i);
            }
            i += 1;
        }
        if fr.is_none() && p.tasks.len() >= MAX_TASKS {
            return -1;
        }
        (fr, p.mutex_list.len(), p.semaphore_list.len())
    };
    let tid: usize;
    {
        let p = proc_mut(&mut k.procs, rf.pid);
        match free {
            Some(f) => {
                let t = TaskControlBlock::new(rf.pid, nm, ns);
                p.tasks[f] = Some(t);
                tid = f;
            },
            None => {
                let t = TaskControlBlock::new(rf.pid, nm, ns);
                tid = p.tasks.len();
                p.tasks.push(Some(t));
            },
        }
    }
    proof {
        lemma_kwf_after_proc_update(a, *k, rf.pid as int);
    }
    enqueue_ready(k, TaskRef { pid: rf.pid, tid });
    tid as isize
}

/// Total units of mutex slot `i` held across a task table.
pub open spec fn sum_mutex_alloc(tasks: Seq<Option<TaskControlBlock>>, i: int) -> int
    decreases tasks.len(),
{
    if tasks.len() == 0 {
        0
    } else {
        (if tasks.last() is Some && 0 <= i < tasks.last()->Some_0.inner.mutex_alloc.len() {
            tasks.last()->Some_0.inner.mutex_alloc[i] as int
        } else {
            0
        }) + sum_mutex_alloc(tasks.drop_last(), i)
    }
}

/// The conservation law of one live mutex slot: the available unit and the
/// units held across the tasks total exactly one.
pub open spec fn mutex_conservation(p: ProcessControlBlock, i: int) -> bool {
    &&& 0 <= i < p.mutex_res.len()
    &&& p.mutex_res[i] + sum_mutex_alloc(p.tasks@, i) == 1
}

proof fn lemma_sum_alloc_same(
    t1: Seq<Option<TaskControlBlock>>,
    t2: Seq<Option<TaskControlBlock>>,
    i: int,
)
    requires
        t1.len() == t2.len(),
        forall|x: int| 0 <= x < t1.len() ==> (t1[x] is Some <==> #[trigger] t2[x] is Some),
        forall|x: int|
            0 <= x < t1.len() && t1[x] is Some ==> #[trigger] t2[x]->Some_0.inner.mutex_alloc
                == t1[x]->Some_0.inner.mutex_alloc,
    ensures
        sum_mutex_alloc(t1, i) == sum_mutex_alloc(t2, i),
    decreases t1.len(),
{
    if t1.len() > 0 {
        assert(forall|x: int| 0 <= x < t1.len() - 1 ==> #[trigger] t1.drop_last()[x] == t1[x]);
        assert(forall|x: int| 0 <= x < t2.len() - 1 ==> #[trigger] t2.drop_last()[x] == t2[x]);
        lemma_sum_alloc_same(t1.drop_last(), t2.drop_last(), i);
    }
}

proof fn lemma_sum_alloc_zero(tasks: Seq<Option<TaskControlBlock>>, i: int)
    requires
        forall|x: int|
            0 <= x < tasks.len() && #[trigger] tasks[x] is Some && 0 <= i
                < tasks[x]->Some_0.inner.mutex_alloc.len()
                ==> tasks[x]->Some_0.inner.mutex_alloc[i] == 0,
    ensures
        sum_mutex_alloc(tasks, i) == 0,
    decreases tasks.len(),
{
    if tasks.len() > 0 {
        assert(forall|x: int|
            0 <= x < tasks.len() - 1 ==> #[trigger] tasks.drop_last()[x] == tasks[x]);
        lemma_sum_alloc_zero(tasks.drop_last(), i);
    }
}

/// The law a fresh slot starts from: a mutex created while detection is on
/// credits its slot with one available unit while no task holds any, so the
/// slot's conservation sum is one from the start.
pub proof fn lemma_create_establishes_conservation(p: ProcessControlBlock, i: int)
    requires
        0 <= i < p.mutex_res.len(),
        p.mutex_res[i] == 1,
        forall|x: int|
            0 <= x < p.tasks.len() && #[trigger] p.tasks[x] is Some && 0 <= i
                < p.tasks[x]->Some_0.inner.mutex_alloc.len()
                ==> p.tasks[x]->Some_0.inner.mutex_alloc[i] == 0,
    ensures
        mutex_conservation(p, i),
{
    lemma_sum_alloc_zero(p.tasks@, i);
}

/// The law a refusal keeps: the safety check's refusal leaves the caller's
/// tentative need up but moves no allocation and no available unit, so any
/// mutex slot whose available unit and held units totalled one before the
/// refused acquisition still totals one after it.
pub proof fn lemma_refusal_preserves_conservation(a: Kernel, b: Kernel, id: int, slot: int)
    requires
        a.running is Some,
        ref_ok(a, cur_ref(a)),
        lock_need_rel(a, b, id),
        mutex_conservation(cur_proc(a), slot),
    ensures
        mutex_conservation(cur_proc(b), slot),
{
    if cur_proc(a).open_detect {
        lemma_sum_alloc_same(cur_proc(a).tasks@, cur_proc(b).tasks@, slot);
    }
}

/// Replaces the calling process's address space with a freshly loaded
/// image and resets the primary task's saved registers; the resource
/// tables, the process id and the parent linkage are untouched.  The
/// loader that turns a program name into an image stays outside this
/// crate and hands in the image's heap bottom, or nothing when no program
/// of that name exists — which is refused with `-1` and no change.
#[verifier::rlimit(100)]
#[verifier::spinoff_prover]
pub fn sys_exec(k: &mut Kernel, image: Option<usize>) -> (r: isize)
    requires
        kwf(*old(k)),
        old(k).running is Some,
        old(k).next_token < usize::MAX,
    ensures
        kwf(*final(k)),
        image is None ==> r == -1 && *final(k) == *old(k),
        image is Some ==> {
            let hb = image->Some_0;
            &&& r == 0
            &&& procs_same_except(*old(k), *final(k), cur_ref(*old(k)).pid as int)
            &&& cur_proc(*final(k)) == (ProcessControlBlock {
                memory_set: cur_proc(*final(k)).memory_set,
                token: old(k).next_token,
                tasks: cur_proc(*final(k)).tasks,
                ..cur_proc(*old(k))
            })
            &&& cur_proc(*final(k)).memory_set.areas@ == Seq::<crate::mem::MapArea>::empty()
            &&& cur_proc(*final(k)).memory_set.heap_bottom == hb
            &&& cur_proc(*final(k)).memory_set.program_brk == hb
            &&& cur_proc(*final(k)).tasks.len() == cur_proc(*old(k)).tasks.len()
            &&& (forall|x: int|
                0 <= x < cur_proc(*old(k)).tasks.len() && x != cur_ref(*old(k)).tid as int
                    ==> cur_proc(*final(k)).tasks[x] == #[trigger] cur_proc(*old(k)).tasks[x])
            &&& cur_proc(*final(k)).tasks[cur_ref(*old(k)).tid as int] is Some
            &&& cur_task(*final(k)) == (TaskControlBlock {
                inner: crate::task::TaskControlBlockInner {
                    trap_cx: (TrapContext { a0: 0 }),
                    ..cur_task(*old(k)).inner
                },
                ..cur_task(*old(k))
            })
            &&& final(k).running == old(k).running
            &&& final(k).ready == old(k).ready
            &&& final(k).sleepers == old(k).sleepers
            &&& final(k).clock_ms == old(k).clock_ms
            &&& arenas_unchanged(*old(k), *final(k))
            &&& final(k).next_token == old(k).next_token + 1
        },
{
    let hb = match image {
        Some(hb) => hb,
        None => {
            return -1;
        },
    };
    let rf = match &k.running {
        Some(rf) => *rf,
        None => unreached(),
    };
    let ghost a = *k;
    proof {
        assert(proc_wf(
            proc_at(a, rf.pid as int),
            rf.pid as int,
            a.procs.len() as int,
            a.mutexes.len() as int,
            a.semaphores.len() as int,
            a.condvars.len() as int,
        ));
    }
    let tok = k.next_token;
    k.next_token = tok + 1;
    let p = proc_mut(&mut k.procs, rf.pid);
    p.memory_set = MemorySet::new(hb);
    p.token = tok;
    let t = task_mut(&mut p.tasks, rf.tid);
    t.inner.trap_cx = TrapContext { a0: 0 };
    proof {
        let pa = proc_at(a, rf.pid as int);
        let pb = proc_at(*k, rf.pid as int);
        let pm = (ProcessControlBlock { memory_set: pb.memory_set, token: pb.token, ..pa });
        assert(proc_wf(
            pm,
            rf.pid as int,
            a.procs.len() as int,
            a.mutexes.len() as int,
            a.semaphores.len() as int,
            a.condvars.len() as int,
        ));
        crate::process::lemma_proc_wf_task_update(
            pm,
            pb,
            rf.tid as int,
            rf.pid as int,
            a.procs.len() as int,
            a.mutexes.len() as int,
            a.semaphores.len() as int,
            a.condvars.len() as int,
        );
        lemma_kwf_after_proc_update(a, *k, rf.pid as int);
    }
    0
}

/// The slot `id` of the calling process's condvar table is occupied.
pub open spec fn cond_slot_live(k: Kernel, id: int) -> bool {
    &&& 0 <= id < cur_proc(k).condvar_list.len()
    &&& cur_proc(k).condvar_list[id] is Some
}

/// A wait's parking step: after releasing its mutex the caller joins the
/// condition variable's wait queue — remembering which mutex to hold again
/// before its wait returns — and blocks, leaving the CPU momentarily idle.
pub open spec fn cond_block_rel(b: Kernel, mid: Kernel, cid: int, marena: int) -> bool {
    let arena = cur_proc(b).condvar_list[cid]->Some_0 as int;
    &&& only_task_changed(b, mid, cur_ref(b))
    &&& task_at(mid, cur_ref(b)).inner == (crate::task::TaskControlBlockInner {
        task_status: TaskStatus::Blocked,
        ..cur_task(b).inner
    })
    &&& mid.condvars.len() == b.condvars.len()
    &&& forall|m: int|
        0 <= m < b.condvars.len() && m != arena ==> #[trigger] mid.condvars[m] == b.condvars[m]
    &&& mid.condvars[arena].waiters@ == b.condvars[arena].waiters@.push(
        (crate::sync::CondWaiter { task: cur_ref(b), mutex_arena: marena as usize }),
    )
    &&& mid.mutexes == b.mutexes
    &&& mid.semaphores == b.semaphores
    &&& mid.ready == b.ready
    &&& mid.sleepers == b.sleepers
    &&& mid.running is None
    &&& mid.clock_ms == b.clock_ms
}

/// Atomically releases the given mutex slot and suspends the caller on the
/// condition variable until a signal, after which the caller must hold the
/// mutex again before its wait returns.  The release here is the mutex
/// hand-over alone — a wait moves no detector counters, as the acquisition
/// and release bookkeeping belongs to the lock and unlock calls.
#[verifier::rlimit(100)]
#[verifier::spinoff_prover]
pub fn sys_condvar_wait(k: &mut Kernel, condvar_id: usize, mutex_id: usize) -> (r: isize)
    requires
        kwf(*old(k)),
        old(k).running is Some,
        cond_slot_live(*old(k), condvar_id as int),
        mutex_slot_live(*old(k), mutex_id as int),
        old(k).mutexes[cur_proc(*old(k)).mutex_list[mutex_id as int]->Some_0 as int].locked,
    ensures
        kwf(*final(k)),
        r == 0,
        exists|mid1: Kernel, mid2: Kernel|
            #[trigger] unlock_wake_rel(*old(k), mid1, mutex_id as int) && #[trigger] cond_block_rel(
                mid1,
                mid2,
                condvar_id as int,
                cur_proc(*old(k)).mutex_list[mutex_id as int]->Some_0 as int,
            ) && fetch_rel(mid2, *final(k)),
{
    let rf = match &k.running {
        Some(rf) => *rf,
        None => unreached(),
    };
    let ghost a = *k;
    let (cond_arena, mutex_arena) = {
        let p = proc_ref(&k.procs, rf.pid);
        let ca = match p.condvar_list[condvar_id] {
            Some(c) => c,
            None => unreached(),
        };
        let ma = match p.mutex_list[mutex_id] {
            Some(m) => m,
            None => unreached(),
        };
        (ca, ma)
    };
    proof {
        assert(proc_wf(
            proc_at(a, rf.pid as int),
            rf.pid as int,
            a.procs.len() as int,
            a.mutexes.len() as int,
            a.semaphores.len() as int,
            a.condvars.len() as int,
        ));
    }
    mutex_handover(k, mutex_id);
    let ghost mid1 = *k;
    proof {
        assert(proc_wf(
            proc_at(mid1, rf.pid as int),
            rf.pid as int,
            mid1.procs.len() as int,
            mid1.mutexes.len() as int,
            mid1.semaphores.len() as int,
            mid1.condvars.len() as int,
        ));
    }
    {
        let c = &mut k.condvars[cond_arena];
        c.waiters.push(crate::sync::CondWaiter { task: rf, mutex_arena });
    }
    proof {
        assert forall|m: int, w: int|
            0 <= m < k.condvars.len() && 0 <= w < k.condvars[m].waiters.len() implies ref_ok(
            mid1,
            (#[trigger] k.condvars[m].waiters[w]).task,
        ) && k.condvars[m].waiters[w].mutex_arena < k.mutexes.len() by {
            if m != cond_arena as int || w < mid1.condvars[cond_arena as int].waiters.len() {
                assert(k.condvars[m].waiters[w] == mid1.condvars[m].waiters[w]);
            } else {
                assert(k.condvars[m].waiters[w].task == rf);
            }
        }
        lemma_kwf_after_arena_update(mid1, *k);
    }
    let ghost c1 = *k;
    {
        let p = proc_mut(&mut k.procs, rf.pid);
        let t = task_mut(&mut p.tasks, rf.tid);
        t.inner.task_status = TaskStatus::Blocked;
    }
    k.running = None;
    proof {
        lemma_counters_ok_of(c1, rf);
        assert(only_task_changed(c1, *k, rf));
        lemma_kwf_after_task_update(c1, *k, rf);
    }
    let ghost mid2 = *k;
    fetch(k);
    proof {
        assert(cond_block_rel(mid1, mid2, condvar_id as int, mutex_arena as int));
        assert(unlock_wake_rel(a, mid1, mutex_id as int) && cond_block_rel(
            mid1,
            mid2,
            condvar_id as int,
            cur_proc(a).mutex_list[mutex_id as int]->Some_0 as int,
        ) && fetch_rel(mid2, *final(k)));
    }
    0
}

/// What a signal does: with no waiter, nothing; otherwise the head waiter
/// leaves the queue and tries to hold its mutex again — taking it at once
/// when it is open and turning Ready, or joining that mutex's wait queue,
/// still Blocked, when it is held.  Either way no detector counter moves.
pub open spec fn signal_rel(b: Kernel, c: Kernel, cid: int) -> bool {
    let arena = cur_proc(b).condvar_list[cid]->Some_0 as int;
    if b.condvars[arena].waiters.len() == 0 {
        c == b
    } else {
        let w = b.condvars[arena].waiters[0];
        let ma = w.mutex_arena as int;
        &&& c.condvars.len() == b.condvars.len()
        &&& forall|m: int|
            0 <= m < b.condvars.len() && m != arena ==> #[trigger] c.condvars[m] == b.condvars[m]
        &&& c.condvars[arena].waiters@ == b.condvars[arena].waiters@.drop_first()
        &&& c.semaphores == b.semaphores
        &&& c.sleepers == b.sleepers
        &&& c.running == b.running
        &&& c.clock_ms == b.clock_ms
        &&& if !b.mutexes[ma].locked {
            &&& c.mutexes.len() == b.mutexes.len()
            &&& forall|m: int|
                0 <= m < b.mutexes.len() && m != ma ==> #[trigger] c.mutexes[m] == b.mutexes[m]
            &&& c.mutexes[ma].locked
            &&& c.mutexes[ma].blocking == b.mutexes[ma].blocking
            &&& c.mutexes[ma].waiters == b.mutexes[ma].waiters
            &&& only_task_changed(b, c, w.task)
            &&& task_at(c, w.task).inner == (crate::task::TaskControlBlockInner {
                task_status: TaskStatus::Ready,
                ..task_at(b, w.task).inner
            })
            &&& c.ready@ == b.ready@.push(
                ReadyEntry {
                    pid: w.task.pid,
                    tid: w.task.tid,
                    stride: task_at(b, w.task).inner.stride,
                },
            )
        } else {
            &&& c.procs == b.procs
            &&& c.ready == b.ready
            &&& c.mutexes.len() == b.mutexes.len()
            &&& forall|m: int|
                0 <= m < b.mutexes.len() && m != ma ==> #[trigger] c.mutexes[m] == b.mutexes[m]
            &&& c.mutexes[ma].locked == b.mutexes[ma].locked
            &&& c.mutexes[ma].blocking == b.mutexes[ma].blocking
            &&& c.mutexes[ma].waiters@ == b.mutexes[ma].waiters@.push(
                (crate::sync::QueuedWaiter { task: w.task, slot: usize::MAX }),
            )
        }
    }
}

/// Wakes at most one waiter of a condition-variable slot: the head waiter,
/// if any, reacquires its remembered mutex — immediately when open, else by
/// joining that mutex's wait queue.
#[verifier::rlimit(100)]
#[verifier::spinoff_prover]
pub fn sys_condvar_signal(k: &mut Kernel, condvar_id: usize) -> (r: isize)
    requires
        kwf(*old(k)),
        old(k).running is Some,
        cond_slot_live(*old(k), condvar_id as int),
    ensures
        kwf(*final(k)),
        r == 0,
        signal_rel(*old(k), *final(k), condvar_id as int),
{
    let rf = match &k.running {
        Some(rf) => *rf,
        None => unreached(),
    };
    let ghost a = *k;
    let arena = {
        let p = proc_ref(&k.procs, rf.pid);
        match p.condvar_list[condvar_id] {
            Some(c) => c,
            None => unreached(),
        }
    };
    proof {
        assert(proc_wf(
            proc_at(a, rf.pid as int),
            rf.pid as int,
            a.procs.len() as int,
            a.mutexes.len() as int,
            a.semaphores.len() as int,
            a.condvars.len() as int,
        ));
    }
    if k.condvars[arena].waiters.len() == 0 {
        return 0;
    }
    let w = {
        let c = &mut k.condvars[arena];
        c.waiters.remove(0)
    };
    proof {
        assert forall|m: int, x: int|
            0 <= m < k.condvars.len() && 0 <= x < k.condvars[m].waiters.len() implies ref_ok(
            a,
            (#[trigger] k.condvars[m].waiters[x]).task,
        ) && k.condvars[m].waiters[x].mutex_arena < k.mutexes.len() by {
            if m == arena as int {
                assert(k.condvars[m].waiters[x] == a.condvars[m].waiters[x + 1]);
            }
        }
        lemma_kwf_after_arena_update(a, *k);
        assert(ref_ok(a, w.task));
        assert(w == a.condvars[arena as int].waiters[0]);
    }
    let ghost b1 = *k;
    let ma = w.mutex_arena;
    if !k.mutexes[ma].locked {
        {
            let m = &mut k.mutexes[ma];
            m.locked = true;
        }
        proof {
            lemma_kwf_after_arena_update(b1, *k);
        }
        let ghost b2 = *k;
        {
            let p = proc_mut(&mut k.procs, w.task.pid);
            let t = task_mut(&mut p.tasks, w.task.tid);
            t.inner.task_status = TaskStatus::Ready;
        }
        proof {
            lemma_counters_ok_of(b2, w.task);
            assert(only_task_changed(b2, *k, w.task));
            lemma_kwf_after_task_update(b2, *k, w.task);
        }
        enqueue_ready(k, w.task);
        proof {
            assert(signal_rel(a, *final(k), condvar_id as int));
        }
    } else {
        {
            let m = &mut k.mutexes[ma];
            m.waiters.push(crate::sync::QueuedWaiter { task: w.task, slot: usize::MAX });
        }
        proof {
            assert forall|m: int, x: int|
                0 <= m < k.mutexes.len() && 0 <= x < k.mutexes[m].waiters.len() implies ref_ok(
                b1,
                (#[trigger] k.mutexes[m].waiters[x]).task,
            ) by {
                if m != ma as int || x < b1.mutexes[ma as int].waiters.len() {
                    assert(k.mutexes[m].waiters[x] == b1.mutexes[m].waiters[x]);
                } else {
                    assert(k.mutexes[m].waiters[x].task == w.task);
                }
            }
            lemma_kwf_after_arena_update(b1, *k);
            assert(signal_rel(a, *final(k), condvar_id as int));
        }
    }
    0
}

/// Splits a microsecond reading into the second/microsecond pair the clock
/// syscall reports; the monotonic clock itself ticks outside this crate.
pub fn time_val_from_us(us: usize) -> (r: TimeVal)
    ensures
        r.sec == us / 1_000_000,
        r.usec == us % 1_000_000,
{
    TimeVal { sec: us / 1_000_000, usec: us % 1_000_000 }
}

/// What the task-information syscall reports of the calling task: its
/// status, its per-syscall invocation counts, and its run time.  Copying
/// the report into the caller's buffer is the dispatcher's business.
pub fn sys_task_info(k: &Kernel) -> (r: TaskInfo)
    requires
        kwf(*k),
        k.running is Some,
    ensures
        r.status == cur_task(*k).inner.task_status,
        r.syscall_times@ == cur_task(*k).inner.syscall_times@,
        r.time == cur_task(*k).inner.time,
{
    let rf = match &k.running {
        Some(rf) => *rf,
        None => unreached(),
    };
    let p = proc_ref(&k.procs, rf.pid);
    let t = task_ref(&p.tasks, rf.tid);
    let mut times: Vec<u32> = Vec::new();
    let mut i: usize = 0;
    while i < t.inner.syscall_times.len()
        invariant
            i <= t.inner.syscall_times.len(),
            times@ == t.inner.syscall_times@.take(i as int),
        decreases t.inner.syscall_times.len() - i,
    {
        times.push(t.inner.syscall_times[i]);
        proof {
            assert(times@ =~= t.inner.syscall_times@.take(i + 1));
        }
        i += 1;
    }
    proof {
        assert(times@ =~= t.inner.syscall_times@);
    }
    TaskInfo { status: t.inner.get_status(), syscall_times: times, time: t.inner.time }
}

/// An exact copy of a region vector.
fn copy_areas(v: &Vec<crate::mem::MapArea>) -> (r: Vec<crate::mem::MapArea>)
    ensures
        r@ == v@,
{
    let mut r: Vec<crate::mem::MapArea> = Vec::new();
    let mut i: usize = 0;
    while i < v.len()
        invariant
            i <= v.len(),
            r@ == v@.take(i as int),
        decreases v.len() - i,
    {
        r.push(v[i]);
        proof {
            assert(r@ =~= v@.take(i + 1));
        }
        i += 1;
    }
    proof {
        assert(r@ =~= v@);
    }
    r
}

/// An exact copy of a slot table.
fn copy_slots(v: &Vec<Option<usize>>) -> (r: Vec<Option<usize>>)
    ensures
        r@ == v@,
{
    let mut r: Vec<Option<usize>> = Vec::new();
    let mut i: usize = 0;
    while i < v.len()
        invariant
            i <= v.len(),
            r@ == v@.take(i as int),
        decreases v.len() - i,
    {
        r.push(v[i]);
        proof {
            assert(r@ =~= v@.take(i + 1));
        }
        i += 1;
    }
    proof {
        assert(r@ =~= v@);
    }
    r
}

/// An exact copy of a counter vector.
fn copy_i64s(v: &Vec<i64>) -> (r: Vec<i64>)
    ensures
        r@ == v@,
{
    let mut r: Vec<i64> = Vec::new();
    let mut i: usize = 0;
    while i < v.len()
        invariant
            i <= v.len(),
            r@ == v@.take(i as int),
        decreases v.len() - i,
    {
        r.push(v[i]);
        proof {
            assert(r@ =~= v@.take(i + 1));
        }
        i += 1;
    }
    proof {
        assert(r@ =~= v@);
    }
    r
}

/// What registering a child process leaves behind: a fresh process in the
/// lowest empty arena slot (or one appended), owning the handed-in address
/// space under a fresh translation handle, sharing the parent's
/// resource-table slot indices and detection state, with one Ready task
/// whose saved return-value register is zero; the child is recorded in the
/// parent's children and its task joins the ready queue's tail.
pub open spec fn child_created_rel(a: Kernel, b: Kernel, c: int, ms: MemorySet) -> bool {
    let po = cur_proc(a);
    let pn = proc_at(b, cur_ref(a).pid as int);
    let ch = proc_at(b, c);
    &&& 0 < c < b.procs.len()
    &&& (c < a.procs.len() ==> b.procs.len() == a.procs.len() && a.procs@[c] is None && (forall|
        j: int,
    | 0 <= j < c ==> #[trigger] a.procs@[j] is Some))
    &&& (c >= a.procs.len() ==> c == a.procs.len() && b.procs.len() == a.procs.len() + 1 && (forall|
        j: int,
    | 0 <= j < a.procs.len() ==> #[trigger] a.procs@[j] is Some))
    &&& (forall|q: int|
        0 <= q < a.procs.len() && q != cur_ref(a).pid as int && q != c ==> a.procs@[q]
            == #[trigger] b.procs@[q])
    &&& b.procs@[c] is Some
    &&& ch.pid == c
    &&& ch.parent == Some(cur_ref(a).pid)
    &&& ch.children@ == Seq::<usize>::empty()
    &&& !ch.zombie
    &&& ch.exit_code == 0
    &&& ch.memory_set.areas@ == ms.areas@
    &&& ch.memory_set.heap_bottom == ms.heap_bottom
    &&& ch.memory_set.program_brk == ms.program_brk
    &&& ch.token == a.next_token
    &&& ch.mutex_list@ == po.mutex_list@
    &&& ch.semaphore_list@ == po.semaphore_list@
    &&& ch.condvar_list@ == po.condvar_list@
    &&& ch.mutex_res@ == po.mutex_res@
    &&& ch.semaphore_res@ == po.semaphore_res@
    &&& ch.open_detect == po.open_detect
    &&& ch.tasks.len() == 1
    &&& ch.tasks@[0] is Some
    &&& ch.tasks@[0]->Some_0.process == c
    &&& ch.tasks@[0]->Some_0.inner.trap_cx == (TrapContext { a0: 0 })
    &&& ch.tasks@[0]->Some_0.inner.task_status == TaskStatus::Ready
    &&& ch.tasks@[0]->Some_0.inner.exit_code == None::<i32>
    &&& ch.tasks@[0]->Some_0.inner.stride == 0
    &&& ch.tasks@[0]->Some_0.inner.priority == crate::task::DEFAULT_PRIORITY
    &&& ch.tasks@[0]->Some_0.inner.mutex_alloc@ == Seq::new(
        po.mutex_list@.len(),
        |i: int| 0i64,
    )
    &&& ch.tasks@[0]->Some_0.inner.mutex_need@ == Seq::new(po.mutex_list@.len(), |i: int| 0i64)
    &&& ch.tasks@[0]->Some_0.inner.semaphore_alloc@ == Seq::new(
        po.semaphore_list@.len(),
        |i: int| 0i64,
    )
    &&& ch.tasks@[0]->Some_0.inner.semaphore_need@ == Seq::new(
        po.semaphore_list@.len(),
        |i: int| 0i64,
    )
    &&& cur_ref(a).pid < b.procs.len()
    &&& b.procs@[cur_ref(a).pid as int] is Some
    &&& pn == (ProcessControlBlock { children: pn.children, ..po })
    &&& pn.children@ == po.children@.push(c as usize)
    &&& b.ready@ == a.ready@.push(ReadyEntry { pid: c as usize, tid: 0, stride: 0 })
    &&& b.running == a.running
    &&& b.sleepers == a.sleepers
    &&& b.clock_ms == a.clock_ms
    &&& arenas_unchanged(a, b)
    &&& b.next_token == a.next_token + 1
}

/// Registers a child of the calling process around the given address space;
/// the shared machinery of process creation.
#[verifier::rlimit(100)]
#[verifier::spinoff_prover]
fn create_child(k: &mut Kernel, ms: MemorySet) -> (r: isize)
    requires
        kwf(*old(k)),
        old(k).running is Some,
        ms_wf(ms),
        old(k).next_token < usize::MAX,
    ensures
        kwf(*final(k)),
        r == -1 ==> *final(k) == *old(k),
        r == -1 <==> old(k).procs.len() >= MAX_PROCS && (forall|j: int|
            0 <= j < old(k).procs.len() ==> #[trigger] old(k).procs@[j] is Some),
        r != -1 ==> child_created_rel(*old(k), *final(k), r as int, ms),
{
    let rf = match &k.running {
        Some(rf) => *rf,
        None => unreached(),
    };
    let ghost a = *k;
    let mut free: Option<usize> = None;
    let mut i: usize = 0;
    while i < k.procs.len()
        invariant
            i <= k.procs.len(),
            *k == a,
            match free {
                Some(f) => f < k.procs.len() && k.procs@[f as int] is None && forall|j: int|
                    0 <= j < f ==> #[trigger] k.procs@[j] is Some,
                None => forall|j: int| 0 <= j < i ==> #[trigger] k.procs@[j] is Some,
            },
        decreases k.procs.len() - i,
    {
        if free.is_none() && k.procs[i].is_none() {
            free = Some(i);
        }
        i += 1;
    }
    if free.is_none() && k.procs.len() >= MAX_PROCS {
        return -1;
    }
    proof {
        assert(proc_wf(
            proc_at(a, rf.pid as int),
            rf.pid as int,
            a.procs.len() as int,
            a.mutexes.len() as int,
            a.semaphores.len() as int,
            a.condvars.len() as int,
        ));
    }
    let tok = k.next_token;
    k.next_token = tok + 1;
    let (ml, sl, cl, mr, sr, od) = {
        let p = proc_ref(&k.procs, rf.pid);
        (
            copy_slots(&p.mutex_list),
            copy_slots(&p.semaphore_list),
            copy_slots(&p.condvar_list),
            copy_i64s(&p.mutex_res),
            copy_i64s(&p.semaphore_res),
            p.open_detect,
        )
    };
    let new_pid = match free {
        Some(f) => f,
        None => k.procs.len(),
    };
    let hb = ms.heap_bottom;
    let ghost msg = ms;
    let mut child = ProcessControlBlock::new(new_pid, Some(rf.pid), tok, hb);
    child.memory_set = ms;
    child.mutex_list = ml;
    child.semaphore_list = sl;
    child.condvar_list = cl;
    child.mutex_res = mr;
    child.semaphore_res = sr;
    child.open_detect = od;
    let nm = child.mutex_list.len();
    let ns = child.semaphore_list.len();
    let t = TaskControlBlock::new(new_pid, nm, ns);
    child.tasks.push(Some(t));
    proof {
        assert(a.procs@[0] is Some);
        assert(new_pid != 0);
        assert(new_pid != rf.pid);
    }
    match free {
        Some(f) => {
            k.procs[f] = Some(child);
        },
        None => {
            k.procs.push(Some(child));
        },
    }
    {
        let p = proc_mut(&mut k.procs, rf.pid);
        p.children.push(new_pid);
    }
    proof {
        let b = *k;
        let np = new_pid as int;
        let pp = rf.pid as int;
        assert(b.procs@[np] is Some);
        assert(b.procs@[pp] is Some);
        assert forall|p: int|
            0 <= p < b.procs.len() && #[trigger] b.procs@[p] is Some implies proc_wf(
            b.procs@[p]->Some_0,
            p,
            b.procs.len() as int,
            b.mutexes.len() as int,
            b.semaphores.len() as int,
            b.condvars.len() as int,
        ) by {
            if p == np {
                let ch = b.procs@[p]->Some_0;
                assert(ch.tasks@[0] is Some);
                assert(ch.tasks.len() == 1);
                assert(crate::process::counters_bounded(ch)) by {
                    assert(crate::process::counters_bounded(proc_at(a, pp)));
                }
                if ch.open_detect {
                    assert(detect_vectors_ok(proc_at(a, pp)));
                    assert(detect_vectors_ok(ch));
                }
            } else if p == pp {
                let pn = b.procs@[p]->Some_0;
                let po = proc_at(a, pp);
                assert forall|c: int| 0 <= c < pn.children.len() implies 0 < #[trigger] pn.children[c]
                    < b.procs.len() by {
                    if c < po.children.len() {
                        assert(pn.children[c] == po.children[c]);
                    } else {
                        assert(pn.children[c] == new_pid);
                    }
                }
                assert(proc_wf(
                    (ProcessControlBlock { children: pn.children, ..po }),
                    pp,
                    b.procs.len() as int,
                    b.mutexes.len() as int,
                    b.semaphores.len() as int,
                    b.condvars.len() as int,
                ));
            } else {
                assert(b.procs@[p] == a.procs@[p]);
                assert(proc_wf(
                    a.procs@[p]->Some_0,
                    p,
                    a.procs.len() as int,
                    a.mutexes.len() as int,
                    a.semaphores.len() as int,
                    a.condvars.len() as int,
                ));
            }
        }
        assert forall|p1: int, i1: int, p2: int, i2: int|
            0 <= p1 < b.procs.len() && b.procs@[p1] is Some && 0 <= i1 < b.procs@[p1]->Some_0.children.len()
                && 0 <= p2 < b.procs.len() && b.procs@[p2] is Some && 0 <= i2
                < b.procs@[p2]->Some_0.children.len() && (p1 != p2 || i1 != i2)
                implies #[trigger] b.procs@[p1]->Some_0.children[i1]
                != #[trigger] b.procs@[p2]->Some_0.children[i2] by {
            if p1 == pp && i1 == proc_at(a, pp).children.len() {
                assert(b.procs@[p1]->Some_0.children[i1] == new_pid);
                assert(a.procs@[p2] is Some && b.procs@[p2]->Some_0.children[i2] == a.procs@[p2]->Some_0.children[i2]);
                assert(a.procs@[a.procs@[p2]->Some_0.children[i2] as int] is Some);
            } else if p2 == pp && i2 == proc_at(a, pp).children.len() {
                assert(b.procs@[p2]->Some_0.children[i2] == new_pid);
                assert(a.procs@[p1] is Some && b.procs@[p1]->Some_0.children[i1] == a.procs@[p1]->Some_0.children[i1]);
                assert(a.procs@[a.procs@[p1]->Some_0.children[i1] as int] is Some);
            } else {
                assert(a.procs@[p1] is Some && b.procs@[p1]->Some_0.children[i1] == a.procs@[p1]->Some_0.children[i1]);
                assert(a.procs@[p2] is Some && b.procs@[p2]->Some_0.children[i2] == a.procs@[p2]->Some_0.children[i2]);
            }
        }
        assert forall|p: int, i: int|
            0 <= p < b.procs.len() && b.procs@[p] is Some && 0 <= i < b.procs@[p]->Some_0.children.len()
                implies b.procs@[#[trigger] b.procs@[p]->Some_0.children[i] as int] is Some by {
            if p == pp && i == proc_at(a, pp).children.len() {
                assert(b.procs@[p]->Some_0.children[i] == new_pid);
            } else {
                assert(a.procs@[p] is Some && b.procs@[p]->Some_0.children[i] == a.procs@[p]->Some_0.children[i]);
                assert(a.procs@[a.procs@[p]->Some_0.children[i] as int] is Some);
            }
        }
        assert forall|x: int| 0 <= x < b.ready.len() implies ref_ok(
            b,
            (#[trigger] b.ready[x]).to_ref(),
        ) by {
            assert(ref_ok(a, b.ready[x].to_ref()));
        }
        assert forall|x: int| 0 <= x < b.sleepers.len() implies ref_ok(
            b,
            (#[trigger] b.sleepers[x]).task,
        ) by {
            assert(ref_ok(a, b.sleepers[x].task));
        }
        if b.running is Some {
            assert(ref_ok(a, b.running->Some_0));
        }
        assert forall|m: int, w: int|
            0 <= m < b.mutexes.len() && 0 <= w < b.mutexes[m].waiters.len() implies ref_ok(
            b,
            (#[trigger] b.mutexes[m].waiters[w]).task,
        ) by {
            assert(ref_ok(a, b.mutexes[m].waiters[w].task));
        }
        assert forall|m: int, w: int|
            0 <= m < b.semaphores.len() && 0 <= w < b.semaphores[m].waiters.len() implies ref_ok(
            b,
            (#[trigger] b.semaphores[m].waiters[w]).task,
        ) by {
            assert(ref_ok(a, b.semaphores[m].waiters[w].task));
        }
        assert forall|m: int, w: int|
            0 <= m < b.condvars.len() && 0 <= w < b.condvars[m].waiters.len() implies ref_ok(
            b,
            (#[trigger] b.condvars[m].waiters[w]).task,
        ) && b.condvars[m].waiters[w].mutex_arena < b.mutexes.len() by {
            assert(ref_ok(a, b.condvars[m].waiters[w].task));
        }
        assert(kwf(b));
    }
    enqueue_ready(k, TaskRef { pid: new_pid, tid: 0 });
    proof {
        let b = *k;
        let np = new_pid as int;
        let po = cur_proc(a);
        let ch = proc_at(b, np);
        assert(ch.tasks@[0] is Some);
        assert(ch.tasks.len() == 1);
        assert(0 < np < b.procs.len());
        assert(forall|q: int|
            0 <= q < a.procs.len() && q != cur_ref(a).pid as int && q != np ==> a.procs@[q]
                == #[trigger] b.procs@[q]);
        assert(ch.memory_set.areas@ == msg.areas@);
        assert(ch.mutex_list@ == po.mutex_list@);
        assert(ch.tasks@[0]->Some_0.inner.mutex_alloc@ == Seq::new(
            po.mutex_list@.len(),
            |i: int| 0i64,
        ));
        assert(proc_at(b, cur_ref(a).pid as int) == (ProcessControlBlock {
            children: proc_at(b, cur_ref(a).pid as int).children,
            ..po
        }));
        assert(proc_at(b, cur_ref(a).pid as int).children@ == po.children@.push(new_pid));
        assert(b.ready@ == a.ready@.push(ReadyEntry { pid: new_pid, tid: 0, stride: 0 }));
        assert(child_created_rel(a, b, np, msg));
    }
    new_pid as isize
}

/// Clones the calling process: the child observes the same memory image
/// under a fresh translation handle, shares the parent's resource-table
/// slot indices — the handles behind them are reference-counted — and is
/// registered as a child; its one task starts Ready with a zero in the
/// return-value register, which is fork's defining asymmetry.  `-1` only
/// when the process arena is at the model's capacity.
pub fn sys_fork(k: &mut Kernel) -> (r: isize)
    requires
        kwf(*old(k)),
        old(k).running is Some,
        old(k).next_token < usize::MAX,
    ensures
        kwf(*final(k)),
        r == -1 ==> *final(k) == *old(k),
        r == -1 <==> old(k).procs.len() >= MAX_PROCS && (forall|j: int|
            0 <= j < old(k).procs.len() ==> #[trigger] old(k).procs@[j] is Some),
        r != -1 ==> child_created_rel(
            *old(k),
            *final(k),
            r as int,
            cur_proc(*old(k)).memory_set,
        ),
{
    let rf = match &k.running {
        Some(rf) => *rf,
        None => unreached(),
    };
    let ghost a = *k;
    let ms = {
        let p = proc_ref(&k.procs, rf.pid);
        MemorySet {
            areas: copy_areas(&p.memory_set.areas),
            heap_bottom: p.memory_set.heap_bottom,
            program_brk: p.memory_set.program_brk,
        }
    };
    proof {
        assert(proc_wf(
            proc_at(a, rf.pid as int),
            rf.pid as int,
            a.procs.len() as int,
            a.mutexes.len() as int,
            a.semaphores.len() as int,
            a.condvars.len() as int,
        ));
        assert(ms_wf(ms));
    }
    create_child(k, ms)
}

/// Constructs a brand-new child directly around a freshly loaded image — no
/// intermediate full copy of the caller's space — registers it and returns
/// its id; the loader stays outside this crate and hands in the image's
/// heap bottom, or nothing when no program of that name exists, which is
/// refused with `-1` and no change.
pub fn sys_spawn(k: &mut Kernel, image: Option<usize>) -> (r: isize)
    requires
        kwf(*old(k)),
        old(k).running is Some,
        old(k).next_token < usize::MAX,
    ensures
        kwf(*final(k)),
        image is None ==> r == -1 && *final(k) == *old(k),
        r == -1 ==> *final(k) == *old(k),
        image is Some ==> (r == -1 <==> old(k).procs.len() >= MAX_PROCS && (forall|j: int|
            0 <= j < old(k).procs.len() ==> #[trigger] old(k).procs@[j] is Some)),
        image is Some && r != -1 ==> exists|ms: MemorySet|
            #[trigger] child_created_rel(*old(k), *final(k), r as int, ms) && ms.areas@ == Seq::<
                crate::mem::MapArea,
            >::empty() && ms.heap_bottom == image->Some_0 && ms.program_brk == image->Some_0,
{
    let hb = match image {
        Some(hb) => hb,
        None => {
            return -1;
        },
    };
    let ms = MemorySet::new(hb);
    let ghost msg = ms;
    let r = create_child(k, ms);
    proof {
        if r != -1 {
            assert(child_created_rel(*old(k), *final(k), r as int, msg) && msg.areas@ == Seq::<
                crate::mem::MapArea,
            >::empty() && msg.heap_bottom == hb && msg.program_brk == hb);
        }
    }
    r
}

/// An exact copy of a child list.
fn copy_usizes(v: &Vec<usize>) -> (r: Vec<usize>)
    ensures
        r@ == v@,
{
    let mut r: Vec<usize> = Vec::new();
    let mut i: usize = 0;
    while i < v.len()
        invariant
            i <= v.len(),
            r@ == v@.take(i as int),
        decreases v.len() - i,
    {
        r.push(v[i]);
        proof {
            assert(r@ =~= v@.take(i + 1));
        }
        i += 1;
    }
    proof {
        assert(r@ =~= v@);
    }
    r
}

/// Whether a child's id answers a wait for `pid` (`-1` answers for any).
pub open spec fn child_matches(c: usize, pid: int) -> bool {
    pid == -1 || pid == c
}

/// The reap outcome of a successful wait: `idx` is the lowest-index
/// matching zombie among the caller's children; its id and exit code come
/// back, it leaves the children list, its arena slot empties, and nothing
/// else moves.
pub open spec fn waitpid_reaped_rel(
    a: Kernel,
    b: Kernel,
    pid: int,
    idx: int,
    r0: isize,
    r1: Option<i32>,
) -> bool {
    let ch = cur_proc(a).children@;
    &&& 0 <= idx < ch.len()
    &&& child_matches(ch[idx], pid)
    &&& proc_at(a, ch[idx] as int).zombie
    &&& (forall|j: int|
        0 <= j < idx ==> !(child_matches(#[trigger] ch[j], pid) && proc_at(
            a,
            ch[j] as int,
        ).zombie))
    &&& r0 == ch[idx] as isize
    &&& r1 == Some(proc_at(a, ch[idx] as int).exit_code)
    &&& b.procs.len() == a.procs.len()
    &&& b.procs@[ch[idx] as int] is None
    &&& b.procs@[cur_ref(a).pid as int] is Some
    &&& proc_at(b, cur_ref(a).pid as int) == (ProcessControlBlock {
        children: proc_at(b, cur_ref(a).pid as int).children,
        ..cur_proc(a)
    })
    &&& proc_at(b, cur_ref(a).pid as int).children@ == ch.remove(idx)
    &&& (forall|q: int|
        0 <= q < a.procs.len() && q != cur_ref(a).pid as int && q != ch[idx] as int ==> a.procs@[q]
            == #[trigger] b.procs@[q])
    &&& b.ready == a.ready
    &&& b.running == a.running
    &&& b.sleepers == a.sleepers
    &&& b.clock_ms == a.clock_ms
    &&& arenas_unchanged(a, b)
    &&& b.next_token == a.next_token
}

/// Looks among the caller's children for one matching `pid` (`-1` matches
/// any) that has exited.  Three outcomes: no child matches at all — `-1`
/// and no change; a match lives on — `-2` and no change, so the caller can
/// retry; else the lowest-index zombie match is reaped: its id and exit
/// code come back, it leaves the children list, and its arena slot empties.
/// Writing the code to the caller's buffer is the dispatcher's business.
#[verifier::rlimit(100)]
#[verifier::spinoff_prover]
pub fn sys_waitpid(k: &mut Kernel, pid: isize) -> (r: (isize, Option<i32>))
    requires
        kwf(*old(k)),
        old(k).running is Some,
    ensures
        kwf(*final(k)),
        ({
            let ch = cur_proc(*old(k)).children@;
            &&& (r.0 == -1 <==> (forall|i: int|
                0 <= i < ch.len() ==> !child_matches(#[trigger] ch[i], pid as int)))
            &&& (r.0 == -1 ==> *final(k) == *old(k) && r.1 is None)
            &&& (r.0 == -2 <==> (exists|i: int|
                0 <= i < ch.len() && child_matches(#[trigger] ch[i], pid as int)) && (forall|
                i: int,
            |
                0 <= i < ch.len() && child_matches(#[trigger] ch[i], pid as int) ==> !proc_at(
                    *old(k),
                    ch[i] as int,
                ).zombie))
            &&& (r.0 == -2 ==> *final(k) == *old(k) && r.1 is None)
            &&& (r.0 != -1 && r.0 != -2 ==> exists|idx: int|
                waitpid_reaped_rel(*old(k), *final(k), pid as int, idx, r.0, r.1))
        }),
{
    let rf = match &k.running {
        Some(rf) => *rf,
        None => unreached(),
    };
    let ghost a = *k;
    proof {
        assert(proc_wf(
            proc_at(a, rf.pid as int),
            rf.pid as int,
            a.procs.len() as int,
            a.mutexes.len() as int,
            a.semaphores.len() as int,
            a.condvars.len() as int,
        ));
    }
    let kids = {
        let p = proc_ref(&k.procs, rf.pid);
        copy_usizes(&p.children)
    };
    let mut has_match = false;
    let mut zidx: Option<usize> = None;
    let mut i: usize = 0;
    while i < kids.len()
        invariant
            i <= kids.len(),
            *k == a,
            kwf(a),
            a.running is Some,
            rf == cur_ref(a),
            kids@ == cur_proc(a).children@,
            rf.pid < a.procs.len(),
            a.procs@[rf.pid as int] is Some,
            forall|j: int|
                0 <= j < kids.len() ==> 0 < #[trigger] kids@[j] < a.procs.len() && a.procs@[kids@[j] as int] is Some,
            has_match == exists|j: int| 0 <= j < i && child_matches(#[trigger] kids@[j], pid as int),
            match zidx {
                Some(x) => x < i && child_matches(kids@[x as int], pid as int) && proc_at(
                    a,
                    kids@[x as int] as int,
                ).zombie && (forall|j: int|
                    0 <= j < x ==> !(child_matches(#[trigger] kids@[j], pid as int) && proc_at(
                        a,
                        kids@[j] as int,
                    ).zombie)),
                None => forall|j: int|
                    0 <= j < i ==> !(child_matches(#[trigger] kids@[j], pid as int) && proc_at(
                        a,
                        kids@[j] as int,
                    ).zombie),
            },
        decreases kids.len() - i,
    {
        let c = kids[i];
        let m = pid == -1 || pid == c as isize;
        proof {
            assert(m == child_matches(kids@[i as int], pid as int));
        }
        if m {
            has_match = true;
        }
        if zidx.is_none() && m {
            let z = {
                let p = proc_ref(&k.procs, c);
                p.is_zombie()
            };
            if z {
                zidx = Some(i);
            }
        }
        i += 1;
    }
    if !has_match {
        return (-1, None);
    }
    let idx = match zidx {
        Some(x) => x,
        None => {
            return (-2, None);
        },
    };
    let c = kids[idx];
    let code = {
        let p = proc_ref(&k.procs, c);
        p.exit_code
    };
    proof {
        assert(proc_wf(
            proc_at(a, c as int),
            c as int,
            a.procs.len() as int,
            a.mutexes.len() as int,
            a.semaphores.len() as int,
            a.condvars.len() as int,
        ));
        assert(proc_at(a, c as int).tasks.len() == 0);
        assert(c != rf.pid);
        assert(c != 0);
    }
    {
        let p = proc_mut(&mut k.procs, rf.pid);
        p.children.remove(idx);
    }
    k.procs[c] = None;
    proof {
        let b = *k;
        let pp = rf.pid as int;
        let kc = cur_proc(a).children@;
        assert(proc_at(b, pp).children@ == kc.remove(idx as int));
        assert forall|p: int|
            0 <= p < b.procs.len() && #[trigger] b.procs@[p] is Some implies proc_wf(
            b.procs@[p]->Some_0,
            p,
            b.procs.len() as int,
            b.mutexes.len() as int,
            b.semaphores.len() as int,
            b.condvars.len() as int,
        ) by {
            if p == pp {
                let pn = b.procs@[p]->Some_0;
                let po = proc_at(a, pp);
                assert forall|x: int| 0 <= x < pn.children.len() implies 0 < #[trigger] pn.children[x]
                    < b.procs.len() by {
                    if x < idx {
                        assert(pn.children[x] == po.children[x]);
                    } else {
                        assert(pn.children[x] == po.children[x + 1]);
                    }
                }
                assert(proc_wf(
                    (ProcessControlBlock { children: pn.children, ..po }),
                    pp,
                    b.procs.len() as int,
                    b.mutexes.len() as int,
                    b.semaphores.len() as int,
                    b.condvars.len() as int,
                ));
            } else {
                assert(b.procs@[p] == a.procs@[p]);
            }
        }
        assert forall|p1: int, i1: int, p2: int, i2: int|
            0 <= p1 < b.procs.len() && b.procs@[p1] is Some && 0 <= i1 < b.procs@[p1]->Some_0.children.len()
                && 0 <= p2 < b.procs.len() && b.procs@[p2] is Some && 0 <= i2
                < b.procs@[p2]->Some_0.children.len() && (p1 != p2 || i1 != i2)
                implies #[trigger] b.procs@[p1]->Some_0.children[i1]
                != #[trigger] b.procs@[p2]->Some_0.children[i2] by {
            let j1: int = if p1 == pp && i1 >= idx {
                i1 + 1
            } else {
                i1
            };
            let j2: int = if p2 == pp && i2 >= idx {
                i2 + 1
            } else {
                i2
            };
            assert(b.procs@[p1]->Some_0.children[i1] == a.procs@[p1]->Some_0.children[j1]);
            assert(b.procs@[p2]->Some_0.children[i2] == a.procs@[p2]->Some_0.children[j2]);
        }
        assert forall|p: int, x: int|
            0 <= p < b.procs.len() && b.procs@[p] is Some && 0 <= x < b.procs@[p]->Some_0.children.len()
                implies b.procs@[#[trigger] b.procs@[p]->Some_0.children[x] as int] is Some by {
            let j: int = if p == pp && x >= idx {
                x + 1
            } else {
                x
            };
            assert(b.procs@[p]->Some_0.children[x] == a.procs@[p]->Some_0.children[j]);
            // The reaped child's one list occurrence was the removed one, so
            // every remaining entry names another, still-occupied slot.
            assert(a.procs@[a.procs@[p]->Some_0.children[j] as int] is Some);
            if a.procs@[p]->Some_0.children[j] == c {
                assert(p == pp && j != idx);
                assert(false);
            }
        }
        assert forall|x: int| 0 <= x < b.ready.len() implies ref_ok(
            b,
            (#[trigger] b.ready[x]).to_ref(),
        ) by {
            assert(ref_ok(a, b.ready[x].to_ref()));
            assert(b.ready[x].pid != c);
        }
        assert forall|x: int| 0 <= x < b.sleepers.len() implies ref_ok(
            b,
            (#[trigger] b.sleepers[x]).task,
        ) by {
            assert(ref_ok(a, b.sleepers[x].task));
            assert(b.sleepers[x].task.pid != c);
        }
        if b.running is Some {
            assert(ref_ok(a, b.running->Some_0));
            assert(b.running->Some_0.pid != c);
        }
        assert forall|m: int, w: int|
            0 <= m < b.mutexes.len() && 0 <= w < b.mutexes[m].waiters.len() implies ref_ok(
            b,
            (#[trigger] b.mutexes[m].waiters[w]).task,
        ) by {
            assert(ref_ok(a, b.mutexes[m].waiters[w].task));
            assert(b.mutexes[m].waiters[w].task.pid != c);
        }
        assert forall|m: int, w: int|
            0 <= m < b.semaphores.len() && 0 <= w < b.semaphores[m].waiters.len() implies ref_ok(
            b,
            (#[trigger] b.semaphores[m].waiters[w]).task,
        ) by {
            assert(ref_ok(a, b.semaphores[m].waiters[w].task));
            assert(b.semaphores[m].waiters[w].task.pid != c);
        }
        assert forall|m: int, w: int|
            0 <= m < b.condvars.len() && 0 <= w < b.condvars[m].waiters.len() implies ref_ok(
            b,
            (#[trigger] b.condvars[m].waiters[w]).task,
        ) && b.condvars[m].waiters[w].mutex_arena < b.mutexes.len() by {
            assert(ref_ok(a, b.condvars[m].waiters[w].task));
            assert(b.condvars[m].waiters[w].task.pid != c);
        }
        assert(kwf(b));
        assert(waitpid_reaped_rel(a, b, pid as int, idx as int, c as isize, Some(code)));
    }
    (c as isize, Some(code))
}

/// `v` truncated or zero-extended to length `n`.
fn resize_zeros(v: &Vec<i64>, n: usize) -> (r: Vec<i64>)
    ensures
        r.len() == n,
        forall|j: int| 0 <= j < n && j < v.len() ==> #[trigger] r[j] == v[j],
        forall|j: int| 0 <= j < n && j >= v.len() ==> #[trigger] r[j] == 0i64,
{
    let mut r: Vec<i64> = Vec::new();
    let mut i: usize = 0;
    while i < n
        invariant
            i <= n,
            r.len() == i,
            forall|j: int| 0 <= j < i && j < v.len() ==> #[trigger] r[j] == v[j],
            forall|j: int| 0 <= j < i && j >= v.len() ==> #[trigger] r[j] == 0i64,
        decreases n - i,
    {
        if i < v.len() {
            r.push(v[i]);
        } else {
            r.push(0);
        }
        i += 1;
    }
    r
}

} // verus!
