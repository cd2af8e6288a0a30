//! Task control blocks: one schedulable execution context each.
//!
//! A task records its scheduling weight and stride, its status, its saved
//! user-register snapshot, per-syscall accounting, and — for the deadlock
//! detector — how many units of each mutex and semaphore slot it holds and
//! how many it is asking for.  Tasks live in their owning process's task
//! table and are reached by arena indices, so back-references never own.

use vstd::prelude::*;

verus! {

/// How many syscall kinds the per-task invocation counters distinguish.
pub const MAX_SYSCALL_NUM: usize = 500;

/// A task's default scheduling weight.
pub const DEFAULT_PRIORITY: u64 = 16;

/// The execution status of a task.
#[derive(Clone, Copy, PartialEq, Eq, Structural, Debug)]
pub enum TaskStatus {
    /// Waiting in the ready queue for selection.
    Ready,
    /// The one task the logical CPU is executing.
    Running,
    /// Waiting on a primitive, a timer, or a child.
    Blocked,
}

/// The saved user-register snapshot a trap leaves behind.  The memory page
/// that holds the full frame belongs to the trap machinery outside this
/// crate; the core only ever reads and writes the return-value register, so
/// that is what the model keeps.
#[derive(Clone, Copy, PartialEq, Eq, Structural, Debug)]
pub struct TrapContext {
    /// The register a syscall's result is placed in, and the one fork zeroes
    /// in the child.
    pub a0: usize,
}

/// The mutable part of a task control block.  On the single logical CPU it
/// is only ever touched by the running task or by the kernel on its behalf,
/// which is what the exclusive-access accessor below expresses.
pub struct TaskControlBlockInner {
    /// Saved user-register snapshot.
    pub trap_cx: TrapContext,
    /// Execution status.
    pub task_status: TaskStatus,
    /// Set once, on termination.
    pub exit_code: Option<i32>,
    /// Per-syscall-kind invocation counts; always `MAX_SYSCALL_NUM` long.
    /// The dispatcher that decodes trapped syscalls ticks these, outside
    /// this crate; here they are carried and reported.
    pub syscall_times: Vec<u32>,
    /// Microseconds of run time since first scheduled; advanced by the
    /// timer machinery outside this crate, carried and reported here.
    pub time: usize,
    /// Scheduling weight, at least 2.
    pub priority: u64,
    /// Accumulated selection cost; grows by `BIG_STRIDE / priority` per
    /// selection and wraps on overflow.
    pub stride: u64,
    /// Held units per mutex slot, indexed like the owning process's table.
    pub mutex_alloc: Vec<i64>,
    /// Requested units per mutex slot.
    pub mutex_need: Vec<i64>,
    /// Held units per semaphore slot.
    pub semaphore_alloc: Vec<i64>,
    /// Requested units per semaphore slot.
    pub semaphore_need: Vec<i64>,
}

impl TaskControlBlockInner {
    /// The saved user-register snapshot.
    pub fn get_trap_cx(&self) -> (r: TrapContext)
        ensures
            r == self.trap_cx,
    {
        self.trap_cx
    }

    /// The task's current execution status.
    pub fn get_status(&self) -> (r: TaskStatus)
        ensures
            r == self.task_status,
    {
        self.task_status
    }
}

/// One task control block: the arena index of its owning process — a lookup
/// key, never an owner — plus the mutable state.
pub struct TaskControlBlock {
    /// Arena index of the owning process.
    pub process: usize,
    /// The task's mutable state.
    pub inner: TaskControlBlockInner,
}

impl TaskControlBlock {
    /// Exclusive access to the mutable state.  Execution is single-threaded
    /// at this layer, so holding the one live reference is the exclusivity.
    pub fn inner_exclusive_access(&self) -> (r: &TaskControlBlockInner)
        ensures
            *r == self.inner,
    {
        &self.inner
    }

    /// The translation-table handle of the owning process's address space;
    /// the process is handed in because tasks reach their owner by arena
    /// index, never by an owning pointer.
    pub fn get_user_token(&self, p: &crate::process::ProcessControlBlock) -> (r: usize)
        requires
            p.pid == self.process,
        ensures
            r == p.token,
    {
        p.token
    }

    /// The task's current stride.
    pub fn get_stride(&self) -> (r: u64)
        ensures
            r == self.inner.stride,
    {
        self.inner.stride
    }

    /// A fresh task for the process at arena index `process`, Ready, with
    /// the default weight, a zero stride, and zeroed resource vectors sized
    /// to the process's current mutex and semaphore tables.
    pub fn new(process: usize, mutex_len: usize, semaphore_len: usize) -> (r: TaskControlBlock)
        ensures
            r.process == process,
            r.inner.trap_cx == (TrapContext { a0: 0 }),
            r.inner.task_status == TaskStatus::Ready,
            r.inner.exit_code == None::<i32>,
            r.inner.syscall_times@ == Seq::new(MAX_SYSCALL_NUM as nat, |i: int| 0u32),
            r.inner.time == 0,
            r.inner.priority == DEFAULT_PRIORITY,
            r.inner.stride == 0,
            r.inner.mutex_alloc@ == Seq::new(mutex_len as nat, |i: int| 0i64),
            r.inner.mutex_need@ == Seq::new(mutex_len as nat, |i: int| 0i64),
            r.inner.semaphore_alloc@ == Seq::new(semaphore_len as nat, |i: int| 0i64),
            r.inner.semaphore_need@ == Seq::new(semaphore_len as nat, |i: int| 0i64),
    {
        let r = TaskControlBlock {
            process,
            inner: TaskControlBlockInner {
                trap_cx: TrapContext { a0: 0 },
                task_status: TaskStatus::Ready,
                exit_code: None,
                syscall_times: zero_u32_vec(MAX_SYSCALL_NUM),
                time: 0,
                priority: DEFAULT_PRIORITY,
                stride: 0,
                mutex_alloc: zero_i64_vec(mutex_len),
                mutex_need: zero_i64_vec(mutex_len),
                semaphore_alloc: zero_i64_vec(semaphore_len),
                semaphore_need: zero_i64_vec(semaphore_len),
            },
        };
        r
    }
}

/// A vector of `n` zeroes.
pub fn zero_i64_vec(n: usize) -> (r: Vec<i64>)
    ensures
        r@ == Seq::new(n as nat, |i: int| 0i64),
{
    let mut v: Vec<i64> = Vec::new();
    let mut i: usize = 0;
    while i < n
        invariant
            i <= n,
            v@ == Seq::new(i as nat, |j: int| 0i64),
        decreases n - i,
    {
        v.push(0);
        proof {
            assert(v@ =~= Seq::new((i + 1) as nat, |j: int| 0i64));
        }
        i += 1;
    }
    v
}

/// A vector of `n` zeroes.
pub fn zero_u32_vec(n: usize) -> (r: Vec<u32>)
    ensures
        r@ == Seq::new(n as nat, |i: int| 0u32),
{
    let mut v: Vec<u32> = Vec::new();
    let mut i: usize = 0;
    while i < n
        invariant
            i <= n,
            v@ == Seq::new(i as nat, |j: int| 0u32),
        decreases n - i,
    {
        v.push(0);
        proof {
            assert(v@ =~= Seq::new((i + 1) as nat, |j: int| 0u32));
        }
        i += 1;
    }
    v
}

} // verus!
