//! Synchronization primitive instances and the deadlock detector's safety
//! check.
//!
//! Primitive instances live in kernel-wide arenas and are shared between
//! processes by index, mirroring reference-counted handles.  The safety
//! check runs a Banker's-algorithm simulation over a process's task list and
//! resource snapshot: repeatedly finish any task whose whole need vector
//! fits into the working vector, folding its allocation back in; the state
//! is safe exactly when every task finishes.

use vstd::prelude::*;

use crate::process::COUNTER_CAP;
use crate::process::MAX_TASKS;
use crate::task::TaskControlBlock;

verus! {

/// A task's place in the kernel: its process's arena index and its slot in
/// that process's task table.
#[derive(Clone, Copy, PartialEq, Eq, Structural, Debug)]
pub struct TaskRef {
    pub pid: usize,
    pub tid: usize,
}

/// One blocked acquirer: the task and the slot index under which its own
/// process reaches the primitive, for the grant-time bookkeeping.
#[derive(Clone, Copy, PartialEq, Eq, Structural, Debug)]
pub struct QueuedWaiter {
    pub task: TaskRef,
    pub slot: usize,
}

/// A mutex instance.  Both creation strategies — spin and blocking — share
/// one contention discipline here: a contended acquirer waits in FIFO order,
/// which preserves mutual exclusion and stays livelock-free.
pub struct MutexInst {
    /// Which strategy the creator asked for.
    pub blocking: bool,
    /// Held by some task.
    pub locked: bool,
    /// Tasks blocked on acquisition, in arrival order.
    pub waiters: Vec<QueuedWaiter>,
}

/// A counting semaphore instance; the count goes negative while tasks wait.
pub struct SemInst {
    pub count: i64,
    /// Tasks blocked in `down`, in arrival order.
    pub waiters: Vec<QueuedWaiter>,
}

/// A condition-variable instance; each waiter remembers which mutex to
/// reacquire on wake-up.
pub struct CondvarInst {
    pub waiters: Vec<CondWaiter>,
}

/// One condition-variable waiter: the task and the arena index of the mutex
/// it released and must hold again before its wait returns.
#[derive(Clone, Copy, PartialEq, Eq, Structural, Debug)]
pub struct CondWaiter {
    pub task: TaskRef,
    pub mutex_arena: usize,
}

/// Entry-wise `need <= work` over the common prefix, exactly the comparison
/// the simulation makes.
pub open spec fn needs_le(need: Seq<i64>, work: Seq<int>) -> bool {
    forall|j: int| 0 <= j < need.len() && j < work.len() ==> #[trigger] need[j] <= work[j]
}

/// A task's need vector for the chosen resource kind.
pub open spec fn need_of(t: TaskControlBlock, use_sem: bool) -> Seq<i64> {
    if use_sem {
        t.inner.semaphore_need@
    } else {
        t.inner.mutex_need@
    }
}

/// A task's allocation vector for the chosen resource kind.
pub open spec fn alloc_of(t: TaskControlBlock, use_sem: bool) -> Seq<i64> {
    if use_sem {
        t.inner.semaphore_alloc@
    } else {
        t.inner.mutex_alloc@
    }
}

/// Task `i` can finish: it exists, has not finished, and its whole need
/// vector fits into the working vector.
pub open spec fn task_cand(
    tasks: Seq<Option<TaskControlBlock>>,
    work: Seq<int>,
    finish: Seq<bool>,
    use_sem: bool,
    i: int,
) -> bool {
    &&& 0 <= i < tasks.len()
    &&& i < finish.len()
    &&& !finish[i]
    &&& tasks[i] is Some
    &&& needs_le(need_of(tasks[i]->Some_0, use_sem), work)
}

/// The first index at or after `k` that can finish, or `-1`.
pub open spec fn first_cand_from(
    tasks: Seq<Option<TaskControlBlock>>,
    work: Seq<int>,
    finish: Seq<bool>,
    use_sem: bool,
    k: int,
) -> int
    decreases tasks.len() - k,
{
    if k < 0 || k >= tasks.len() {
        -1
    } else if task_cand(tasks, work, finish, use_sem, k) {
        k
    } else {
        first_cand_from(tasks, work, finish, use_sem, k + 1)
    }
}

/// The working vector after task `i`'s allocation is folded back in; only
/// the common prefix moves, as the simulation's pairwise walk does.
pub open spec fn add_alloc(work: Seq<int>, alloc: Seq<i64>) -> Seq<int> {
    Seq::new(
        work.len(),
        |j: int|
            if j < alloc.len() {
                work[j] + alloc[j]
            } else {
                work[j]
            },
    )
}

pub open spec fn count_false(s: Seq<bool>) -> nat
    decreases s.len(),
{
    if s.len() == 0 {
        0nat
    } else {
        (if s.last() {
            0nat
        } else {
            1nat
        }) + count_false(s.drop_last())
    }
}

proof fn lemma_count_false_update(s: Seq<bool>, i: int)
    requires
        0 <= i < s.len(),
        !s[i],
    ensures
        count_false(s.update(i, true)) == count_false(s) - 1,
    decreases s.len(),
{
    let u = s.update(i, true);
    if i == s.len() - 1 {
        assert(u.drop_last() =~= s.drop_last());
    } else {
        assert(u.drop_last() =~= s.drop_last().update(i, true));
        assert(u.last() == s.last());
        lemma_count_false_update(s.drop_last(), i);
    }
}

proof fn lemma_count_false_all(n: nat)
    ensures
        count_false(all_false(n)) == n,
    decreases n,
{
    if n > 0 {
        assert(all_false(n).drop_last() =~= all_false((n - 1) as nat));
        assert(!all_false(n).last());
        lemma_count_false_all((n - 1) as nat);
    }
}

/// The simulation's outcome: from the given working vector and finish
/// marks, repeatedly finish the first task that fits until none does; safe
/// exactly when every mark ends true.
pub open spec fn banker_ok(
    tasks: Seq<Option<TaskControlBlock>>,
    work: Seq<int>,
    finish: Seq<bool>,
    use_sem: bool,
) -> bool
    decreases count_false(finish),
    via banker_ok_dec
{
    let i = first_cand_from(tasks, work, finish, use_sem, 0);
    if i == -1 {
        forall|j: int| 0 <= j < finish.len() ==> finish[j]
    } else if 0 <= i < finish.len() && !finish[i] && i < tasks.len() && tasks[i] is Some {
        banker_ok(
            tasks,
            add_alloc(work, alloc_of(tasks[i]->Some_0, use_sem)),
            finish.update(i, true),
            use_sem,
        )
    } else {
        false
    }
}

#[via_fn]
proof fn banker_ok_dec(
    tasks: Seq<Option<TaskControlBlock>>,
    work: Seq<int>,
    finish: Seq<bool>,
    use_sem: bool,
) {
    let i = first_cand_from(tasks, work, finish, use_sem, 0);
    if i != -1 && 0 <= i < finish.len() && !finish[i] {
        lemma_count_false_update(finish, i);
    }
}

/// The finish vector the check starts from: all false.
pub open spec fn all_false(n: nat) -> Seq<bool> {
    Seq::new(n, |i: int| false)
}

/// A resource snapshot lifted to unbounded integers.
pub open spec fn seq_int(s: Seq<i64>) -> Seq<int> {
    Seq::new(s.len(), |j: int| s[j] as int)
}

proof fn lemma_first_cand_skip(
    tasks: Seq<Option<TaskControlBlock>>,
    work: Seq<int>,
    finish: Seq<bool>,
    use_sem: bool,
    m: int,
    k: int,
)
    requires
        0 <= m <= k <= tasks.len(),
        forall|j: int| m <= j < k ==> !task_cand(tasks, work, finish, use_sem, j),
    ensures
        first_cand_from(tasks, work, finish, use_sem, m) == first_cand_from(
            tasks,
            work,
            finish,
            use_sem,
            k,
        ),
    decreases k - m,
{
    if m < k {
        lemma_first_cand_skip(tasks, work, finish, use_sem, m + 1, k);
    }
}

/// The shared scan both `find_task_mutex` and `find_task_semaphore` make:
/// the first unfinished task whose whole need vector fits into `work`.
fn find_task(
    tasks: &Vec<Option<TaskControlBlock>>,
    work: &Vec<i64>,
    finish: &Vec<bool>,
    use_sem: bool,
) -> (r: Option<usize>)
    requires
        finish.len() >= tasks.len(),
    ensures
        match r {
            Some(i) => i < tasks.len() && first_cand_from(
                tasks@,
                seq_int(work@),
                finish@,
                use_sem,
                0,
            ) == i && task_cand(tasks@, seq_int(work@), finish@, use_sem, i as int),
            None => first_cand_from(tasks@, seq_int(work@), finish@, use_sem, 0) == -1,
        },
{
    let ghost w = seq_int(work@);
    let mut i: usize = 0;
    while i < tasks.len()
        invariant
            i <= tasks.len(),
            finish.len() >= tasks.len(),
            w == seq_int(work@),
            forall|j: int| 0 <= j < i ==> !task_cand(tasks@, w, finish@, use_sem, j),
        decreases tasks.len() - i,
    {
        if !finish[i] {
            match &tasks[i] {
                Some(t) => {
                    let need = if use_sem {
                        &t.inner.semaphore_need
                    } else {
                        &t.inner.mutex_need
                    };
                    let mut ok = true;
                    let mut j: usize = 0;
                    while j < need.len() && j < work.len()
                        invariant
                            ok == (forall|x: int|
                                0 <= x < j && x < need.len() && x < work.len()
                                    ==> #[trigger] need@[x] <= w[x]),
                            w == seq_int(work@),
                            j <= need.len(),
                        decreases need.len() - j,
                    {
                        if need[j] > work[j] {
                            ok = false;
                            proof {
                                assert(need@[j as int] > w[j as int]);
                            }
                        }
                        j += 1;
                    }
                    if ok {
                        proof {
                            assert(needs_le(need@, w));
                            assert(task_cand(tasks@, w, finish@, use_sem, i as int));
                            lemma_first_cand_skip(tasks@, w, finish@, use_sem, 0, i as int);
                        }
                        return Some(i);
                    }
                },
                None => {},
            }
        }
        i += 1;
    }
    proof {
        lemma_first_cand_skip(tasks@, w, finish@, use_sem, 0, tasks.len() as int);
    }
    None
}

/// The scan the mutex-side safety check makes over the task list.
pub fn find_task_mutex(
    tasks: &Vec<Option<TaskControlBlock>>,
    work: &Vec<i64>,
    finish: &Vec<bool>,
) -> (r: Option<usize>)
    requires
        finish.len() >= tasks.len(),
    ensures
        match r {
            Some(i) => i < tasks.len() && first_cand_from(
                tasks@,
                seq_int(work@),
                finish@,
                false,
                0,
            ) == i,
            None => first_cand_from(tasks@, seq_int(work@), finish@, false, 0) == -1,
        },
{
    find_task(tasks, work, finish, false)
}

/// The scan the semaphore-side safety check makes over the task list.
pub fn find_task_semaphore(
    tasks: &Vec<Option<TaskControlBlock>>,
    work: &Vec<i64>,
    finish: &Vec<bool>,
) -> (r: Option<usize>)
    requires
        finish.len() >= tasks.len(),
    ensures
        match r {
            Some(i) => i < tasks.len() && first_cand_from(
                tasks@,
                seq_int(work@),
                finish@,
                true,
                0,
            ) == i,
            None => first_cand_from(tasks@, seq_int(work@), finish@, true, 0) == -1,
        },
{
    find_task(tasks, work, finish, true)
}

/// All entries of every allocation vector of the chosen kind sit within the
/// counter bound.
pub open spec fn allocs_bounded(tasks: Seq<Option<TaskControlBlock>>, use_sem: bool) -> bool {
    forall|t: int, j: int|
        0 <= t < tasks.len() && tasks[t] is Some && 0 <= j < alloc_of(
            #[trigger] tasks[t]->Some_0,
            use_sem,
        ).len() ==> -COUNTER_CAP <= #[trigger] alloc_of(tasks[t]->Some_0, use_sem)[j] <= COUNTER_CAP
}

pub open spec fn vals_bounded(s: Seq<i64>) -> bool {
    forall|j: int| 0 <= j < s.len() ==> -COUNTER_CAP <= #[trigger] s[j] <= COUNTER_CAP
}

/// Runs the whole safety simulation on a snapshot: true exactly when every
/// task of the list can finish from the given available units.
pub fn detect_safe(
    tasks: &Vec<Option<TaskControlBlock>>,
    res: &Vec<i64>,
    use_sem: bool,
) -> (r: bool)
    requires
        tasks.len() <= MAX_TASKS,
        vals_bounded(res@),
        allocs_bounded(tasks@, use_sem),
    ensures
        r == banker_ok(tasks@, seq_int(res@), all_false(tasks.len() as nat), use_sem),
{
    let mut work: Vec<i64> = Vec::new();
    let mut c: usize = 0;
    while c < res.len()
        invariant
            c <= res.len(),
            work@ == res@.take(c as int),
        decreases res.len() - c,
    {
        work.push(res[c]);
        proof {
            assert(work@ =~= res@.take(c + 1));
        }
        c += 1;
    }
    proof {
        assert(work@ =~= res@);
    }
    let mut finish: Vec<bool> = Vec::new();
    let mut c2: usize = 0;
    while c2 < tasks.len()
        invariant
            c2 <= tasks.len(),
            finish@ == all_false(c2 as nat),
        decreases tasks.len() - c2,
    {
        finish.push(false);
        proof {
            assert(finish@ =~= all_false((c2 + 1) as nat));
        }
        c2 += 1;
    }
    let ghost target = banker_ok(tasks@, seq_int(res@), all_false(tasks.len() as nat), use_sem);
    proof {
        lemma_count_false_all(tasks.len() as nat);
    }
    let mut flips: usize = 0;
    loop
        invariant
            finish.len() >= tasks.len(),
            tasks.len() <= MAX_TASKS,
            work.len() == res.len(),
            allocs_bounded(tasks@, use_sem),
            flips <= tasks.len(),
            count_false(finish@) == tasks.len() - flips,
            forall|j: int|
                0 <= j < work.len() ==> -COUNTER_CAP * (1 + flips) <= #[trigger] work@[j]
                    <= COUNTER_CAP * (1 + flips),
            target == banker_ok(tasks@, seq_int(work@), finish@, use_sem),
        ensures
            finish.len() >= tasks.len(),
            target == banker_ok(tasks@, seq_int(work@), finish@, use_sem),
            first_cand_from(tasks@, seq_int(work@), finish@, use_sem, 0) == -1,
        decreases count_false(finish@),
    {
        let picked = find_task(tasks, &work, &finish, use_sem);
        match picked {
            None => {
                break ;
            },
            Some(ti) => {
                proof {
                    lemma_count_false_update(finish@, ti as int);
                }
                let ghost pre_work = seq_int(work@);
                let ghost pre_finish = finish@;
                let alloc = match &tasks[ti] {
                    Some(t) => if use_sem {
                        &t.inner.semaphore_alloc
                    } else {
                        &t.inner.mutex_alloc
                    },
                    None => vstd::pervasive::unreached(),
                };
                let mut j: usize = 0;
                while j < work.len()
                    invariant
                        j <= work.len(),
                        work.len() == pre_work.len(),
                        ti < tasks.len(),
                        tasks.len() <= MAX_TASKS,
                        flips < tasks.len(),
                        tasks@[ti as int] is Some,
                        alloc@ == alloc_of(tasks@[ti as int]->Some_0, use_sem),
                        vals_bounded(alloc@),
                        forall|x: int| j <= x < work.len() ==> #[trigger] work@[x] as int == pre_work[x],
                        forall|x: int|
                            0 <= x < j ==> #[trigger] work@[x] as int == add_alloc(pre_work, alloc@)[x],
                        forall|x: int|
                            j <= x < work.len() ==> -COUNTER_CAP * (1 + flips) <= #[trigger] work@[x]
                                <= COUNTER_CAP * (1 + flips),
                        forall|x: int|
                            0 <= x < j ==> -COUNTER_CAP * (2 + flips) <= #[trigger] work@[x]
                                <= COUNTER_CAP * (2 + flips),
                    decreases work.len() - j,
                {
                    if j < alloc.len() {
                        let wj = work[j];
                        let aj = alloc[j];
                        work[j] = wj + aj;
                    }
                    j += 1;
                }
                finish[ti] = true;
                flips += 1;
                proof {
                    assert(seq_int(work@) =~= add_alloc(pre_work, alloc@));
                    assert(finish@ =~= pre_finish.update(ti as int, true));
                }
            },
        }
    }
    let mut all_done = true;
    let mut k: usize = 0;
    while k < finish.len()
        invariant
            k <= finish.len(),
            all_done == (forall|j: int| 0 <= j < k ==> #[trigger] finish@[j]),
        decreases finish.len() - k,
    {
        if !finish[k] {
            all_done = false;
        }
        k += 1;
    }
    proof {
        assert(target == banker_ok(tasks@, seq_int(work@), finish@, use_sem));
    }
    all_done
}

} // verus!
