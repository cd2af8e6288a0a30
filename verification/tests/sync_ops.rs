use oskern::kernel::Kernel;
use oskern::kernel::sys_condvar_create;
use oskern::kernel::sys_condvar_signal;
use oskern::kernel::sys_condvar_wait;
use oskern::kernel::sys_enable_deadlock_detect;
use oskern::kernel::sys_mutex_create;
use oskern::kernel::sys_mutex_lock;
use oskern::kernel::sys_mutex_unlock;
use oskern::kernel::sys_semaphore_create;
use oskern::kernel::sys_semaphore_destroy;
use oskern::kernel::sys_semaphore_down;
use oskern::kernel::sys_semaphore_up;
use oskern::kernel::sys_thread_create;
use oskern::kernel::sys_yield;
use oskern::task::TaskStatus;

fn boot() -> Kernel {
    Kernel::new(0x1_0000)
}

fn status_of(k: &Kernel, pid: usize, tid: usize) -> TaskStatus {
    k.procs[pid].as_ref().unwrap().tasks[tid].as_ref().unwrap().inner.task_status
}

fn mutex_alloc_of(k: &Kernel, pid: usize, tid: usize, slot: usize) -> i64 {
    k.procs[pid].as_ref().unwrap().tasks[tid].as_ref().unwrap().inner.mutex_alloc[slot]
}

#[test]
fn thread_create_returns_next_slot() {
    let mut k = boot();
    assert_eq!(sys_thread_create(&mut k), 1);
    assert_eq!(sys_thread_create(&mut k), 2);
    assert_eq!(status_of(&k, 0, 1), TaskStatus::Ready);
    assert_eq!(status_of(&k, 0, 2), TaskStatus::Ready);
}

#[test]
fn opposite_order_locking_without_detection_deadlocks() {
    // Two tasks of one process lock two mutexes in opposite order.  With
    // detection off nothing intervenes: both end up permanently Blocked and
    // the CPU idles.
    let mut k = boot();
    assert_eq!(sys_thread_create(&mut k), 1);
    assert_eq!(sys_mutex_create(&mut k, true), 0);
    assert_eq!(sys_mutex_create(&mut k, true), 1);
    assert_eq!(sys_mutex_lock(&mut k, 0), 0);
    assert_eq!(sys_yield(&mut k), 0);
    // The second task runs now and takes the other mutex first.
    assert_eq!(sys_mutex_lock(&mut k, 1), 0);
    assert_eq!(sys_mutex_lock(&mut k, 0), 0);
    // That blocked the second task; the first runs and closes the cycle.
    assert_eq!(sys_mutex_lock(&mut k, 1), 0);
    assert!(k.running.is_none());
    assert_eq!(status_of(&k, 0, 0), TaskStatus::Blocked);
    assert_eq!(status_of(&k, 0, 1), TaskStatus::Blocked);
}

#[test]
fn opposite_order_locking_with_detection_is_refused() {
    // The same interleaving with detection on: the closing acquisition is
    // refused with the distinguished result instead of blocking, and the
    // conservation sums of both mutex slots still total one.
    let mut k = boot();
    assert_eq!(sys_enable_deadlock_detect(&mut k, 1), 0);
    assert_eq!(sys_thread_create(&mut k), 1);
    assert_eq!(sys_mutex_create(&mut k, true), 0);
    assert_eq!(sys_mutex_create(&mut k, true), 1);
    assert_eq!(sys_mutex_lock(&mut k, 0), 0);
    assert_eq!(sys_yield(&mut k), 0);
    assert_eq!(sys_mutex_lock(&mut k, 1), 0);
    assert_eq!(sys_mutex_lock(&mut k, 0), 0);
    // The first task runs again; its acquisition would close the cycle and
    // the safety check refuses it before it blocks.
    assert_eq!(sys_mutex_lock(&mut k, 1), -0xDEAD);
    assert_eq!(status_of(&k, 0, 0), TaskStatus::Running);
    let p = k.procs[0].as_ref().unwrap();
    for slot in 0..2usize {
        let held = mutex_alloc_of(&k, 0, 0, slot) + mutex_alloc_of(&k, 0, 1, slot);
        assert_eq!(p.mutex_res[slot] + held, 1);
    }
}

#[test]
fn unlock_hands_the_mutex_to_the_head_waiter() {
    let mut k = boot();
    assert_eq!(sys_thread_create(&mut k), 1);
    assert_eq!(sys_mutex_create(&mut k, true), 0);
    assert_eq!(sys_mutex_lock(&mut k, 0), 0);
    assert_eq!(sys_yield(&mut k), 0);
    // The second task contends and blocks; the first runs again.
    assert_eq!(sys_mutex_lock(&mut k, 0), 0);
    assert_eq!(status_of(&k, 0, 1), TaskStatus::Blocked);
    assert_eq!(sys_mutex_unlock(&mut k, 0), 0);
    // The waiter wakes holding the mutex, which never opened in between.
    assert_eq!(status_of(&k, 0, 1), TaskStatus::Ready);
    assert!(k.mutexes[0].locked);
    assert_eq!(k.mutexes[0].waiters.len(), 0);
}

#[test]
fn semaphore_counts_and_blocks() {
    let mut k = boot();
    assert_eq!(sys_thread_create(&mut k), 1);
    assert_eq!(sys_semaphore_create(&mut k, 1), 0);
    assert_eq!(sys_semaphore_down(&mut k, 0), 0);
    assert_eq!(k.semaphores[0].count, 0);
    assert_eq!(sys_yield(&mut k), 0);
    // The second task finds no unit and blocks; the first runs again.
    assert_eq!(sys_semaphore_down(&mut k, 0), 0);
    assert_eq!(status_of(&k, 0, 1), TaskStatus::Blocked);
    assert_eq!(k.semaphores[0].count, -1);
    assert_eq!(sys_semaphore_up(&mut k, 0), 0);
    assert_eq!(status_of(&k, 0, 1), TaskStatus::Ready);
    assert_eq!(k.semaphores[0].count, 0);
}

#[test]
fn semaphore_down_refused_when_no_unit_can_ever_come() {
    let mut k = boot();
    assert_eq!(sys_enable_deadlock_detect(&mut k, 1), 0);
    assert_eq!(sys_semaphore_create(&mut k, 0), 0);
    assert_eq!(sys_semaphore_down(&mut k, 0), -0xDEAD);
    assert_eq!(status_of(&k, 0, 0), TaskStatus::Running);
}

#[test]
fn semaphore_destroy_frees_the_slot() {
    let mut k = boot();
    assert_eq!(sys_semaphore_create(&mut k, 1), 0);
    assert_eq!(sys_semaphore_create(&mut k, 2), 1);
    assert_eq!(sys_semaphore_destroy(&mut k, 0), 0);
    assert_eq!(sys_semaphore_create(&mut k, 3), 0);
}

#[test]
fn condvar_wait_releases_and_signal_requeues_on_the_mutex() {
    let mut k = boot();
    assert_eq!(sys_thread_create(&mut k), 1);
    assert_eq!(sys_mutex_create(&mut k, true), 0);
    assert_eq!(sys_condvar_create(&mut k), 0);
    assert_eq!(sys_mutex_lock(&mut k, 0), 0);
    // The first task waits: the mutex opens and the second task runs.
    assert_eq!(sys_condvar_wait(&mut k, 0, 0), 0);
    assert_eq!(status_of(&k, 0, 0), TaskStatus::Blocked);
    assert!(!k.mutexes[0].locked || k.running.is_none());
    assert_eq!(sys_mutex_lock(&mut k, 0), 0);
    // The signal moves the waiter onto the held mutex's queue.
    assert_eq!(sys_condvar_signal(&mut k, 0), 0);
    assert_eq!(k.condvars[0].waiters.len(), 0);
    assert_eq!(status_of(&k, 0, 0), TaskStatus::Blocked);
    assert_eq!(k.mutexes[0].waiters.len(), 1);
    // Releasing hands the mutex straight to the woken waiter.
    assert_eq!(sys_mutex_unlock(&mut k, 0), 0);
    assert_eq!(status_of(&k, 0, 0), TaskStatus::Ready);
    assert!(k.mutexes[0].locked);
}

#[test]
fn condvar_signal_with_open_mutex_wakes_directly() {
    let mut k = boot();
    assert_eq!(sys_thread_create(&mut k), 1);
    assert_eq!(sys_mutex_create(&mut k, true), 0);
    assert_eq!(sys_condvar_create(&mut k), 0);
    assert_eq!(sys_mutex_lock(&mut k, 0), 0);
    assert_eq!(sys_condvar_wait(&mut k, 0, 0), 0);
    // The mutex is open when the signal arrives: the waiter retakes it at
    // once and turns Ready.
    assert_eq!(sys_condvar_signal(&mut k, 0), 0);
    assert_eq!(status_of(&k, 0, 0), TaskStatus::Ready);
    assert!(k.mutexes[0].locked);
}

#[test]
fn condvar_signal_without_waiters_is_a_no_op() {
    let mut k = boot();
    assert_eq!(sys_condvar_create(&mut k), 0);
    assert_eq!(sys_condvar_signal(&mut k, 0), 0);
}

#[test]
fn release_bookkeeping_survives_toggling_detection_off() {
    // A unit taken while detection was on is returned by the release even
    // after the toggle goes off: release bookkeeping is unconditional.
    let mut k = boot();
    assert_eq!(sys_enable_deadlock_detect(&mut k, 1), 0);
    assert_eq!(sys_mutex_create(&mut k, true), 0);
    assert_eq!(sys_mutex_lock(&mut k, 0), 0);
    assert_eq!(mutex_alloc_of(&k, 0, 0, 0), 1);
    assert_eq!(sys_enable_deadlock_detect(&mut k, 0), 0);
    assert_eq!(sys_mutex_unlock(&mut k, 0), 0);
    assert_eq!(mutex_alloc_of(&k, 0, 0, 0), 0);
    assert_eq!(k.procs[0].as_ref().unwrap().mutex_res[0], 1);
}

#[test]
fn enabling_detection_credits_current_availability() {
    // Primitives created before the toggle: switching detection on sizes
    // the vectors and credits each slot with what is available right now —
    // nothing for a held mutex, the current count for a semaphore.
    let mut k = boot();
    assert_eq!(sys_mutex_create(&mut k, true), 0);
    assert_eq!(sys_mutex_create(&mut k, true), 1);
    assert_eq!(sys_semaphore_create(&mut k, 5), 0);
    assert_eq!(sys_mutex_lock(&mut k, 0), 0);
    assert_eq!(sys_semaphore_down(&mut k, 0), 0);
    assert_eq!(sys_enable_deadlock_detect(&mut k, 1), 0);
    let p = k.procs[0].as_ref().unwrap();
    assert_eq!(p.mutex_res, vec![0i64, 1]);
    assert_eq!(p.semaphore_res, vec![4i64]);
    let t = p.tasks[0].as_ref().unwrap();
    assert_eq!(t.inner.mutex_alloc, vec![0i64, 0]);
    assert_eq!(t.inner.semaphore_need, vec![0i64]);
}
