use oskern::kernel::Kernel;
use oskern::kernel::sys_enable_deadlock_detect;
use oskern::kernel::sys_exec;
use oskern::kernel::sys_getpid;
use oskern::kernel::sys_mmap;
use oskern::kernel::sys_munmap;
use oskern::kernel::sys_mutex_create;
use oskern::kernel::sys_mutex_destroy;
use oskern::kernel::sys_mutex_lock;
use oskern::kernel::sys_mutex_unlock;
use oskern::kernel::sys_sbrk;
use oskern::kernel::sys_semaphore_create;
use oskern::kernel::sys_set_priority;
use oskern::kernel::sys_sleep;
use oskern::kernel::sys_yield;
use oskern::kernel::timer_tick;
use oskern::sched::ReadyEntry;
use oskern::sched::pick_min;
use oskern::sched::stride_before;
use oskern::sched::wrapping_add64;
use oskern::sched::wrapping_sub64;

fn boot() -> Kernel {
    Kernel::new(0x1_0000)
}

#[test]
fn getpid_of_root_is_zero() {
    let k = boot();
    assert_eq!(sys_getpid(&k), 0);
}

#[test]
fn yield_with_empty_queue_reschedules_caller() {
    let mut k = boot();
    assert_eq!(sys_yield(&mut k), 0);
    assert_eq!(sys_getpid(&k), 0);
}

#[test]
fn set_priority_rejects_below_two() {
    let mut k = boot();
    assert_eq!(sys_set_priority(&mut k, 1), -1);
    assert_eq!(sys_set_priority(&mut k, 0), -1);
    assert_eq!(sys_set_priority(&mut k, -3), -1);
    assert_eq!(sys_set_priority(&mut k, 2), 2);
    assert_eq!(sys_set_priority(&mut k, 16), 16);
}

#[test]
fn mmap_overlap_and_exact_munmap() {
    let mut k = boot();
    assert_eq!(sys_mmap(&mut k, 0x1000, 0x2000, 0b011), 0);
    assert_eq!(sys_mmap(&mut k, 0x2000, 0x1000, 0b001), -1);
    assert_eq!(sys_munmap(&mut k, 0x1000, 0x1000), -1);
    assert_eq!(sys_munmap(&mut k, 0x1000, 0x2000), 0);
    assert_eq!(sys_mmap(&mut k, 0x1000, 0x2000, 0b011), 0);
}

#[test]
fn mmap_rejects_bad_arguments() {
    let mut k = boot();
    assert_eq!(sys_mmap(&mut k, 0x1001, 0x1000, 0b011), -1);
    assert_eq!(sys_mmap(&mut k, 0x1000, 0x1000, 0), -1);
    assert_eq!(sys_mmap(&mut k, 0x1000, 0x1000, 0b1000), -1);
    assert_eq!(sys_mmap(&mut k, 0x1000, 0x1000, 0b111), 0);
}

#[test]
fn sbrk_zero_reports_break_unchanged() {
    let mut k = boot();
    assert_eq!(sys_sbrk(&mut k, 0), 0x1_0000);
    assert_eq!(sys_sbrk(&mut k, 0x100), 0x1_0000);
    assert_eq!(sys_sbrk(&mut k, 0), 0x1_0100);
}

#[test]
fn sbrk_below_bottom_fails_and_keeps_break() {
    let mut k = boot();
    assert_eq!(sys_sbrk(&mut k, -1), -1);
    assert_eq!(sys_sbrk(&mut k, 0), 0x1_0000);
    assert_eq!(sys_sbrk(&mut k, 0x40), 0x1_0000);
    assert_eq!(sys_sbrk(&mut k, -0x41), -1);
    assert_eq!(sys_sbrk(&mut k, -0x40), 0x1_0040);
    assert_eq!(sys_sbrk(&mut k, 0), 0x1_0000);
}

#[test]
fn create_reuses_lowest_empty_slot() {
    let mut k = boot();
    assert_eq!(sys_mutex_create(&mut k, true), 0);
    assert_eq!(sys_mutex_create(&mut k, true), 1);
    assert_eq!(sys_mutex_create(&mut k, false), 2);
    assert_eq!(sys_mutex_destroy(&mut k, 1), 0);
    assert_eq!(sys_mutex_create(&mut k, true), 1);
    assert_eq!(sys_mutex_create(&mut k, true), 3);
}

#[test]
fn semaphore_create_counts_up_slots() {
    let mut k = boot();
    assert_eq!(sys_semaphore_create(&mut k, 3), 0);
    assert_eq!(sys_semaphore_create(&mut k, 1), 1);
}

#[test]
fn mutex_lock_and_unlock_round_trip() {
    let mut k = boot();
    assert_eq!(sys_mutex_create(&mut k, true), 0);
    assert_eq!(sys_mutex_lock(&mut k, 0), 0);
    assert_eq!(sys_mutex_unlock(&mut k, 0), 0);
    assert_eq!(sys_mutex_lock(&mut k, 0), 0);
}

#[test]
fn detector_refuses_self_deadlock() {
    let mut k = boot();
    assert_eq!(sys_enable_deadlock_detect(&mut k, 1), 0);
    assert_eq!(sys_mutex_create(&mut k, true), 0);
    assert_eq!(sys_mutex_lock(&mut k, 0), 0);
    // A second acquisition by the only task can never be granted: the
    // safety check sees need 1 against no available unit and refuses
    // before blocking.
    assert_eq!(sys_mutex_lock(&mut k, 0), -0xDEAD);
}

#[test]
fn detector_toggle_accepts_only_zero_and_one() {
    let mut k = boot();
    assert_eq!(sys_enable_deadlock_detect(&mut k, 2), -1);
    assert_eq!(sys_enable_deadlock_detect(&mut k, 1), 0);
    assert_eq!(sys_enable_deadlock_detect(&mut k, 0), 0);
}

#[test]
fn sleep_blocks_until_the_tick() {
    let mut k = boot();
    assert_eq!(sys_sleep(&mut k, 10), 0);
    // The only task sleeps; the CPU idles until the timer passes 10 ms.
    assert!(k.running.is_none());
    timer_tick(&mut k, 5);
    assert_eq!(k.sleepers.len(), 1);
    assert!(matches!(
        k.procs[0].as_ref().unwrap().tasks[0].as_ref().unwrap().inner.task_status,
        oskern::task::TaskStatus::Blocked
    ));
    timer_tick(&mut k, 10);
    // The deadline arrived: the sleeper is awake and queued again.
    assert_eq!(k.sleepers.len(), 0);
    assert_eq!(k.ready.len(), 1);
    assert!(matches!(
        k.procs[0].as_ref().unwrap().tasks[0].as_ref().unwrap().inner.task_status,
        oskern::task::TaskStatus::Ready
    ));
}

#[test]
fn pick_min_takes_first_minimal_stride() {
    let q = vec![
        ReadyEntry { pid: 0, tid: 0, stride: 30 },
        ReadyEntry { pid: 0, tid: 1, stride: 10 },
        ReadyEntry { pid: 0, tid: 2, stride: 10 },
        ReadyEntry { pid: 0, tid: 3, stride: 20 },
    ];
    assert_eq!(pick_min(&q), 1);
}

#[test]
fn stride_order_accounts_for_wraparound() {
    // Just past the wrap point, a small stride reads as ahead of a huge one.
    assert!(stride_before(u64::MAX - 5, 3));
    assert!(!stride_before(3, u64::MAX - 5));
    assert!(stride_before(10, 20));
    assert!(!stride_before(20, 10));
    assert_eq!(wrapping_add64(u64::MAX, 1), 0);
    assert_eq!(wrapping_sub64(0, 1), u64::MAX);
}

#[test]
fn exec_replaces_the_address_space_or_reports_not_found() {
    let mut k = boot();
    assert_eq!(sys_mmap(&mut k, 0x1000, 0x1000, 0b011), 0);
    assert_eq!(sys_exec(&mut k, None), -1);
    assert_eq!(sys_sbrk(&mut k, 0), 0x1_0000);
    assert_eq!(sys_exec(&mut k, Some(0x8_0000)), 0);
    // The old image is gone: the same range maps afresh and the break
    // starts at the new image's heap bottom.
    assert_eq!(sys_mmap(&mut k, 0x1000, 0x1000, 0b011), 0);
    assert_eq!(sys_sbrk(&mut k, 0), 0x8_0000);
}

#[test]
fn time_val_splits_microseconds() {
    let tv = oskern::kernel::time_val_from_us(3_250_000);
    assert_eq!(tv.sec, 3);
    assert_eq!(tv.usec, 250_000);
}

#[test]
fn task_info_reports_the_running_task() {
    let k = boot();
    let info = oskern::kernel::sys_task_info(&k);
    assert!(matches!(info.status, oskern::task::TaskStatus::Running));
    assert_eq!(info.time, 0);
    assert_eq!(info.syscall_times.len(), 500);
}

#[test]
fn fork_registers_a_child_that_shares_tables() {
    let mut k = boot();
    assert_eq!(sys_mutex_create(&mut k, true), 0);
    let child = oskern::kernel::sys_fork(&mut k);
    assert_eq!(child, 1);
    let p = k.procs[1].as_ref().unwrap();
    assert_eq!(p.parent, Some(0));
    assert!(!p.zombie);
    // The child's one task starts Ready with a zero return value, the
    // defining asymmetry of fork.
    assert_eq!(p.tasks.len(), 1);
    let t = p.tasks[0].as_ref().unwrap();
    assert_eq!(t.inner.trap_cx.a0, 0);
    assert!(matches!(t.inner.task_status, oskern::task::TaskStatus::Ready));
    // Slot indices are shared: the child sees the parent's mutex slot.
    assert_eq!(p.mutex_list, k.procs[0].as_ref().unwrap().mutex_list);
    assert_eq!(k.procs[0].as_ref().unwrap().children, vec![1usize]);
}

#[test]
fn waitpid_distinguishes_no_child_from_not_yet_exited() {
    let mut k = boot();
    // No children at all: no match.
    assert_eq!(oskern::kernel::sys_waitpid(&mut k, -1), (-1, None));
    let child = oskern::kernel::sys_fork(&mut k);
    assert_eq!(child, 1);
    // The child exists but lives on: the retry signal, for any pid and for
    // the child's own.
    assert_eq!(oskern::kernel::sys_waitpid(&mut k, -1), (-2, None));
    assert_eq!(oskern::kernel::sys_waitpid(&mut k, 1), (-2, None));
    // A pid no child carries: no match.
    assert_eq!(oskern::kernel::sys_waitpid(&mut k, 7), (-1, None));
}

#[test]
fn spawn_builds_a_fresh_child_directly() {
    let mut k = boot();
    assert_eq!(oskern::kernel::sys_spawn(&mut k, None), -1);
    let child = oskern::kernel::sys_spawn(&mut k, Some(0x9_0000));
    assert_eq!(child, 1);
    let p = k.procs[1].as_ref().unwrap();
    assert_eq!(p.parent, Some(0));
    assert_eq!(p.memory_set.areas.len(), 0);
    assert_eq!(p.memory_set.program_brk, 0x9_0000);
    assert_eq!(k.procs[0].as_ref().unwrap().children, vec![1usize]);
}
