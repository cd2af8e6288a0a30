//! The stride scheduler's selection rule.
//!
//! Ready tasks wait in a queue; a selection picks the entry whose stride is
//! minimal, earliest-enqueued first on ties, and the picked task's stride
//! then grows by `BIG_STRIDE / priority`.  Strides wrap on overflow, so the
//! order between two strides is read off the wrapping difference taken as a
//! signed quantity, not off the raw magnitude.

use vstd::prelude::*;

verus! {

/// Each selection adds `BIG_STRIDE / priority` to the picked task's stride;
/// priorities are at least 2, so the increment is at most `BIG_STRIDE / 2`.
pub const BIG_STRIDE: u64 = 0x10_0000;

/// Half of the 64-bit range: the wrapping difference `a - b` read as a signed
/// quantity is negative exactly when it is at least this large.
pub const HALF_RANGE: u64 = 0x8000_0000_0000_0000;


/// One entry of the ready queue: a task reference together with the stride
/// the task had when it was enqueued.  A Ready task's stride only changes
/// when it is selected, so the snapshot stays current while it waits.
#[derive(Clone, Copy, PartialEq, Eq, Structural)]
pub struct ReadyEntry {
    /// Arena index of the owning process.
    pub pid: usize,
    /// Slot of the task in that process's task table.
    pub tid: usize,
    /// The task's stride when it entered the queue.
    pub stride: u64,
}

/// `a - b` on 64-bit words, wrapping.
pub open spec fn wsub64(a: u64, b: u64) -> u64 {
    ((a - b) % 0x1_0000_0000_0000_0000) as u64
}

/// `a + b` on 64-bit words, wrapping.
pub open spec fn wadd64(a: u64, b: u64) -> u64 {
    ((a + b) % 0x1_0000_0000_0000_0000) as u64
}

/// Wrap-aware stride order: `a` comes strictly before `b` when the wrapping
/// difference `a - b`, read as a signed quantity, is negative.
pub open spec fn stride_lt(a: u64, b: u64) -> bool {
    wsub64(a, b) >= HALF_RANGE
}

pub fn wrapping_sub64(a: u64, b: u64) -> (r: u64)
    ensures
        r == wsub64(a, b),
{
    if a >= b {
        proof {
            vstd::arithmetic::div_mod::lemma_small_mod((a - b) as nat, 0x1_0000_0000_0000_0000nat);
        }
        a - b
    } else {
        proof {
            vstd::arithmetic::div_mod::lemma_mod_add_multiples_vanish(a - b, 0x1_0000_0000_0000_0000);
            vstd::arithmetic::div_mod::lemma_small_mod((a - b + 0x1_0000_0000_0000_0000) as nat, 0x1_0000_0000_0000_0000nat);
        }
        u64::MAX - b + a + 1
    }
}

pub fn wrapping_add64(a: u64, b: u64) -> (r: u64)
    ensures
        r == wadd64(a, b),
{
    if b <= u64::MAX - a {
        proof {
            vstd::arithmetic::div_mod::lemma_small_mod((a + b) as nat, 0x1_0000_0000_0000_0000nat);
        }
        a + b
    } else {
        proof {
            vstd::arithmetic::div_mod::lemma_mod_add_multiples_vanish(a + b - 0x1_0000_0000_0000_0000, 0x1_0000_0000_0000_0000);
            vstd::arithmetic::div_mod::lemma_small_mod((a + b - 0x1_0000_0000_0000_0000) as nat, 0x1_0000_0000_0000_0000nat);
        }
        a - (u64::MAX - b) - 1
    }
}

pub fn stride_before(a: u64, b: u64) -> (r: bool)
    ensures
        r == stride_lt(a, b),
{
    wrapping_sub64(a, b) >= HALF_RANGE
}

/// The strides of a queue, in queue order.
pub open spec fn entry_strides(q: Seq<ReadyEntry>) -> Seq<u64> {
    Seq::new(q.len(), |i: int| q[i].stride)
}

/// The index a selection picks from a non-empty stride sequence: the first
/// entry that is minimal in the wrap-aware order.  A later entry displaces an
/// earlier one only by being strictly smaller, so ties keep the earliest.
pub open spec fn pick_of(s: Seq<u64>) -> int
    decreases s.len(),
{
    if s.len() <= 1 {
        0
    } else {
        let r = pick_of(s.drop_last());
        if stride_lt(s.last(), s[r]) {
            s.len() - 1
        } else {
            r
        }
    }
}

pub proof fn lemma_pick_of_in_range(s: Seq<u64>)
    requires
        s.len() > 0,
    ensures
        0 <= pick_of(s) < s.len(),
    decreases s.len(),
{
    if s.len() > 1 {
        lemma_pick_of_in_range(s.drop_last());
    }
}

/// Selection over a ready queue: returns the index of the first entry whose
/// stride is minimal in the wrap-aware order.
pub fn pick_min(q: &Vec<ReadyEntry>) -> (r: usize)
    requires
        q.len() > 0,
    ensures
        r < q.len(),
        r as int == pick_of(entry_strides(q@)),
{
    let ghost s = entry_strides(q@);
    let mut best: usize = 0;
    let mut j: usize = 1;
    while j < q.len()
        invariant
            1 <= j <= q.len(),
            best < j,
            s == entry_strides(q@),
            s.len() == q.len(),
            best as int == pick_of(s.take(j as int)),
        decreases q.len() - j,
    {
        if stride_before(q[j].stride, q[best].stride) {
            best = j;
        }
        proof {
            assert(s.take(j + 1).drop_last() =~= s.take(j as int));
            assert(s.take(j + 1).last() == s[j as int]);
            lemma_pick_of_in_range(s.take(j as int));
        }
        j += 1;
    }
    proof {
        assert(s.take(q.len() as int) =~= s);
    }
    best
}

/// All strides of `s` lie within a half-range window above `base`; within
/// such a window the wrap-aware order behaves like a plain order, which is
/// what the wrapping comparison is for.
pub open spec fn within_window(s: Seq<u64>, base: u64) -> bool {
    forall|k: int| 0 <= k < s.len() ==> wsub64(#[trigger] s[k], base) < HALF_RANGE
}

proof fn lemma_wsub_cases(a: u64, b: u64)
    ensures
        a >= b ==> wsub64(a, b) == a - b,
        a < b ==> wsub64(a, b) == a - b + 0x1_0000_0000_0000_0000,
{
    if a >= b {
        vstd::arithmetic::div_mod::lemma_small_mod((a - b) as nat, 0x1_0000_0000_0000_0000nat);
    } else {
        vstd::arithmetic::div_mod::lemma_mod_add_multiples_vanish(a - b, 0x1_0000_0000_0000_0000);
        vstd::arithmetic::div_mod::lemma_small_mod((a - b + 0x1_0000_0000_0000_0000) as nat, 0x1_0000_0000_0000_0000nat);
    }
}

proof fn lemma_window_order(a: u64, b: u64, base: u64)
    requires
        wsub64(a, base) < HALF_RANGE,
        wsub64(b, base) < HALF_RANGE,
    ensures
        stride_lt(a, b) <==> wsub64(a, base) < wsub64(b, base),
{
    lemma_wsub_cases(a, base);
    lemma_wsub_cases(b, base);
    lemma_wsub_cases(a, b);
}

/// The law the scheduler keeps: as long as the ready strides sit within one
/// half-range window — which holds for any interleaving of enqueues whose
/// strides have not drifted a half range apart, and every increment is at
/// most `BIG_STRIDE / 2` — the selected entry's stride exceeds no other ready
/// stride in the wrap-aware order, and every earlier entry is strictly
/// larger, so ties go to the earliest-enqueued task.
pub proof fn lemma_pick_min_stride(s: Seq<u64>, base: u64)
    requires
        s.len() > 0,
        within_window(s, base),
    ensures
        forall|j: int| 0 <= j < s.len() ==> !stride_lt(#[trigger] s[j], s[pick_of(s)]),
        forall|j: int| 0 <= j < pick_of(s) ==> stride_lt(s[pick_of(s)], #[trigger] s[j]),
    decreases s.len(),
{
    lemma_pick_of_in_range(s);
    if s.len() > 1 {
        let s0 = s.drop_last();
        assert(within_window(s0, base)) by {
            assert(forall|k: int| 0 <= k < s0.len() ==> s0[k] == s[k]);
        }
        lemma_pick_min_stride(s0, base);
        lemma_pick_of_in_range(s0);
        let r0 = pick_of(s0);
        let last = s.last();
        let r = pick_of(s);
        lemma_window_order(last, s[r0], base);
        if stride_lt(last, s[r0]) {
            assert(r == s.len() - 1);
            assert forall|j: int| 0 <= j < s.len() - 1 implies stride_lt(s[r], #[trigger] s[j])
                && !stride_lt(#[trigger] s[j], s[r]) by {
                assert(!stride_lt(s0[j], s0[r0]));
                lemma_window_order(s[j], s[r0], base);
                lemma_window_order(last, s[j], base);
                lemma_window_order(s[j], last, base);
            }
        } else {
            assert(r == r0);
            assert forall|j: int| 0 <= j < s.len() implies !stride_lt(#[trigger] s[j], s[r]) by {
                if j < s.len() - 1 {
                    assert(!stride_lt(s0[j], s0[r0]));
                }
            }
            assert forall|j: int| 0 <= j < r implies stride_lt(s[r], #[trigger] s[j]) by {
                assert(stride_lt(s0[r0], s0[j]));
            }
        }
    }
}

} // verus!
