//! The virtual-memory region manager of one address space.
//!
//! An address space is a set of pairwise-disjoint byte ranges, each carrying
//! permission bits, together with a heap whose upper end (the program break)
//! moves under `sbrk`.  Mapping validates alignment, permission bits and
//! overlap; unmapping succeeds only when the range is exactly the union of
//! whole existing regions.  The page-table and frame-allocator machinery that
//! realizes these ranges in hardware stays outside this crate.

use vstd::prelude::*;

verus! {

/// Size of one page; mapped range starts must be aligned to it.
pub const PAGE_SIZE: usize = 4096;

/// The low three permission bits a mapping request may carry.
pub const PORT_READ: usize = 0x1;

pub const PORT_WRITE: usize = 0x2;

pub const PORT_EXEC: usize = 0x4;

/// The user-accessible bit every installed mapping carries, alongside the
/// request bits shifted up by one.
pub const PERM_USER: u8 = 0x10;

/// One mapped region: the byte range `[start, end)` with its permission bits.
#[derive(Clone, Copy, PartialEq, Eq, Structural)]
pub struct MapArea {
    pub start: usize,
    pub end: usize,
    pub perm: u8,
}

/// An address space: its mapped regions plus the heap segment's bounds.
pub struct MemorySet {
    /// The mapped regions, pairwise disjoint.
    pub areas: Vec<MapArea>,
    /// The heap segment's fixed lower end; the break never falls below it.
    pub heap_bottom: usize,
    /// The current program break.
    pub program_brk: usize,
}

/// The byte ranges `[a.start, a.end)` and `[s, e)` share at least one byte.
pub open spec fn area_overlaps(a: MapArea, s: int, e: int) -> bool {
    a.start < e && s < a.end
}

/// `a` lies entirely inside `[s, e)`.
pub open spec fn area_inside(a: MapArea, s: int, e: int) -> bool {
    s <= a.start && a.end <= e
}

pub open spec fn area_wf(a: MapArea) -> bool {
    a.start <= a.end
}

/// Well-formedness of an address space: ordered region bounds, pairwise
/// disjoint regions, and a break at or above the heap bottom.
pub open spec fn ms_wf(m: MemorySet) -> bool {
    &&& forall|i: int| 0 <= i < m.areas.len() ==> area_wf(#[trigger] m.areas[i])
    &&& forall|i: int, j: int|
        0 <= i < m.areas.len() && 0 <= j < m.areas.len() && i != j ==> !area_overlaps(
            #[trigger] m.areas[i],
            #[trigger] m.areas[j].start as int,
            m.areas[j].end as int,
        )
    &&& m.heap_bottom <= m.program_brk
}

/// A mapping request is acceptable when its start is page aligned and its
/// permission bits use only the three defined bits, at least one of them set.
pub open spec fn mmap_args_ok(start: usize, port: usize) -> bool {
    &&& start as int % PAGE_SIZE as int == 0
    &&& port & !0x7 == 0
    &&& port & 0x7 != 0
}

/// The permission bits an accepted request installs: the request bits
/// shifted up by one, with the user-accessible bit set.
pub open spec fn perm_of_port(port: usize) -> u8 {
    ((port << 1) as u8) | PERM_USER
}

/// Total length of the regions of `areas` that lie inside `[s, e)`.
pub open spec fn removed_len(areas: Seq<MapArea>, s: int, e: int) -> int
    decreases areas.len(),
{
    if areas.len() == 0 {
        0
    } else {
        let a = areas.last();
        let rest = removed_len(areas.drop_last(), s, e);
        if area_overlaps(a, s, e) && area_inside(a, s, e) {
            rest + (a.end - a.start)
        } else {
            rest
        }
    }
}

/// The regions of `areas` that do not touch `[s, e)`, in order.
pub open spec fn kept_areas(areas: Seq<MapArea>, s: int, e: int) -> Seq<MapArea>
    decreases areas.len(),
{
    if areas.len() == 0 {
        areas
    } else {
        let a = areas.last();
        let rest = kept_areas(areas.drop_last(), s, e);
        if area_overlaps(a, s, e) {
            rest
        } else {
            rest.push(a)
        }
    }
}

/// An unmap request matches exactly when no region straddles the range's
/// edge and the regions inside it tile it completely.
pub open spec fn munmap_matches(areas: Seq<MapArea>, s: int, e: int) -> bool {
    &&& forall|i: int|
        0 <= i < areas.len() && area_overlaps(#[trigger] areas[i], s, e) ==> area_inside(
            areas[i],
            s,
            e,
        )
    &&& removed_len(areas, s, e) == e - s
}

impl MemorySet {
    /// A fresh address space with no mapped regions and an empty heap
    /// segment starting at `heap_bottom`.
    pub fn new(heap_bottom: usize) -> (r: MemorySet)
        ensures
            r.areas@ == Seq::<MapArea>::empty(),
            r.heap_bottom == heap_bottom,
            r.program_brk == heap_bottom,
            ms_wf(r),
    {
        MemorySet { areas: Vec::new(), heap_bottom, program_brk: heap_bottom }
    }

    /// Whether `[start, end)` shares a byte with any mapped region.
    pub fn check_mem_overlap(&self, start: usize, end: usize) -> (r: bool)
        ensures
            r == exists|i: int|
                0 <= i < self.areas.len() && area_overlaps(
                    #[trigger] self.areas[i],
                    start as int,
                    end as int,
                ),
    {
        let mut i: usize = 0;
        while i < self.areas.len()
            invariant
                i <= self.areas.len(),
                forall|j: int| 0 <= j < i ==> !area_overlaps(
                    #[trigger] self.areas[j],
                    start as int,
                    end as int,
                ),
            decreases self.areas.len() - i,
        {
            let a = self.areas[i];
            if a.start < end && start < a.end {
                return true;
            }
            i += 1;
        }
        false
    }

    /// Installs `[start, end)` with the given permission bits; the caller
    /// has already ruled out overlap.
    pub fn insert_vmap(&mut self, start: usize, end: usize, perm: u8)
        requires
            ms_wf(*old(self)),
            start <= end,
            !exists|i: int|
                0 <= i < old(self).areas.len() && area_overlaps(
                    #[trigger] old(self).areas[i],
                    start as int,
                    end as int,
                ),
        ensures
            final(self).areas@ == old(self).areas@.push(MapArea { start, end, perm }),
            final(self).heap_bottom == old(self).heap_bottom,
            final(self).program_brk == old(self).program_brk,
            ms_wf(*final(self)),
    {
        self.areas.push(MapArea { start, end, perm });
    }

    /// Maps `[start, start + len)`: rejected with `-1` when the start is
    /// misaligned, the permission bits are out of range or empty, or the
    /// range overlaps an existing region; `0` and a new region otherwise.
    pub fn mmap(&mut self, start: usize, len: usize, port: usize) -> (r: isize)
        requires
            ms_wf(*old(self)),
            start + len <= usize::MAX,
        ensures
            ms_wf(*final(self)),
            r == 0 || r == -1,
            r == 0 <==> mmap_args_ok(start, port) && !exists|i: int|
                0 <= i < old(self).areas.len() && area_overlaps(
                    #[trigger] old(self).areas[i],
                    start as int,
                    start + len,
                ),
            r == 0 ==> final(self).areas@ == old(self).areas@.push(
                (MapArea { start, end: (start + len) as usize, perm: perm_of_port(port) }),
            ),
            r == -1 ==> *final(self) == *old(self),
            final(self).heap_bottom == old(self).heap_bottom,
            final(self).program_brk == old(self).program_brk,
    {
        if start % PAGE_SIZE != 0 || port & !0x7 != 0 || port & 0x7 == 0 {
            return -1;
        }
        let end = start + len;
        if self.check_mem_overlap(start, end) {
            return -1;
        }
        assert(perm_of_port(port) == ((port << 1) as u8) | PERM_USER) by (bit_vector);
        self.insert_vmap(start, end, ((port << 1) as u8) | PERM_USER);
        0
    }

    /// Unmaps `[start, start + len)`: succeeds with `0` exactly when the
    /// range is the union of whole existing regions, which it removes;
    /// `-1` and no change otherwise.
    pub fn munmap(&mut self, start: usize, len: usize) -> (r: isize)
        requires
            ms_wf(*old(self)),
            start + len <= usize::MAX,
        ensures
            ms_wf(*final(self)),
            r == 0 || r == -1,
            r == 0 <==> munmap_matches(old(self).areas@, start as int, start + len),
            r == 0 ==> final(self).areas@ == kept_areas(old(self).areas@, start as int, start + len),
            r == -1 ==> *final(self) == *old(self),
            final(self).heap_bottom == old(self).heap_bottom,
            final(self).program_brk == old(self).program_brk,
    {
        let end = start + len;
        let ghost s = start as int;
        let ghost e = end as int;
        let ghost all = self.areas@;
        let mut kept: Vec<MapArea> = Vec::new();
        let ghost mut orig: Seq<int> = Seq::empty();
        let mut removed: usize = 0;
        let mut i: usize = 0;
        while i < self.areas.len()
            invariant
                i <= self.areas.len(),
                all == self.areas@,
                s == start as int,
                e == end as int,
                end == start + len,
                e == s + len,
                0 <= s <= e <= usize::MAX,
                ms_wf(*self),
                removed == removed_len(all.take(i as int), s, e),
                kept@ == kept_areas(all.take(i as int), s, e),
                removed <= len,
                orig.len() == kept@.len(),
                forall|x: int|
                    0 <= x < orig.len() ==> 0 <= #[trigger] orig[x] < i && kept@[x] == all[orig[x]],
                forall|x: int, y: int| 0 <= x < y < orig.len() ==> orig[x] != orig[y],
                forall|j: int|
                    0 <= j < i && area_overlaps(#[trigger] all[j], s, e) ==> area_inside(
                        all[j],
                        s,
                        e,
                    ),
            decreases self.areas.len() - i,
        {
            let a = self.areas[i];
            proof {
                assert(all.take(i + 1).drop_last() =~= all.take(i as int));
                assert(all.take(i + 1).last() == all[i as int]);
            }
            if a.end <= start || end <= a.start {
                kept.push(a);
                proof {
                    orig = orig.push(i as int);
                }
            } else if start <= a.start && a.end <= end {
                let alen = a.end - a.start;
                if len - removed < alen {
                    proof {
                        assert(all.take(i + 1).last() == a);
                        assert(s <= a.start);
                        assert(a.end <= e);
                        assert(area_inside(a, s, e));
                        assert(alen > 0);
                        assert(area_overlaps(a, s, e));
                        assert(removed_len(all.take(i + 1), s, e) == removed + alen);
                        lemma_removed_len_mono(all, s, e, i + 1);
                        assert(removed_len(all, s, e) > len);
                    }
                    return -1;
                }
                removed = removed + alen;
            } else {
                proof {
                    assert(area_overlaps(all[i as int], s, e) && !area_inside(all[i as int], s, e));
                }
                return -1;
            }
            i += 1;
        }
        proof {
            assert(all.take(all.len() as int) =~= all);
        }
        if removed == len {
            proof {
                assert forall|x: int, y: int|
                    0 <= x < kept@.len() && 0 <= y < kept@.len() && x != y implies !area_overlaps(
                    kept@[x],
                    kept@[y].start as int,
                    kept@[y].end as int,
                ) by {
                    assert(kept@[x] == all[orig[x]]);
                    assert(kept@[y] == all[orig[y]]);
                }
                assert forall|x: int| 0 <= x < kept@.len() implies area_wf(#[trigger] kept@[x]) by {
                    assert(kept@[x] == all[orig[x]]);
                }
            }
            self.areas = kept;
            0
        } else {
            -1
        }
    }

    /// Moves the program break by `size` bytes, returning the break before
    /// the call, or nothing — and an unchanged space — when the move would
    /// take the break below the heap bottom.
    pub fn change_program_brk(&mut self, size: i32) -> (r: Option<usize>)
        requires
            ms_wf(*old(self)),
            old(self).program_brk + size <= usize::MAX,
        ensures
            ms_wf(*final(self)),
            old(self).program_brk + size >= old(self).heap_bottom ==> r == Some(
                old(self).program_brk,
            ) && final(self).program_brk == old(self).program_brk + size,
            old(self).program_brk + size < old(self).heap_bottom ==> r == None::<usize>
                && *final(self) == *old(self),
            final(self).heap_bottom == old(self).heap_bottom,
            final(self).areas@ == old(self).areas@,
    {
        let old_brk = self.program_brk;
        if size >= 0 {
            self.program_brk = old_brk + (size as usize);
            Some(old_brk)
        } else {
            let down = (-(size as i64)) as usize;
            if down > old_brk || old_brk - down < self.heap_bottom {
                return None;
            }
            self.program_brk = old_brk - down;
            Some(old_brk)
        }
    }
}

/// Counting only a prefix of the regions never counts more than all of them.
proof fn lemma_removed_len_mono(areas: Seq<MapArea>, s: int, e: int, k: int)
    requires
        0 <= k <= areas.len(),
        forall|i: int| 0 <= i < areas.len() ==> area_wf(#[trigger] areas[i]),
    ensures
        removed_len(areas.take(k), s, e) <= removed_len(areas, s, e),
    decreases areas.len() - k,
{
    if k == areas.len() {
        assert(areas.take(k) =~= areas);
    } else {
        assert(areas.take(k + 1).drop_last() =~= areas.take(k));
        assert(areas.take(k + 1).last() == areas[k]);
        lemma_removed_len_mono(areas, s, e, k + 1);
    }
}

} // verus!
