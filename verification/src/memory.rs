//! Frame allocator over the boot memory map: hands out the 4 KiB frames of
//! the regions the bootloader marked usable, in map order, each at most once.

use vstd::prelude::*;

verus! {

/// Size of a physical frame.
pub const FRAME_SIZE: u64 = 4096;

/// One region of the boot memory map: the physical range
/// `start_addr..end_addr` and whether the bootloader marked it usable.
#[derive(Debug, Clone, Copy, PartialEq, Eq, Structural)]
pub struct MemRegion {
    pub start_addr: u64,
    pub end_addr: u64,
    pub usable: bool,
}

/// How many frame starts `start, start + 4096, ...` lie below `end`.
pub open spec fn frame_count(start: u64, end: u64) -> nat {
    if start < end {
        ((end - start - 1) as nat / 4096 + 1) as nat
    } else {
        0
    }
}

/// The frame start addresses a region contributes: every 4096th address of
/// its range, from the start, if it is usable.
pub open spec fn region_frames(r: MemRegion) -> Seq<u64> {
    if r.usable {
        Seq::new(frame_count(r.start_addr, r.end_addr), |k: int| (r.start_addr + k * 4096) as u64)
    } else {
        seq![]
    }
}

/// The usable frames of a memory map, region by region in map order.
pub open spec fn usable_frames(rs: Seq<MemRegion>) -> Seq<u64>
    decreases rs.len(),
{
    if rs.len() == 0 {
        seq![]
    } else {
        region_frames(rs[0]) + usable_frames(rs.drop_first())
    }
}

/// No two usable regions overlap.
pub open spec fn usable_disjoint(rs: Seq<MemRegion>) -> bool {
    forall|i: int, j: int|
        0 <= i < rs.len() && 0 <= j < rs.len() && i != j && (#[trigger] rs[i]).usable && (
        #[trigger] rs[j]).usable ==> rs[i].end_addr <= rs[j].start_addr || rs[j].end_addr
            <= rs[i].start_addr
}

/// Frame allocator returning usable frames from the boot memory map.
pub struct BootInfoFrameAllocator {
    memory_map: Vec<MemRegion>,
    next: usize,
}

impl BootInfoFrameAllocator {
    /// The memory map the allocator hands frames out of.
    pub closed spec fn regions(&self) -> Seq<MemRegion> {
        self.memory_map@
    }

    /// How many allocations were made.
    pub closed spec fn allocated(&self) -> nat {
        self.next as nat
    }

    /// How many allocations were made.
    pub fn allocations(&self) -> (n: usize)
        ensures
            n == self.allocated(),
    {
        self.next
    }

    /// An allocator that has handed out nothing yet.
    ///
    /// The map must describe memory truthfully: frames of its usable regions
    /// must really be free.
    pub fn init(memory_map: Vec<MemRegion>) -> (a: Self)
        ensures
            a.regions() == memory_map@,
            a.allocated() == 0,
    {
        BootInfoFrameAllocator { memory_map, next: 0 }
    }

    /// The `n`-th usable frame of the map, if it has that many.
    fn nth_usable_frame(&self, n: usize) -> (r: Option<u64>)
        ensures
            n < usable_frames(self.regions()).len() ==> r == Some(
                usable_frames(self.regions())[n as int],
            ),
            n >= usable_frames(self.regions()).len() ==> r is None,
    {
        let ghost rs = self.memory_map@;
        let mut rem: u64 = n as u64;
        let mut i: usize = 0;
        assert(rs.skip(0) =~= rs);
        while i < self.memory_map.len()
            invariant
                rs == self.memory_map@,
                0 <= i <= rs.len(),
                rem <= n,
                (n < usable_frames(rs).len()) == (rem < usable_frames(rs.skip(i as int)).len()),
                n < usable_frames(rs).len() ==> usable_frames(rs)[n as int] == usable_frames(
                    rs.skip(i as int),
                )[rem as int],
            decreases rs.len() - i,
        {
            let r = self.memory_map[i];
            proof {
                assert(rs.skip(i as int).drop_first() =~= rs.skip(i + 1));
                assert(rs.skip(i as int)[0] == r);
                assert(usable_frames(rs.skip(i as int)) == region_frames(r) + usable_frames(
                    rs.skip(i + 1),
                ));
            }
            if r.usable && r.start_addr < r.end_addr {
                let count = (r.end_addr - r.start_addr - 1) / FRAME_SIZE + 1;
                assert(count == frame_count(r.start_addr, r.end_addr));
                if rem < count {
                    assert(rem * 4096 <= r.end_addr - r.start_addr - 1) by (nonlinear_arith)
                        requires
                            rem < count,
                            count == (r.end_addr - r.start_addr - 1) / 4096 + 1,
                            r.start_addr < r.end_addr,
                    ;
                    let addr = r.start_addr + rem * FRAME_SIZE;
                    assert(region_frames(r)[rem as int] == addr);
                    return Some(addr);
                }
                rem = rem - count;
            } else {
                assert(region_frames(r).len() == 0);
            }
            i += 1;
        }
        proof {
            assert(rs.skip(rs.len() as int) =~= Seq::<MemRegion>::empty());
        }
        None
    }

    /// Hands out the next usable frame of the map (its start address), or
    /// `None` once all have been handed out. Either way the count of
    /// allocations goes up by one.
    pub fn allocate_frame(&mut self) -> (r: Option<u64>)
        requires
            old(self).allocated() < usize::MAX,
        ensures
            final(self).regions() == old(self).regions(),
            final(self).allocated() == old(self).allocated() + 1,
            old(self).allocated() < usable_frames(old(self).regions()).len() ==> r == Some(
                usable_frames(old(self).regions())[old(self).allocated() as int],
            ),
            old(self).allocated() >= usable_frames(old(self).regions()).len() ==> r is None,
    {
        let frame = self.nth_usable_frame(self.next);
        self.next = self.next + 1;
        frame
    }
}

/// Every usable frame lies inside a usable region of the map, at a multiple
/// of 4096 from its start.
pub proof fn lemma_frame_in_region(rs: Seq<MemRegion>, k: int)
    requires
        0 <= k < usable_frames(rs).len(),
    ensures
        exists|j: int|
            0 <= j < rs.len() && (#[trigger] rs[j]).usable && rs[j].start_addr
                <= usable_frames(rs)[k] < rs[j].end_addr,
    decreases rs.len(),
{
    let f = region_frames(rs[0]);
    if k < f.len() {
        let x = usable_frames(rs)[k];
        assert(x == f[k]);
        assert(k * 4096 <= rs[0].end_addr - rs[0].start_addr - 1) by (nonlinear_arith)
            requires
                0 <= k < (rs[0].end_addr - rs[0].start_addr - 1) as nat / 4096 + 1,
                rs[0].start_addr < rs[0].end_addr,
        ;
        assert(rs[0].usable && rs[0].start_addr <= x < rs[0].end_addr);
    } else {
        let rest = rs.drop_first();
        assert(usable_frames(rs)[k] == usable_frames(rest)[k - f.len()]);
        lemma_frame_in_region(rest, k - f.len());
        let j = choose|j: int|
            0 <= j < rest.len() && (#[trigger] rest[j]).usable && rest[j].start_addr
                <= usable_frames(rest)[k - f.len()] < rest[j].end_addr;
        assert(rs[j + 1] == rest[j]);
    }
}

/// The allocator never hands out a frame twice: when the usable regions of
/// the map do not overlap, the usable frames are pairwise distinct.
pub proof fn lemma_usable_frames_distinct(rs: Seq<MemRegion>)
    requires
        usable_disjoint(rs),
    ensures
        usable_frames(rs).no_duplicates(),
    decreases rs.len(),
{
    if rs.len() > 0 {
        let rest = rs.drop_first();
        assert(usable_disjoint(rest)) by {
            assert forall|i: int, j: int|
                0 <= i < rest.len() && 0 <= j < rest.len() && i != j && (#[trigger] rest[i]).usable
                    && (#[trigger] rest[j]).usable implies rest[i].end_addr <= rest[j].start_addr
                || rest[j].end_addr <= rest[i].start_addr by {
                assert(rest[i] == rs[i + 1] && rest[j] == rs[j + 1]);
            }
        }
        lemma_usable_frames_distinct(rest);
        let f = region_frames(rs[0]);
        let u = usable_frames(rest);
        let all = usable_frames(rs);
        assert(all == f + u);
        assert forall|a: int, b: int|
            0 <= a < all.len() && 0 <= b < all.len() && a != b implies all[a] != all[b] by {
            if a < f.len() && b < f.len() {
                assert(all[a] == rs[0].start_addr + a * 4096);
                assert(all[b] == rs[0].start_addr + b * 4096);
            } else if a >= f.len() && b >= f.len() {
                assert(all[a] == u[a - f.len()] && all[b] == u[b - f.len()]);
            } else {
                let (x, y) = if a < f.len() {
                    (a, b)
                } else {
                    (b, a)
                };
                lemma_frame_in_region(rs, x);
                assert(all[x] == f[x]);
                assert(x * 4096 <= rs[0].end_addr - rs[0].start_addr - 1) by (nonlinear_arith)
                    requires
                        0 <= x < (rs[0].end_addr - rs[0].start_addr - 1) as nat / 4096 + 1,
                        rs[0].start_addr < rs[0].end_addr,
                ;
                lemma_frame_in_region(rest, y - f.len());
                let j = choose|j: int|
                    0 <= j < rest.len() && (#[trigger] rest[j]).usable && rest[j].start_addr
                        <= u[y - f.len()] < rest[j].end_addr;
                assert(rs[j + 1] == rest[j]);
                assert(rs[0].usable);
                assert(rs[0].end_addr <= rs[j + 1].start_addr || rs[j + 1].end_addr
                    <= rs[0].start_addr);
                assert(all[y] == u[y - f.len()]);
            }
        }
    }
}

} // verus!
