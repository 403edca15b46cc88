//! Physical memory: page arithmetic and the free-page allocator.

use vstd::prelude::*;

verus! {

/// Size of a physical memory page (4 KiB).
pub const PGSIZE: usize = 4096;

/// End address of usable physical RAM on the QEMU `virt` platform.
pub const PHYSTOP: usize = 0x8800_0000;

/// `addr` rounded up to a page boundary, as a mathematical integer.
pub open spec fn round_up(addr: int) -> int {
    ((addr + PGSIZE - 1) / (PGSIZE as int)) * (PGSIZE as int)
}

/// Rounds a physical address up to the next 4 KiB page boundary.
pub fn page_round_up(addr: usize) -> (r: usize)
    requires
        addr + PGSIZE - 1 <= usize::MAX,
    ensures
        r == round_up(addr as int),
        r % PGSIZE == 0,
        addr <= r < addr + PGSIZE,
{
    let x: usize = addr + (PGSIZE - 1);
    let r: usize = x & !(PGSIZE - 1);
    assert(r % 4096 == 0 && r <= x && x - r < 4096) by (bit_vector)
        requires
            r == x & !4095usize,
    ;
    assert(r == round_up(addr as int)) by (nonlinear_arith)
        requires
            r % 4096 == 0,
            addr <= r < addr + 4096,
    ;
    r
}


/// Rounds a physical address down to a page boundary.
pub fn page_round_down(addr: usize) -> (r: usize)
    ensures
        r % PGSIZE == 0,
        r <= addr < r + PGSIZE,
{
    let r: usize = addr & !(PGSIZE - 1);
    assert(r % 4096 == 0 && r <= addr && addr - r < 4096) by (bit_vector)
        requires
            r == addr & !4095usize,
    ;
    r
}

/// Intrusive free-list node stored at the start of each free page: the
/// address of the next free page, or 0 at the end of the list.
pub struct Run {
    pub next: usize,
}

/// A page that may sit on the free list of an allocator whose kernel image
/// ends at `kernel_end`: page aligned and inside `[kernel_end, PHYSTOP)`.
pub open spec fn is_free_frame(pa: int, kernel_end: int) -> bool {
    &&& pa % (PGSIZE as int) == 0
    &&& kernel_end <= pa
    &&& pa < PHYSTOP
}

/// Every page of `s` is a valid free frame and none occurs twice.
pub open spec fn frames_valid(s: Seq<usize>, kernel_end: usize) -> bool {
    &&& s.no_duplicates()
    &&& forall|i: int| 0 <= i < s.len() ==> #[trigger] is_free_frame(s[i] as int, kernel_end as int)
}

/// The free list after `pa` has been returned to it.
pub open spec fn list_after_free(s: Seq<usize>, pa: usize) -> Seq<usize> {
    seq![pa] + s
}

/// The page an allocation takes from the free list `s` (0 when `s` is empty).
pub open spec fn alloc_result(s: Seq<usize>) -> usize {
    if s.len() == 0 {
        0
    } else {
        s[0]
    }
}

/// The free list after one allocation from `s`.
pub open spec fn list_after_alloc(s: Seq<usize>) -> Seq<usize> {
    if s.len() == 0 {
        s
    } else {
        s.drop_first()
    }
}

/// The address of the page `i` pages above `first`.
pub open spec fn nth_frame(first: int, i: int) -> int {
    first + i * (PGSIZE as int)
}

/// The `n` consecutive pages starting at `first`, in ascending order.
pub open spec fn frames_from(first: int, n: nat) -> Seq<usize> {
    Seq::new(n, |i: int| nth_frame(first, i) as usize)
}

/// How many whole pages fit in `[round_up(start), end)`.
pub open spec fn frame_count(start: int, end: int) -> nat {
    let first = round_up(start);
    if first + PGSIZE <= end {
        ((end - first) / (PGSIZE as int)) as nat
    } else {
        0
    }
}

/// The node that follows position `i` of the free list `s` (0 after the last).
spec fn link_after(s: Seq<usize>, i: int) -> usize {
    if i + 1 < s.len() {
        s[i + 1]
    } else {
        0
    }
}

/// Physical page allocator based on a singly linked free list threaded
/// through the free pages themselves.
pub struct PhysicalMemoryAllocator {
    /// Address of the first free page, 0 when none is free.
    head: usize,
    /// End of the kernel image: no page below it is ever handed out.
    kernel_end: usize,
    /// The `Run` node held at the start of each free page, by page address.
    runs: vstd::hash_map::HashMapWithView<usize, Run>,
    /// The free pages in the order in which they will be handed out.
    free: Ghost<Seq<usize>>,
}

impl PhysicalMemoryAllocator {
    /// The free pages, first to be allocated first.
    pub closed spec fn free_pages(&self) -> Seq<usize> {
        self.free@
    }

    /// The lower bound below which no page is accepted.
    pub closed spec fn kernel_end(&self) -> usize {
        self.kernel_end
    }

    /// The list threaded through `runs` from `head` is exactly `free`.
    pub closed spec fn wf(&self) -> bool {
        &&& self.kernel_end > 0
        &&& frames_valid(self.free@, self.kernel_end)
        &&& self.head == alloc_result(self.free@)
        &&& forall|p: usize| #[trigger] self.runs@.contains_key(p) <==> self.free@.contains(p)
        &&& forall|i: int|
            0 <= i < self.free@.len() ==> #[trigger] self.runs@[self.free@[i]].next == link_after(
                self.free@,
                i,
            )
    }

    /// The free list of a well-formed allocator holds valid, distinct frames.
    pub proof fn lemma_frames_valid(&self)
        requires
            self.wf(),
        ensures
            frames_valid(self.free_pages(), self.kernel_end()),
            self.kernel_end() > 0,
    {
    }

    /// Creates an empty allocator for a kernel image that ends at `kernel_end`.
    pub fn new(kernel_end: usize) -> (r: Self)
        requires
            kernel_end > 0,
        ensures
            r.wf(),
            frames_valid(r.free_pages(), r.kernel_end()),
            r.free_pages() == Seq::<usize>::empty(),
            r.kernel_end() == kernel_end,
    {
        broadcast use vstd::std_specs::hash::group_hash_axioms;

        PhysicalMemoryAllocator {
            head: 0,
            kernel_end,
            runs: vstd::hash_map::HashMapWithView::new(),
            free: Ghost(Seq::empty()),
        }
    }

    /// Returns a physical page to the free list; it becomes the next page
    /// handed out. The page must be aligned, lie between the kernel end and
    /// `PHYSTOP`, and not be free already. Filling the page with junk bytes
    /// is left to the caller, which owns the memory.
    pub fn kfree(&mut self, pa: usize)
        requires
            old(self).wf(),
            is_free_frame(pa as int, old(self).kernel_end() as int),
            !old(self).free_pages().contains(pa),
        ensures
            final(self).wf(),
            final(self).kernel_end() == old(self).kernel_end(),
            final(self).free_pages() == list_after_free(old(self).free_pages(), pa),
            final(self).free_pages().len() == old(self).free_pages().len() + 1,
            final(self).free_pages()[0] == pa,
            final(self).free_pages().subrange(1, final(self).free_pages().len() as int) == old(
                self,
            ).free_pages(),
            frames_valid(final(self).free_pages(), final(self).kernel_end()),
    {
        let ghost old_free = self.free@;
        let ghost old_runs = self.runs@;
        let run = Run { next: self.head };
        self.runs.insert(pa, run);
        self.head = pa;
        proof {
            let new_free = seq![pa] + old_free;
            self.free@ = new_free;
            assert forall|i: int| 0 <= i < new_free.len() implies #[trigger] is_free_frame(
                new_free[i] as int,
                self.kernel_end as int,
            ) by {
                if i > 0 {
                    assert(new_free[i] == old_free[i - 1]);
                }
            }
            assert(new_free.no_duplicates()) by {
                assert forall|i: int, j: int|
                    0 <= i < new_free.len() && 0 <= j < new_free.len() && i != j implies new_free[i]
                    != new_free[j] by {
                    if i > 0 {
                        assert(new_free[i] == old_free[i - 1]);
                    }
                    if j > 0 {
                        assert(new_free[j] == old_free[j - 1]);
                    }
                    if i == 0 {
                        assert(old_free.contains(new_free[j]) || j == 0);
                    }
                    if j == 0 {
                        assert(old_free.contains(new_free[i]) || i == 0);
                    }
                }
            }
            assert forall|p: usize| #[trigger] self.runs@.contains_key(p) <==> new_free.contains(p) by {
                assert(old_runs.contains_key(p) <==> old_free.contains(p));
                assert(new_free[0] == pa);
                if old_free.contains(p) {
                    let k = choose|k: int| 0 <= k < old_free.len() && old_free[k] == p;
                    assert(new_free[k + 1] == p);
                }
                if new_free.contains(p) && p != pa {
                    let k = choose|k: int| 0 <= k < new_free.len() && new_free[k] == p;
                    assert(old_free[k - 1] == p);
                }
            }
            assert forall|i: int| 0 <= i < new_free.len() implies #[trigger] self.runs@[new_free[i]].next
                == link_after(new_free, i) by {
                if i > 0 {
                    assert(new_free[i] == old_free[i - 1]);
                    assert(old_free.contains(old_free[i - 1]));
                    assert(old_runs[old_free[i - 1]].next == link_after(old_free, i - 1));
                }
            }
        }
    }

    /// Adds every whole page of `[page_round_up(start), end)` to the free
    /// list, lowest address first, so that the highest of them is handed out
    /// first. Each of these pages must be acceptable to `kfree`.
    pub fn kinit(&mut self, start: usize, end: usize)
        requires
            old(self).wf(),
            start + PGSIZE - 1 <= usize::MAX,
            round_up(start as int) + PGSIZE <= usize::MAX,
            forall|i: int|
                0 <= i < frame_count(start as int, end as int) ==> {
                    let pa = #[trigger] nth_frame(round_up(start as int), i);
                    &&& is_free_frame(pa, old(self).kernel_end() as int)
                    &&& !old(self).free_pages().contains(pa as usize)
                },
        ensures
            final(self).wf(),
            final(self).kernel_end() == old(self).kernel_end(),
            frames_valid(final(self).free_pages(), final(self).kernel_end()),
            final(self).free_pages() == frames_from(
                round_up(start as int),
                frame_count(start as int, end as int),
            ).reverse() + old(self).free_pages(),
    {
        let ghost old_free = self.free@;
        let ghost n = frame_count(start as int, end as int);
        let mut page: usize = page_round_up(start);
        let ghost first = page as int;
        proof {
            assert(first == round_up(start as int)) by (nonlinear_arith)
                requires
                    first % 4096 == 0,
                    start <= first < start + 4096,
            ;
        }
        let ghost mut k: nat = 0;
        while page + PGSIZE <= end
            invariant
                self.wf(),
                self.kernel_end() == old(self).kernel_end(),
                first == round_up(start as int),
                n == frame_count(start as int, end as int),
                first + PGSIZE <= usize::MAX,
                page == first + k * (PGSIZE as int),
                k <= n,
                k > 0 ==> first + PGSIZE <= end,
                k > 0 ==> page <= PHYSTOP,
                forall|i: int|
                    0 <= i < n ==> {
                        let pa = #[trigger] nth_frame(first, i);
                        &&& is_free_frame(pa, old(self).kernel_end() as int)
                        &&& !old_free.contains(pa as usize)
                    },
                self.free_pages() == frames_from(first, k).reverse() + old_free,
            decreases end - page,
        {
            proof {
                assert(first + PGSIZE <= end);
                assert(n == (end - first) / 4096);
                assert(k + 1 <= n) by (nonlinear_arith)
                    requires
                        page == first + k * 4096,
                        page + 4096 <= end,
                        n == (end - first) / 4096,
                ;
                let pa = nth_frame(first, k as int);
                assert(is_free_frame(pa, old(self).kernel_end() as int));
                assert(!old_free.contains(pa as usize));
                assert(!frames_from(first, k).reverse().contains(pa as usize)) by {
                    if frames_from(first, k).reverse().contains(pa as usize) {
                        let j = choose|j: int|
                            0 <= j < k && frames_from(first, k).reverse()[j] == pa as usize;
                        assert(frames_from(first, k).reverse()[j] == frames_from(first, k)[k - 1 - j]);
                    }
                }
            }
            self.kfree(page);
            proof {
                let a = frames_from(first, k + 1).reverse();
                let b = seq![page] + frames_from(first, k).reverse();
                assert(a =~= b) by {
                    assert forall|j: int| 0 <= j < a.len() implies a[j] == b[j] by {
                        if j > 0 {
                            assert(b[j] == frames_from(first, k).reverse()[j - 1]);
                        }
                    }
                }
                assert(self.free_pages() =~= a + old_free);
                k = k + 1;
            }
            page = page + PGSIZE;
        }
        proof {
            if first + PGSIZE <= end {
                assert(n == (end - first) / 4096);
                assert(k >= n) by (nonlinear_arith)
                    requires
                        page == first + k * 4096,
                        page + 4096 > end,
                        n == (end - first) / 4096,
                        first + 4096 <= end,
                ;
            }
        }
    }

    /// Allocates one page: the first page of the free list, or 0 when no
    /// page is free. Filling the page with junk bytes is left to the
    /// caller, which owns the memory.
    pub fn kalloc(&mut self) -> (page: usize)
        requires
            old(self).wf(),
        ensures
            final(self).wf(),
            final(self).kernel_end() == old(self).kernel_end(),
            page == alloc_result(old(self).free_pages()),
            final(self).free_pages() == list_after_alloc(old(self).free_pages()),
            frames_valid(final(self).free_pages(), final(self).kernel_end()),
            page == 0 <==> old(self).free_pages().len() == 0,
            old(self).free_pages().len() > 0 ==> page == old(self).free_pages()[0]
                && final(self).free_pages() == old(self).free_pages().subrange(
                1,
                old(self).free_pages().len() as int,
            ),
            old(self).free_pages().len() == 0 ==> final(self).free_pages().len() == 0,
    {
        let ghost old_free = self.free@;
        let ghost old_runs = self.runs@;
        let page: usize = self.head;
        proof {
            if old_free.len() > 0 {
                assert(is_free_frame(old_free[0] as int, self.kernel_end as int));
            }
        }
        if page != 0 {
            assert(is_free_frame(old_free[0] as int, self.kernel_end as int));
            assert(self.runs@.contains_key(page));
            let removed = self.runs.remove(&page);
            match removed {
                Some(run) => {
                    self.head = run.next;
                },
                None => {},
            }
            proof {
                let new_free = old_free.drop_first();
                self.free@ = new_free;
                assert(old_runs[old_free[0]].next == link_after(old_free, 0));
                assert forall|i: int| 0 <= i < new_free.len() implies #[trigger] is_free_frame(
                    new_free[i] as int,
                    self.kernel_end as int,
                ) by {
                    assert(new_free[i] == old_free[i + 1]);
                }
                assert forall|p: usize| #[trigger] self.runs@.contains_key(p) <==> new_free.contains(p) by {
                    assert(old_runs.contains_key(p) <==> old_free.contains(p));
                    if new_free.contains(p) {
                        let k = choose|k: int| 0 <= k < new_free.len() && new_free[k] == p;
                        assert(old_free[k + 1] == p);
                        assert(old_free.contains(p));
                    }
                    if old_free.contains(p) && p != page {
                        let k = choose|k: int| 0 <= k < old_free.len() && old_free[k] == p;
                        assert(new_free[k - 1] == p);
                    }
                }
                assert forall|i: int| 0 <= i < new_free.len() implies #[trigger] self.runs@[new_free[i]].next
                    == link_after(new_free, i) by {
                    assert(new_free[i] == old_free[i + 1]);
                    assert(old_free.contains(old_free[i + 1]));
                    assert(old_runs[old_free[i + 1]].next == link_after(old_free, i + 1));
                }
            }
        }
        page
    }
}


/// Law: allocating right after freeing `pa` hands `pa` back and leaves the
/// free list as it was before the free.
pub proof fn lemma_alloc_undoes_free(s: Seq<usize>, pa: usize)
    ensures
        alloc_result(list_after_free(s, pa)) == pa,
        list_after_alloc(list_after_free(s, pa)) == s,
{
    assert(list_after_free(s, pa).drop_first() =~= s);
}

/// Law: a page handed out by an allocation from a valid free list is
/// itself acceptable to a later free: it is a valid frame and no longer on
/// the list.
pub proof fn lemma_allocated_page_can_be_freed(s: Seq<usize>, kernel_end: usize)
    requires
        frames_valid(s, kernel_end),
        s.len() > 0,
    ensures
        is_free_frame(alloc_result(s) as int, kernel_end as int),
        !list_after_alloc(s).contains(alloc_result(s)),
        frames_valid(list_after_alloc(s), kernel_end),
{
    let t = list_after_alloc(s);
    assert(is_free_frame(s[0] as int, kernel_end as int));
    if t.contains(s[0]) {
        let k = choose|k: int| 0 <= k < t.len() && t[k] == s[0];
        assert(s[k + 1] == s[0]);
    }
    assert forall|i: int| 0 <= i < t.len() implies #[trigger] is_free_frame(t[i] as int, kernel_end as int) by {
        assert(t[i] == s[i + 1]);
    }
}

/// Law: freeing a valid frame that is not yet free keeps the free list
/// valid.
pub proof fn lemma_free_keeps_frames_valid(s: Seq<usize>, kernel_end: usize, pa: usize)
    requires
        frames_valid(s, kernel_end),
        is_free_frame(pa as int, kernel_end as int),
        !s.contains(pa),
    ensures
        frames_valid(list_after_free(s, pa), kernel_end),
{
    let t = list_after_free(s, pa);
    assert forall|i: int| 0 <= i < t.len() implies #[trigger] is_free_frame(t[i] as int, kernel_end as int) by {
        if i > 0 {
            assert(t[i] == s[i - 1]);
        }
    }
    assert forall|i: int, j: int| 0 <= i < t.len() && 0 <= j < t.len() && i != j implies t[i] != t[j] by {
        if i > 0 {
            assert(t[i] == s[i - 1]);
        }
        if j > 0 {
            assert(t[j] == s[j - 1]);
        }
        if i == 0 {
            assert(s.contains(t[j]) || j == 0);
        }
        if j == 0 {
            assert(s.contains(t[i]) || i == 0);
        }
    }
}

} // verus!
