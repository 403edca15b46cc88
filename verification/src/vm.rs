//! Sv39 virtual memory: page-table entry encoding, the three-level page
//! table walk, region mapping, and the kernel address space.

use vstd::prelude::*;
use crate::mm::{PGSIZE, PHYSTOP, PhysicalMemoryAllocator};

verus! {

/// A page-table entry: physical page number in bits [53:10], flags below.
pub type Pte = u64;

/// Size of a page as a 64-bit quantity.
pub const PAGE: u64 = 4096;

/// Number of entries in one page-table page.
pub const PT_ENTRIES: usize = 512;

/// Maximum number of processes, each with its own kernel stack.
pub const NPROC: usize = 64;

/// Upper bound (exclusive) of the Sv39 virtual address space used here.
pub const MAXVA: u64 = 0x40_0000_0000;

/// Virtual address of the trampoline page, the highest page.
pub const TRAMPOLINE: u64 = 0x3F_FFFF_F000;

/// Physical (and virtual) base address of the kernel image.
pub const KERNBASE: u64 = 0x8020_0000;

/// UART registers.
pub const UART0: u64 = 0x1000_0000;

/// VirtIO disk controller registers.
pub const VIRTIO0: u64 = 0x1000_1000;

/// Platform-level interrupt controller registers.
pub const PLIC: u64 = 0x0c00_0000;

/// Size of the PLIC register region (4 MiB).
pub const PLIC_SIZE: u64 = 0x0040_0000;

/// Valid bit.
pub const PTE_V: u64 = 1;

/// Read permission.
pub const PTE_R: u64 = 2;

/// Write permission.
pub const PTE_W: u64 = 4;

/// Execute permission.
pub const PTE_X: u64 = 8;

/// Extracts the 9-bit page-table index for `level` from a virtual address.
pub fn px(level: u64, va: u64) -> (r: usize)
    requires
        level <= 2,
    ensures
        r < PT_ENTRIES,
        r == (va >> (12 + level * 9) as u64) & 0x1ff,
{
    let shift: u64 = 12 + level * 9;
    let x: u64 = (va >> shift) & 0x1ff;
    assert(x < 512) by (bit_vector)
        requires
            x == (va >> shift) & 0x1ff,
    ;
    let r: usize = x as usize;
    r
}

/// Virtual address of the kernel stack of process `i`: below the
/// trampoline, each stack followed by an unmapped guard page.
pub fn kstack(i: u64) -> (r: u64)
    requires
        (i + 1) * 2 * PAGE <= TRAMPOLINE,
    ensures
        r == TRAMPOLINE - (i + 1) * 2 * PAGE,
{
    TRAMPOLINE - (i + 1) * 2 * PAGE
}

/// The physical address a page-table entry points to.
pub open spec fn pte_addr(pte: u64) -> u64 {
    (pte >> 10u64) << 12u64
}

/// The entry that points to physical address `pa` with no flags set.
pub open spec fn pte_of(pa: u64) -> u64 {
    (pa >> 12u64) << 10u64
}

/// Whether the valid bit of an entry is set.
pub open spec fn pte_valid(pte: u64) -> bool {
    pte & PTE_V != 0
}

/// Converts a page-table entry to the physical address it points to.
pub fn pte2pa(pte: Pte) -> (r: u64)
    ensures
        r == pte_addr(pte),
        r % PAGE == 0,
        r == ((pte / 1024) * 4096) % 0x1_0000_0000_0000_0000,
{
    let r: u64 = (pte >> 10) << 12;
    assert(r % 4096 == 0 && r == ((pte / 1024) * 4096) % 0x1_0000_0000_0000_0000) by (bit_vector)
        requires
            r == (pte >> 10u64) << 12u64,
    ;
    r
}

/// Converts a physical address to a page-table entry with no flags set.
pub fn pa2pte(pa: u64) -> (r: Pte)
    ensures
        r == pte_of(pa),
        r == (pa / 4096) * 1024,
        r & 0x3ff == 0,
{
    let r: u64 = (pa >> 12) << 10;
    assert(r == (pa / 4096) * 1024 && r & 0x3ff == 0) by (bit_vector)
        requires
            r == (pa >> 12u64) << 10u64,
    ;
    r
}

/// Law: an entry built from a physical address and flags below bit 10
/// points back to that address rounded down to its page.
pub proof fn lemma_pte_round_trip(pa: u64, flags: u64)
    requires
        flags < 1024,
    ensures
        pte_addr(pte_of(pa) | flags) == pa - pa % PAGE,
        (pte_of(pa) | flags) & 0x3ff == flags,
{
    assert(((((pa >> 12u64) << 10u64) | flags) >> 10u64) << 12u64 == pa - pa % 4096
        && (((pa >> 12u64) << 10u64) | flags) & 0x3ff == flags) by (bit_vector)
        requires
            flags < 1024,
    ;
}


/// The 9-bit index of `va` in a page-table page of the given level.
pub open spec fn px_spec(level: u64, va: u64) -> u64 {
    (va >> (12 + level * 9) as u64) & 0x1ff
}

/// Every page-table index is below 512.
pub proof fn lemma_px_bound(level: u64, va: u64)
    ensures
        px_spec(level, va) < 512,
{
    let sh: u64 = (12 + level * 9) as u64;
    assert((va >> sh) & 0x1ff < 512) by (bit_vector);
}

/// Allocation of a page-table page failed: the free list ran out.
pub struct OutOfMemory;

/// A set of Sv39 page tables: the page-table pages held in physical memory,
/// by physical address, and the root table of the address space.
pub struct PageTables {
    /// Physical address of the root (level 2) table.
    root: u64,
    /// Page-table pages by physical address, 512 entries each.
    tables: vstd::hash_map::HashMapWithView<u64, Vec<u64>>,
    /// Level of each page-table page: 2 for the root, 0 for leaf tables.
    levels: Ghost<Map<u64, int>>,
}

impl PageTables {
    /// Physical address of the root table.
    pub closed spec fn root(&self) -> u64 {
        self.root
    }

    /// Entry `i` of the table page at `t`.
    closed spec fn entry(&self, t: u64, i: int) -> u64 {
        self.tables@[t]@[i]
    }

    /// Whether `t` is a table page of the given level.
    pub closed spec fn is_table(&self, t: u64, level: int) -> bool {
        &&& self.tables@.contains_key(t)
        &&& self.levels@[t] == level
    }

    /// Entry `i` of a non-leaf table `t` is valid: it points to the next
    /// level's table.
    closed spec fn link(&self, t: u64, i: int) -> bool {
        &&& self.tables@.contains_key(t)
        &&& self.levels@[t] > 0
        &&& 0 <= i < 512
        &&& pte_valid(self.entry(t, i))
    }

    /// The well-formed page-table tree: every table has 512 entries, every
    /// valid non-leaf entry carries the valid bit alone among its flags and
    /// points to a table one level down, and no table is pointed to twice.
    pub closed spec fn wf(&self) -> bool {
        &&& self.tables@.dom() == self.levels@.dom()
        &&& self.is_table(self.root, 2)
        &&& forall|t: u64| #[trigger]
            self.tables@.contains_key(t) ==> self.tables@[t]@.len() == 512 && 0 <= self.levels@[t]
                <= 2
        &&& forall|t: u64, i: int| #[trigger]
            self.link(t, i) ==> {
                let c = pte_addr(self.entry(t, i));
                &&& self.tables@.contains_key(c)
                &&& self.levels@[c] == self.levels@[t] - 1
            }
        &&& forall|t: u64, i: int| #[trigger]
            self.link(t, i) ==> self.entry(t, i) & 0x3ff == PTE_V
        &&& forall|t1: u64, i1: int, t2: u64, i2: int|
            #![trigger self.link(t1, i1), self.link(t2, i2)]
            self.link(t1, i1) && self.link(t2, i2) && pte_addr(self.entry(t1, i1)) == pte_addr(
                self.entry(t2, i2),
            ) ==> t1 == t2 && i1 == i2
    }

    /// None of the pages of `s` holds a page table.
    pub closed spec fn disjoint_from(&self, s: Seq<usize>) -> bool {
        forall|i: int| 0 <= i < s.len() ==> !#[trigger] self.tables@.contains_key(s[i] as u64)
    }

    /// The 512 entries of the table page at `t`.
    pub closed spec fn entries(&self, t: u64) -> Seq<u64> {
        self.tables@[t]@
    }

    /// The level-1 table that translates `va`, if the root entry is valid.
    pub closed spec fn mid_table(&self, va: u64) -> Option<u64> {
        let e = self.entry(self.root, px_spec(2, va) as int);
        if pte_valid(e) {
            Some(pte_addr(e))
        } else {
            None
        }
    }

    /// The leaf (level-0) table that translates `va`, if both upper entries
    /// are valid.
    pub closed spec fn leaf_table(&self, va: u64) -> Option<u64> {
        match self.mid_table(va) {
            Some(t1) => {
                let e = self.entry(t1, px_spec(1, va) as int);
                if pte_valid(e) {
                    Some(pte_addr(e))
                } else {
                    None
                }
            },
            None => None,
        }
    }

    /// The leaf slot (table, index) that translates `va`, if it exists.
    pub closed spec fn leaf_slot(&self, va: u64) -> Option<(u64, usize)> {
        match self.leaf_table(va) {
            Some(t0) => Some((t0, px_spec(0, va) as usize)),
            None => None,
        }
    }

    /// The valid leaf entry that maps `va`, if any.
    pub closed spec fn lookup(&self, va: u64) -> Option<u64> {
        match self.leaf_table(va) {
            Some(t0) => {
                let e = self.entry(t0, px_spec(0, va) as int);
                if pte_valid(e) {
                    Some(e)
                } else {
                    None
                }
            },
            None => None,
        }
    }

    /// How many page-table pages a walk that allocates must add for `va`.
    pub closed spec fn missing(&self, va: u64) -> nat {
        match self.mid_table(va) {
            None => 2,
            Some(t1) => if pte_valid(self.entry(t1, px_spec(1, va) as int)) {
                0
            } else {
                1
            },
        }
    }
}


impl PageTables {
    /// Reads entry `i` of the table page at `t`.
    fn read_entry(&self, t: u64, i: usize) -> (e: u64)
        requires
            self.tables@.contains_key(t),
            i < self.tables@[t]@.len(),
        ensures
            e == self.entry(t, i as int),
    {
        match self.tables.get(&t) {
            Some(tab) => tab[i],
            None => 0,
        }
    }

    /// Writes `v` into entry `i` of the table page at `t`.
    fn write_entry(&mut self, t: u64, i: usize, v: u64)
        requires
            old(self).tables@.contains_key(t),
            i < old(self).tables@[t]@.len(),
        ensures
            final(self).root == old(self).root,
            final(self).levels == old(self).levels,
            final(self).tables@.dom() == old(self).tables@.dom(),
            final(self).tables@[t]@ == old(self).tables@[t]@.update(i as int, v),
            forall|u: u64| u != t ==> #[trigger] final(self).tables@[u] == old(self).tables@[u],
    {
        let removed = self.tables.remove(&t);
        match removed {
            Some(tab) => {
                let mut tab = tab;
                tab[i] = v;
                self.tables.insert(t, tab);
            },
            None => {},
        }
        assert(self.tables@.dom() =~= old(self).tables@.dom());
    }

    /// Follows entry `px(level, va)` of the table `t` one level down. When
    /// the entry is invalid and `alloc` is set, a fresh zeroed table page is
    /// taken from `kmem` and linked in; otherwise the walk stops.
    fn descend(
        &mut self,
        kmem: &mut PhysicalMemoryAllocator,
        t: u64,
        level: u64,
        va: u64,
        alloc: bool,
    ) -> (r: Option<u64>)
        requires
            old(self).wf(),
            old(kmem).wf(),
            old(self).disjoint_from(old(kmem).free_pages()),
            old(self).is_table(t, level as int),
            level == 1 || level == 2,
        ensures
            final(self).wf(),
            final(kmem).wf(),
            final(self).disjoint_from(final(kmem).free_pages()),
            final(kmem).kernel_end() == old(kmem).kernel_end(),
            final(self).root == old(self).root,
            forall|x: u64| #[trigger] final(self).lookup(x) == old(self).lookup(x),
            forall|u: u64|
                #[trigger] old(self).tables@.contains_key(u) && u != t ==> final(self).tables@[u]
                    == old(self).tables@[u] && final(self).levels@[u] == old(self).levels@[u],
            forall|u: u64| #[trigger]
                old(self).tables@.contains_key(u) ==> final(self).tables@.contains_key(u)
                    && final(self).levels@[u] == old(self).levels@[u],
            forall|j: int|
                0 <= j < 512 && j != px_spec(level, va) ==> #[trigger] final(self).entry(t, j)
                    == old(self).entry(t, j),
            ({
                let e = old(self).entry(t, px_spec(level, va) as int);
                if pte_valid(e) {
                    &&& r == Some(pte_addr(e))
                    &&& *final(self) == *old(self)
                    &&& final(kmem).free_pages() == old(kmem).free_pages()
                } else if !alloc || old(kmem).free_pages().len() == 0 {
                    &&& r is None
                    &&& *final(self) == *old(self)
                    &&& final(kmem).free_pages() == old(kmem).free_pages()
                } else {
                    &&& r == Some(old(kmem).free_pages()[0] as u64)
                    &&& final(self).entry(t, px_spec(level, va) as int) == pte_of(
                        old(kmem).free_pages()[0] as u64,
                    ) | PTE_V
                    &&& !old(self).tables@.contains_key(old(kmem).free_pages()[0] as u64)
                    &&& final(kmem).free_pages() == old(kmem).free_pages().drop_first()
                    &&& final(self).tables@[old(kmem).free_pages()[0] as u64]@ == Seq::new(
                        512,
                        |j: int| 0u64,
                    )
                }
            }),
            r matches Some(c) ==> {
                &&& final(self).is_table(c, level - 1)
                &&& pte_valid(final(self).entry(t, px_spec(level, va) as int))
                &&& pte_addr(final(self).entry(t, px_spec(level, va) as int)) == c
            },
            forall|x: u64| #[trigger]
                old(self).mid_table(x) is Some ==> final(self).mid_table(x) == old(self).mid_table(x),
            forall|x: u64| #[trigger]
                old(self).leaf_table(x) is Some ==> final(self).leaf_table(x) == old(self).leaf_table(
                    x,
                ),
            level == 2 && t == old(self).root ==> forall|x: u64| #[trigger]
                final(self).leaf_table(x) is Some <==> old(self).leaf_table(x) is Some,
            level == 2 && t == old(self).root && r is Some ==> forall|x: u64| #[trigger]
                final(self).mid_table(x) is Some <==> (old(self).mid_table(x) is Some || px_spec(2, x)
                    == px_spec(2, va)),
            level == 1 ==> forall|x: u64| #[trigger]
                final(self).mid_table(x) == old(self).mid_table(x),
            level == 1 && old(self).mid_table(va) == Some(t) && r is Some ==> forall|x: u64|
                #[trigger]
                final(self).leaf_table(x) is Some <==> (old(self).leaf_table(x) is Some || (px_spec(
                    2,
                    x,
                ) == px_spec(2, va) && px_spec(1, x) == px_spec(1, va))),
    {
        let idx: usize = px(level, va);
        let e: u64 = self.read_entry(t, idx);
        if e & PTE_V != 0 {
            proof {
                assert(self.link(t, idx as int));
                if level == 2 && t == self.root {
                    assert forall|x: u64| #[trigger] self.mid_table(x) is Some <==> (
                    self.mid_table(x) is Some || px_spec(2, x) == px_spec(2, va)) by {
                        if px_spec(2, x) == px_spec(2, va) {
                            assert(self.mid_table(x) is Some);
                        }
                    }
                }
                if level == 1 && self.mid_table(va) == Some(t) {
                    assert forall|x: u64| #[trigger] self.leaf_table(x) is Some <==> (
                    self.leaf_table(x) is Some || (px_spec(2, x) == px_spec(2, va) && px_spec(1, x)
                        == px_spec(1, va))) by {
                        if px_spec(2, x) == px_spec(2, va) && px_spec(1, x) == px_spec(1, va) {
                            assert(self.mid_table(x) == Some(t));
                            assert(self.leaf_table(x) is Some);
                        }
                    }
                }
            }
            return Some(pte2pa(e));
        }
        if !alloc {
            return None;
        }
        let ghost old_self = *self;
        let ghost old_free = kmem.free_pages();
        proof {
            kmem.lemma_frames_valid();
        }
        let page: usize = kmem.kalloc();
        if page == 0 {
            return None;
        }
        let p: u64 = page as u64;
        proof {
            assert(crate::mm::is_free_frame(old_free[0] as int, kmem.kernel_end() as int));
            assert(!old_self.tables@.contains_key(old_free[0] as u64));
        }
        let zeroed: Vec<u64> = vec![0u64; 512];
        self.tables.insert(p, zeroed);
        proof {
            self.levels@ = self.levels@.insert(p, level - 1);
        }
        let link: u64 = pa2pte(p) | PTE_V;
        proof {
            lemma_pte_round_trip(p, PTE_V);
            assert(p % 4096 == 0);
            assert(link & 1 != 0) by (bit_vector)
                requires
                    link == pte_of(p) | 1u64,
            ;
        }
        self.write_entry(t, idx, link);
        proof {
            assert(pte_addr(link) == p);
            assert(pte_valid(link));
            assert(self.tables@[p]@ =~= Seq::new(512, |j: int| 0u64)) by {
                assert forall|j: int| 0 <= j < 512 implies self.tables@[p]@[j] == 0u64 by {
                    assert(vstd::pervasive::cloned(0u64, zeroed@[j]));
                }
            }
            assert(self.tables@.dom() =~= self.levels@.dom());
            assert forall|u: u64| #[trigger]
                self.tables@.contains_key(u) implies self.tables@[u]@.len() == 512 && 0
                <= self.levels@[u] <= 2 by {
                if u != p && u != t {
                    assert(old_self.tables@.contains_key(u));
                }
                if u == t {
                    assert(old_self.tables@.contains_key(t));
                }
            }
            assert forall|u: u64, j: int| #[trigger] self.link(u, j) implies {
                let c = pte_addr(self.entry(u, j));
                &&& self.tables@.contains_key(c)
                &&& self.levels@[c] == self.levels@[u] - 1
            } by {
                if u == p {
                    assert(self.entry(p, j) == 0u64);
                    assert(0u64 & 1u64 == 0) by (bit_vector);
                } else if u == t && j == idx as int {
                } else {
                    assert(self.entry(u, j) == old_self.entry(u, j));
                    assert(old_self.link(u, j));
                    let c = pte_addr(old_self.entry(u, j));
                    assert(old_self.tables@.contains_key(c));
                    assert(c != p);
                }
            }
            assert forall|u: u64, j: int| #[trigger] self.link(u, j) implies self.entry(u, j)
                & 0x3ff == PTE_V by {
                if u == p {
                    assert(self.entry(p, j) == 0u64);
                    assert(0u64 & 1u64 == 0) by (bit_vector);
                } else if u == t && j == idx as int {
                } else {
                    assert(self.entry(u, j) == old_self.entry(u, j));
                    assert(old_self.link(u, j));
                }
            }
            assert forall|t1: u64, i1: int, t2: u64, i2: int|
                self.link(t1, i1) && self.link(t2, i2) && pte_addr(self.entry(t1, i1)) == pte_addr(
                    self.entry(t2, i2),
                ) implies t1 == t2 && i1 == i2 by {
                if t1 == p {
                    assert(self.entry(p, i1) == 0u64);
                    assert(0u64 & 1u64 == 0) by (bit_vector);
                }
                if t2 == p {
                    assert(self.entry(p, i2) == 0u64);
                    assert(0u64 & 1u64 == 0) by (bit_vector);
                }
                let new1 = t1 == t && i1 == idx as int;
                let new2 = t2 == t && i2 == idx as int;
                if !new1 && t1 != p {
                    assert(self.entry(t1, i1) == old_self.entry(t1, i1));
                    assert(old_self.link(t1, i1));
                }
                if !new2 && t2 != p {
                    assert(self.entry(t2, i2) == old_self.entry(t2, i2));
                    assert(old_self.link(t2, i2));
                }
                if new1 && !new2 && t2 != p {
                    assert(old_self.tables@.contains_key(pte_addr(old_self.entry(t2, i2))));
                }
                if new2 && !new1 && t1 != p {
                    assert(old_self.tables@.contains_key(pte_addr(old_self.entry(t1, i1))));
                }
            }
            assert(self.is_table(self.root, 2));
            let new_free = kmem.free_pages();
            assert forall|i: int| 0 <= i < new_free.len() implies !#[trigger] self.tables@.contains_key(
                new_free[i] as u64,
            ) by {
                assert(new_free[i] == old_free[i + 1]);
                assert(!old_self.tables@.contains_key(old_free[i + 1] as u64));
                assert(old_free[i + 1] != old_free[0]);
                assert(crate::mm::is_free_frame(old_free[i + 1] as int, kmem.kernel_end() as int));
            }
            assert forall|x: u64| #[trigger] self.lookup(x) == old_self.lookup(x) by {
                lemma_fresh_link_keeps_lookup(old_self, *self, t, idx as int, p, x);
            }
            assert forall|x: u64| #[trigger] old_self.mid_table(x) is Some implies self.mid_table(x)
                == old_self.mid_table(x) by {
                lemma_fresh_link_keeps_lookup(old_self, *self, t, idx as int, p, x);
            }
            assert forall|x: u64| #[trigger] old_self.leaf_table(x) is Some implies self.leaf_table(x)
                == old_self.leaf_table(x) by {
                lemma_fresh_link_keeps_lookup(old_self, *self, t, idx as int, p, x);
            }
            if level == 2 && t == old_self.root {
                assert forall|x: u64| #[trigger] self.leaf_table(x) is Some <==> old_self.leaf_table(
                    x,
                ) is Some by {
                    lemma_fresh_link_keeps_lookup(old_self, *self, t, idx as int, p, x);
                    if old_self.mid_table(x) == Some(t) {
                        lemma_px_bound(2, x);
                        assert(old_self.link(t, px_spec(2, x) as int));
                    }
                }
                assert forall|x: u64| #[trigger] self.mid_table(x) is Some <==> (
                old_self.mid_table(x) is Some || px_spec(2, x) == px_spec(2, va)) by {
                    lemma_fresh_link_keeps_lookup(old_self, *self, t, idx as int, p, x);
                }
            }
            if level == 1 {
                assert forall|x: u64| #[trigger] self.mid_table(x) == old_self.mid_table(x) by {
                    lemma_fresh_link_keeps_lookup(old_self, *self, t, idx as int, p, x);
                    assert(t != old_self.root);
                }
                if old_self.mid_table(va) == Some(t) {
                    assert forall|x: u64| #[trigger] self.leaf_table(x) is Some <==> (
                    old_self.leaf_table(x) is Some || (px_spec(2, x) == px_spec(2, va) && px_spec(
                        1,
                        x,
                    ) == px_spec(1, va))) by {
                        lemma_fresh_link_keeps_lookup(old_self, *self, t, idx as int, p, x);
                        let r0 = old_self.root;
                        if old_self.mid_table(x) == Some(t) && px_spec(2, x) != px_spec(2, va) {
                            lemma_px_bound(2, x);
                            lemma_px_bound(2, va);
                            assert(old_self.link(r0, px_spec(2, x) as int));
                            assert(old_self.link(r0, px_spec(2, va) as int));
                        }
                    }
                }
            }
        }
        Some(p)
    }
}

/// Linking a fresh, zeroed table page into a previously invalid entry
/// changes no translation.
proof fn lemma_fresh_link_keeps_lookup(old_pt: PageTables, new_pt: PageTables, t: u64, idx: int, p: u64, x: u64)
    requires
        old_pt.wf(),
        new_pt.root == old_pt.root,
        old_pt.tables@.contains_key(t),
        old_pt.levels@[t] > 0,
        0 <= idx < 512,
        !pte_valid(old_pt.entry(t, idx)),
        !old_pt.tables@.contains_key(p),
        new_pt.tables@.contains_key(p),
        new_pt.tables@[p]@ == Seq::new(512, |j: int| 0u64),
        new_pt.levels@[p] == old_pt.levels@[t] - 1,
        pte_valid(new_pt.entry(t, idx)),
        pte_addr(new_pt.entry(t, idx)) == p,
        forall|j: int| 0 <= j < 512 && j != idx ==> #[trigger] new_pt.entry(t, j) == old_pt.entry(t, j),
        forall|u: u64| old_pt.tables@.contains_key(u) && u != t ==> #[trigger] new_pt.tables@[u] == old_pt.tables@[u],
    ensures
        new_pt.lookup(x) == old_pt.lookup(x),
        old_pt.mid_table(x) is Some ==> new_pt.mid_table(x) == old_pt.mid_table(x),
        old_pt.leaf_table(x) is Some ==> new_pt.leaf_table(x) == old_pt.leaf_table(x),
        t == old_pt.root && idx == px_spec(2, x) ==> new_pt.mid_table(x) == Some(p)
            && new_pt.leaf_table(x) is None,
        !(t == old_pt.root && idx == px_spec(2, x)) ==> new_pt.mid_table(x) == old_pt.mid_table(
            x,
        ),
        new_pt.leaf_table(x) is Some <==> (old_pt.leaf_table(x) is Some || (old_pt.mid_table(x)
            == Some(t) && idx == px_spec(1, x))),
{
    assert(0u64 & 1u64 == 0) by (bit_vector);
    let r = old_pt.root;
    let a2: u64 = px_spec(2, x);
    let a1: u64 = px_spec(1, x);
    let a0: u64 = px_spec(0, x);
    assert(a2 < 512 && a1 < 512 && a0 < 512) by (bit_vector)
        requires
            a2 == (x >> 30u64) & 0x1ff,
            a1 == (x >> 21u64) & 0x1ff,
            a0 == (x >> 12u64) & 0x1ff,
    ;
    let i2 = a2 as int;
    let i1 = a1 as int;
    let i0 = a0 as int;
    assert(new_pt.entry(r, i2) == old_pt.entry(r, i2) || (r == t && i2 == idx));
    if r == t && i2 == idx {
        assert(old_pt.mid_table(x) is None);
        assert(new_pt.mid_table(x) == Some(p));
        assert(new_pt.entry(p, i1) == 0u64);
    } else {
        assert(new_pt.mid_table(x) == old_pt.mid_table(x));
        match old_pt.mid_table(x) {
            None => {},
            Some(t1) => {
                assert(old_pt.link(r, i2));
                assert(old_pt.tables@.contains_key(t1));
                assert(old_pt.levels@[t1] == 1);
                assert(t1 != r);
                assert(t1 != p);
                assert(new_pt.entry(t1, i1) == old_pt.entry(t1, i1) || (t1 == t && i1 == idx));
                if t1 == t && i1 == idx {
                    assert(old_pt.leaf_table(x) is None);
                    assert(new_pt.leaf_table(x) == Some(p));
                    assert(new_pt.entry(p, i0) == 0u64);
                } else {
                    assert(new_pt.leaf_table(x) == old_pt.leaf_table(x));
                    match old_pt.leaf_table(x) {
                        None => {},
                        Some(t0) => {
                            assert(old_pt.link(t1, i1));
                            assert(old_pt.tables@.contains_key(t0));
                            assert(old_pt.levels@[t0] == 0);
                            assert(t0 != t);
                            assert(t0 != p);
                            assert(new_pt.entry(t0, i0) == old_pt.entry(t0, i0));
                        },
                    }
                }
            },
        }
    }
}


impl PageTables {
    /// Finds the leaf entry slot that maps `va` by walking the three table
    /// levels from the root. When `alloc` is set, missing level-1 and leaf
    /// tables are taken from `kmem` (zeroed) and linked in; the walk fails
    /// when an entry is missing and `alloc` is not set, or when `kmem` runs
    /// out of pages.
    pub fn walk(&mut self, kmem: &mut PhysicalMemoryAllocator, va: u64, alloc: bool) -> (r: Option<
        (u64, usize),
    >)
        requires
            old(self).wf(),
            old(kmem).wf(),
            old(self).disjoint_from(old(kmem).free_pages()),
            va < MAXVA,
        ensures
            final(self).wf(),
            final(kmem).wf(),
            final(self).disjoint_from(final(kmem).free_pages()),
            final(kmem).kernel_end() == old(kmem).kernel_end(),
            final(self).root() == old(self).root(),
            forall|x: u64| #[trigger] final(self).lookup(x) == old(self).lookup(x),
            !alloc ==> {
                &&& r == old(self).leaf_slot(va)
                &&& *final(self) == *old(self)
                &&& final(kmem).free_pages() == old(kmem).free_pages()
            },
            alloc ==> (r is Some <==> old(self).missing(va) <= old(kmem).free_pages().len()),
            alloc && r is Some ==> final(kmem).free_pages() == old(kmem).free_pages().skip(
                old(self).missing(va) as int,
            ),
            alloc && r is None ==> final(kmem).free_pages().len() == 0,
            r is Some ==> final(self).leaf_slot(va) == r,
            r matches Some((t, i)) ==> final(self).is_table(t, 0) && i as u64 == px_spec(0, va)
                && i < 512,
            forall|x: u64| #[trigger]
                old(self).mid_table(x) is Some ==> final(self).mid_table(x) == old(self).mid_table(x),
            forall|x: u64| #[trigger]
                old(self).leaf_table(x) is Some ==> final(self).leaf_table(x) == old(self).leaf_table(
                    x,
                ),
            r is Some ==> forall|x: u64| #[trigger]
                final(self).mid_table(x) is Some <==> (old(self).mid_table(x) is Some || px_spec(2, x)
                    == px_spec(2, va)),
            r is Some ==> forall|x: u64| #[trigger]
                final(self).leaf_table(x) is Some <==> (old(self).leaf_table(x) is Some || (px_spec(
                    2,
                    x,
                ) == px_spec(2, va) && px_spec(1, x) == px_spec(1, va))),
            forall|u: u64| #[trigger]
                old(self).has_table(u) ==> final(self).has_table(u) && final(self).entries(u).len()
                    == 512,
            forall|u: u64, j: int|
                old(self).has_table(u) && 0 <= j < 512 && #[trigger] final(self).entries(u)[j]
                    != old(self).entries(u)[j] ==> !pte_valid(old(self).entries(u)[j]) && ((u
                    == old(self).root() && j == px_spec(2, va)) || (old(self).mid_table(va) == Some(
                    u,
                ) && j == px_spec(1, va))),
            alloc && r is Some && old(self).missing(va) == 2 ==> {
                let f = old(kmem).free_pages();
                &&& final(self).entries(old(self).root())[px_spec(2, va) as int] == pte_of(
                    f[0] as u64,
                ) | PTE_V
                &&& final(self).mid_table(va) == Some(f[0] as u64)
                &&& final(self).leaf_table(va) == Some(f[1] as u64)
                &&& final(self).entries(f[0] as u64) == Seq::new(
                    512,
                    |j: int|
                        if j == px_spec(1, va) {
                            pte_of(f[1] as u64) | PTE_V
                        } else {
                            0u64
                        },
                )
                &&& final(self).entries(f[1] as u64) == Seq::new(512, |j: int| 0u64)
            },
            alloc && r is Some && old(self).missing(va) == 1 ==> {
                let f = old(kmem).free_pages();
                &&& final(self).entries(old(self).mid_table(va)->0)[px_spec(1, va) as int] == pte_of(
                    f[0] as u64,
                ) | PTE_V
                &&& final(self).leaf_table(va) == Some(f[0] as u64)
                &&& final(self).entries(f[0] as u64) == Seq::new(512, |j: int| 0u64)
            },
    {
        let root: u64 = self.root;
        let ghost s0 = *self;
        let ghost f0 = kmem.free_pages();
        let t1 = match self.descend(kmem, root, 2, va, alloc) {
            Some(t) => t,
            None => {
                return None;
            },
        };
        let ghost s1 = *self;
        proof {
            assert(s1.mid_table(va) == Some(t1));
            lemma_px_bound(2, va);
            lemma_px_bound(1, va);
            assert forall|u: u64, j: int|
                s0.has_table(u) && 0 <= j < 512 && #[trigger] s1.entries(u)[j] != s0.entries(u)[j]
                    implies !pte_valid(s0.entries(u)[j]) && u == root && j == px_spec(2, va) by {
                if u != root {
                    assert(s1.tables@[u] == s0.tables@[u]);
                } else if j != px_spec(2, va) {
                    assert(s1.entry(root, j) == s0.entry(root, j));
                }
            }
        }
        let t0 = match self.descend(kmem, t1, 1, va, alloc) {
            Some(t) => t,
            None => {
                proof {
                    if alloc {
                        if pte_valid(s0.entry(root, px_spec(2, va) as int)) {
                            assert(s0.missing(va) == 1);
                        } else {
                            lemma_px_bound(1, va);
                            assert(s1.entry(t1, px_spec(1, va) as int) == 0u64);
                            assert(0u64 & 1u64 == 0) by (bit_vector);
                            assert(s0.missing(va) == 2);
                        }
                    } else {
                        assert(s0.leaf_slot(va) is None);
                    }
                    assert forall|u: u64, j: int|
                        s0.has_table(u) && 0 <= j < 512 && #[trigger] self.entries(u)[j]
                            != s0.entries(u)[j] implies !pte_valid(s0.entries(u)[j]) && u == root
                        && j == px_spec(2, va) by {
                        assert(s1.entries(u)[j] != s0.entries(u)[j]);
                    }
                }
                return None;
            },
        };
        let i: usize = px(0, va);
        proof {
            assert forall|u: u64, j: int|
                s0.has_table(u) && 0 <= j < 512 && #[trigger] self.entries(u)[j] != s0.entries(
                    u,
                )[j] implies !pte_valid(s0.entries(u)[j]) && ((u == root && j == px_spec(2, va))
                || (s0.mid_table(va) == Some(u) && j == px_spec(1, va))) by {
                assert(s1.has_table(u));
                if u != t1 {
                    assert(self.tables@[u] == s1.tables@[u]);
                    assert(s1.entries(u)[j] != s0.entries(u)[j]);
                } else if j != px_spec(1, va) {
                    assert(self.entry(t1, j) == s1.entry(t1, j));
                    assert(s1.entries(u)[j] != s0.entries(u)[j]);
                } else {
                    assert(t1 != root);
                    if !pte_valid(s0.entry(root, px_spec(2, va) as int)) {
                        assert(!s0.tables@.contains_key(t1));
                    }
                    assert(s0.mid_table(va) == Some(t1));
                    assert(s1.tables@[t1] == s0.tables@[t1]);
                }
            }
        }
        proof {
            assert(t1 != root);
            assert(self.entry(root, px_spec(2, va) as int) == s1.entry(root, px_spec(2, va) as int));
            assert(self.mid_table(va) == Some(t1));
            assert(self.leaf_table(va) == Some(t0));
            if alloc {
                if pte_valid(s0.entry(root, px_spec(2, va) as int)) {
                    if pte_valid(s1.entry(t1, px_spec(1, va) as int)) {
                        assert(s0.missing(va) == 0);
                        assert(kmem.free_pages() =~= f0.skip(0));
                    } else {
                        assert(s0.missing(va) == 1);
                        assert(kmem.free_pages() =~= f0.skip(1));
                    }
                } else {
                    lemma_px_bound(1, va);
                    assert(s1.entry(t1, px_spec(1, va) as int) == 0u64);
                    assert(0u64 & 1u64 == 0) by (bit_vector);
                    assert(s0.missing(va) == 2);
                    assert(kmem.free_pages() =~= f0.skip(2));
                    assert(t1 == f0[0] as u64);
                    assert(t0 == f0[1] as u64);
                    assert(s1.tables@[t1]@ == Seq::new(512, |j: int| 0u64));
                    assert forall|j: int| 0 <= j < 512 implies #[trigger] self.entries(t1)[j] == (
                    if j == px_spec(1, va) {
                        pte_of(f0[1] as u64) | PTE_V
                    } else {
                        0u64
                    }) by {
                        if j != px_spec(1, va) {
                            assert(self.entry(t1, j) == s1.entry(t1, j));
                        }
                    }
                    assert(self.entries(t1) =~= Seq::new(
                        512,
                        |j: int|
                            if j == px_spec(1, va) {
                                pte_of(f0[1] as u64) | PTE_V
                            } else {
                                0u64
                            },
                    ));
                }
            } else {
                assert(s0.leaf_slot(va) == Some((t0, i)));
            }
        }
        Some((t0, i))
    }
}


/// Two addresses on the same page have the same index at every level.
proof fn lemma_same_page_same_px(x: u64, y: u64)
    requires
        x / 4096 == y / 4096,
    ensures
        px_spec(0, x) == px_spec(0, y),
        px_spec(1, x) == px_spec(1, y),
        px_spec(2, x) == px_spec(2, y),
{
    assert(px_spec(2, x) == (x >> 30u64) & 0x1ff);
    assert(px_spec(1, x) == (x >> 21u64) & 0x1ff);
    assert(px_spec(0, x) == (x >> 12u64) & 0x1ff);
    assert(px_spec(2, y) == (y >> 30u64) & 0x1ff);
    assert(px_spec(1, y) == (y >> 21u64) & 0x1ff);
    assert(px_spec(0, y) == (y >> 12u64) & 0x1ff);
    assert(((x >> 30u64) & 0x1ff) == ((y >> 30u64) & 0x1ff) && ((x >> 21u64) & 0x1ff) == ((y
        >> 21u64) & 0x1ff) && ((x >> 12u64) & 0x1ff) == ((y >> 12u64) & 0x1ff)) by (bit_vector)
        requires
            x / 4096 == y / 4096,
    ;
}

/// Below `MAXVA`, the three indices determine the page.
proof fn lemma_px_determine_page(x: u64, y: u64)
    requires
        x < MAXVA,
        y < MAXVA,
        px_spec(0, x) == px_spec(0, y),
        px_spec(1, x) == px_spec(1, y),
        px_spec(2, x) == px_spec(2, y),
    ensures
        x / 4096 == y / 4096,
{
    assert(px_spec(2, x) == (x >> 30u64) & 0x1ff);
    assert(px_spec(1, x) == (x >> 21u64) & 0x1ff);
    assert(px_spec(0, x) == (x >> 12u64) & 0x1ff);
    assert(px_spec(2, y) == (y >> 30u64) & 0x1ff);
    assert(px_spec(1, y) == (y >> 21u64) & 0x1ff);
    assert(px_spec(0, y) == (y >> 12u64) & 0x1ff);
    assert(x / 4096 == y / 4096) by (bit_vector)
        requires
            x < 0x40_0000_0000u64,
            y < 0x40_0000_0000u64,
            ((x >> 30u64) & 0x1ff) == ((y >> 30u64) & 0x1ff),
            ((x >> 21u64) & 0x1ff) == ((y >> 21u64) & 0x1ff),
            ((x >> 12u64) & 0x1ff) == ((y >> 12u64) & 0x1ff),
    ;
}

impl PageTables {
    /// In a well-formed tree, addresses below `MAXVA` that share a leaf slot
    /// lie on the same page.
    proof fn lemma_slot_unique(&self, x: u64, y: u64)
        requires
            self.wf(),
            x < MAXVA,
            y < MAXVA,
            self.leaf_slot(x) is Some,
            self.leaf_slot(x) == self.leaf_slot(y),
        ensures
            x / 4096 == y / 4096,
    {
        lemma_px_bound(2, x);
        lemma_px_bound(2, y);
        lemma_px_bound(1, x);
        lemma_px_bound(1, y);
        lemma_px_bound(0, x);
        lemma_px_bound(0, y);
        let r = self.root;
        let t1x = self.mid_table(x)->0;
        let t1y = self.mid_table(y)->0;
        assert(self.link(r, px_spec(2, x) as int));
        assert(self.link(r, px_spec(2, y) as int));
        assert(self.link(t1x, px_spec(1, x) as int));
        assert(self.link(t1y, px_spec(1, y) as int));
        assert(t1x == t1y && px_spec(1, x) == px_spec(1, y));
        assert(px_spec(2, x) == px_spec(2, y));
        lemma_px_determine_page(x, y);
    }

    /// Writing a leaf entry changes exactly the translation of the pages
    /// whose leaf slot it is.
    proof fn lemma_leaf_write(old_pt: PageTables, new_pt: PageTables, t: u64, i: int, v: u64, x: u64)
        requires
            old_pt.wf(),
            old_pt.is_table(t, 0),
            0 <= i < 512,
            new_pt.root == old_pt.root,
            new_pt.levels == old_pt.levels,
            new_pt.tables@.dom() == old_pt.tables@.dom(),
            new_pt.tables@[t]@ == old_pt.tables@[t]@.update(i, v),
            forall|u: u64| u != t ==> #[trigger] new_pt.tables@[u] == old_pt.tables@[u],
        ensures
            new_pt.wf(),
            new_pt.leaf_slot(x) == old_pt.leaf_slot(x),
            new_pt.mid_table(x) == old_pt.mid_table(x),
            new_pt.leaf_table(x) == old_pt.leaf_table(x),
            new_pt.lookup(x) == if old_pt.leaf_slot(x) == Some((t, i as usize)) {
                if pte_valid(v) {
                    Some(v)
                } else {
                    None
                }
            } else {
                old_pt.lookup(x)
            },
    {
        lemma_px_bound(2, x);
        lemma_px_bound(1, x);
        lemma_px_bound(0, x);
        assert(new_pt.tables@.dom() == new_pt.levels@.dom());
        assert forall|u: u64| #[trigger] new_pt.tables@.contains_key(u) implies new_pt.tables@[u]@.len()
            == 512 && 0 <= new_pt.levels@[u] <= 2 by {
            assert(old_pt.tables@.contains_key(u));
        }
        assert forall|u: u64, j: int| #[trigger] new_pt.link(u, j) implies old_pt.link(u, j) && new_pt.entry(u, j) == old_pt.entry(u, j) by {
            assert(u != t);
        }
        assert forall|u: u64, j: int| #[trigger] old_pt.link(u, j) implies new_pt.link(u, j) by {
            assert(u != t);
            assert(new_pt.entry(u, j) == old_pt.entry(u, j));
        }
        assert forall|u: u64, j: int| #[trigger] new_pt.link(u, j) implies {
            let c = pte_addr(new_pt.entry(u, j));
            &&& new_pt.tables@.contains_key(c)
            &&& new_pt.levels@[c] == new_pt.levels@[u] - 1
        } by {
            assert(old_pt.link(u, j));
        }
        assert forall|t1: u64, i1: int, t2: u64, i2: int|
            new_pt.link(t1, i1) && new_pt.link(t2, i2) && pte_addr(new_pt.entry(t1, i1)) == pte_addr(
                new_pt.entry(t2, i2),
            ) implies t1 == t2 && i1 == i2 by {
            assert(old_pt.link(t1, i1) && old_pt.link(t2, i2));
        }
        let r = old_pt.root;
        assert(r != t);
        assert(new_pt.mid_table(x) == old_pt.mid_table(x));
        match old_pt.mid_table(x) {
            None => {},
            Some(t1) => {
                assert(old_pt.link(r, px_spec(2, x) as int));
                assert(old_pt.levels@[t1] == 1);
                assert(t1 != t);
                assert(new_pt.leaf_table(x) == old_pt.leaf_table(x));
            },
        }
        match old_pt.leaf_table(x) {
            None => {},
            Some(t0) => {
                if t0 == t {
                    if px_spec(0, x) as int == i {
                        assert(new_pt.entry(t, i) == v);
                    } else {
                        assert(new_pt.entry(t, px_spec(0, x) as int) == old_pt.entry(t, px_spec(0, x) as int));
                    }
                } else {
                    assert(new_pt.entry(t0, px_spec(0, x) as int) == old_pt.entry(t0, px_spec(0, x) as int));
                }
            },
        }
    }
}


/// Whether `x` lies on one of the pages that `[va, va + size)` touches.
pub open spec fn in_region(va: u64, size: u64, x: u64) -> bool {
    &&& size > 0
    &&& va / 4096 <= x / 4096
    &&& x / 4096 <= (va + size - 1) / 4096
}

/// How many pages `[va, va + size)` touches.
pub open spec fn region_pages(va: u64, size: u64) -> int {
    if size == 0 {
        0
    } else {
        (va + size - 1) / 4096 - va / 4096 + 1
    }
}

/// The leaf entry that maps `x` once the pages of a region starting at
/// `va` are mapped onto consecutive physical pages from `pa`'s page, with
/// permission bits `perm`.
pub open spec fn region_entry(va: u64, pa: u64, perm: u64, x: u64) -> u64 {
    pte_of((pa / 4096 * 4096 + (x / 4096 - va / 4096) * 4096) as u64) | perm | PTE_V
}

/// Bytes translated by one root-table entry (1 GiB).
pub const MID_SPAN: u64 = 0x4000_0000;

/// Bytes translated by one level-1 entry (2 MiB).
pub const LEAF_SPAN: u64 = 0x20_0000;

/// How many table pages mapping the page at `a` adds to the tables `pt`
/// had before a region starting at page `first` was mapped page by page:
/// a level-1 table when `a`'s is missing and `a` is the region's first
/// page in its 1 GiB span, and a leaf table when `a`'s is missing and `a`
/// is the region's first page in its 2 MiB span.
pub open spec fn new_tables_at(pt: PageTables, first: int, a: int) -> nat {
    (if pt.mid_table(a as u64) is None && (a == first || a / MID_SPAN as int != (a - 4096)
        / MID_SPAN as int) {
        1nat
    } else {
        0nat
    }) + (if pt.leaf_table(a as u64) is None && (a == first || a / LEAF_SPAN as int != (a
        - 4096) / LEAF_SPAN as int) {
        1nat
    } else {
        0nat
    })
}

/// Table pages that mapping the first `k` pages from `first` adds to `pt`.
pub open spec fn tables_needed_upto(pt: PageTables, first: int, k: nat) -> nat
    decreases k,
{
    if k == 0 {
        0
    } else {
        tables_needed_upto(pt, first, (k - 1) as nat) + new_tables_at(
            pt,
            first,
            first + (k - 1) * 4096,
        )
    }
}

/// Table pages that mapping `[va, va + size)` adds to `pt`: one for each
/// missing level-1 or leaf table that the region's pages go through.
pub open spec fn tables_needed(pt: PageTables, va: u64, size: u64) -> nat {
    tables_needed_upto(pt, va / 4096 * 4096, region_pages(va, size) as nat)
}

/// At most one table page per 1 GiB span and one per 2 MiB span that
/// `[va, va + size)` touches.
pub open spec fn tables_bound(va: u64, size: u64) -> int {
    if size == 0 {
        0
    } else {
        (va + size - 1) / MID_SPAN as int - va as int / MID_SPAN as int + 1 + (va + size - 1)
            / LEAF_SPAN as int - va as int / LEAF_SPAN as int + 1
    }
}

/// Stepping back one page moves the span index down by at most one.
proof fn lemma_div_step(a: int, d: int)
    requires
        a >= 4096,
        d >= 4096,
    ensures
        (a - 4096) / d <= a / d <= (a - 4096) / d + 1,
{
    vstd::arithmetic::div_mod::lemma_div_is_ordered(a - 4096, a, d);
    vstd::arithmetic::div_mod::lemma_div_is_ordered(a, a - 4096 + d, d);
    vstd::arithmetic::div_mod::lemma_div_plus_one(a - 4096, d);
}

/// Below `MAXVA` the root index is the 1 GiB span, and the root and
/// level-1 indices together are the 2 MiB span.
proof fn lemma_px_split(x: u64)
    requires
        x < MAXVA,
    ensures
        px_spec(2, x) == x / MID_SPAN,
        x / LEAF_SPAN == px_spec(2, x) * 512 + px_spec(1, x),
        px_spec(1, x) < 512,
{
    assert(px_spec(2, x) == (x >> 30u64) & 0x1ff);
    assert(px_spec(1, x) == (x >> 21u64) & 0x1ff);
    assert((x >> 30u64) & 0x1ff == x / 0x4000_0000 && x / 0x20_0000 == ((x >> 30u64) & 0x1ff)
        * 512 + ((x >> 21u64) & 0x1ff) && (x >> 21u64) & 0x1ff < 512) by (bit_vector)
        requires
            x < 0x40_0000_0000u64,
    ;
}

/// More pages never need fewer tables.
proof fn lemma_needed_monotone(pt: PageTables, first: int, k1: nat, k2: nat)
    requires
        k1 <= k2,
    ensures
        tables_needed_upto(pt, first, k1) <= tables_needed_upto(pt, first, k2),
    decreases k2,
{
    if k1 < k2 {
        lemma_needed_monotone(pt, first, k1, (k2 - 1) as nat);
    }
}

/// The tables needed for the first `k` pages never exceed one per span
/// they touch.
proof fn lemma_needed_bound_upto(pt: PageTables, first: int, k: nat)
    requires
        k >= 1,
        first >= 0,
    ensures
        tables_needed_upto(pt, first, k) <= (first + (k - 1) * 4096) / MID_SPAN as int - first
            / MID_SPAN as int + 1 + (first + (k - 1) * 4096) / LEAF_SPAN as int - first
            / LEAF_SPAN as int + 1,
    decreases k,
{
    if k > 1 {
        lemma_needed_bound_upto(pt, first, (k - 1) as nat);
        let a = first + (k - 1) * 4096;
        lemma_div_step(a, MID_SPAN as int);
        lemma_div_step(a, LEAF_SPAN as int);
        let k1 = (k - 1) as nat;
        assert(a - 4096 == first + (k1 - 1) * 4096);
        assert(tables_needed_upto(pt, first, k) == tables_needed_upto(pt, first, k1)
            + new_tables_at(pt, first, a));
        assert(a != first);
    } else {
        assert(tables_needed_upto(pt, first, k) == tables_needed_upto(pt, first, 0)
            + new_tables_at(pt, first, first));
    }
}

/// Law: mapping a region never needs more table pages than the spans it
/// touches.
pub proof fn lemma_tables_needed_bound(pt: PageTables, va: u64, size: u64)
    ensures
        tables_needed(pt, va, size) <= tables_bound(va, size),
{
    if size > 0 {
        let first = va / 4096 * 4096;
        let k = region_pages(va, size);
        lemma_needed_bound_upto(pt, first as int, k as nat);
        let last = first + (k - 1) * 4096;
        assert(last == (va + size - 1) / 4096 * 4096);
        vstd::arithmetic::div_mod::lemma_div_is_ordered(last, (va + size - 1) as int, MID_SPAN as int);
        vstd::arithmetic::div_mod::lemma_div_is_ordered(last, (va + size - 1) as int, LEAF_SPAN as int);
        assert(first / MID_SPAN as int == va as int / MID_SPAN as int) by {
            lemma_same_span(va as int, MID_SPAN as int);
        }
        assert(first / LEAF_SPAN as int == va as int / LEAF_SPAN as int) by {
            lemma_same_span(va as int, LEAF_SPAN as int);
        }
    }
}

/// Rounding down to a page keeps an address in its span.
proof fn lemma_same_span(x: int, d: int)
    requires
        x >= 0,
        d == MID_SPAN || d == LEAF_SPAN,
    ensures
        (x / 4096 * 4096) / d == x / d,
{
    if d == MID_SPAN {
        assert((x / 4096 * 4096) / 0x4000_0000 == x / 0x4000_0000) by (nonlinear_arith)
            requires
                x >= 0,
        ;
    } else {
        assert((x / 4096 * 4096) / 0x20_0000 == x / 0x20_0000) by (nonlinear_arith)
            requires
                x >= 0,
        ;
    }
}

/// How many of the span indices `lo..=hi` lie above `t`.
pub open spec fn spans_above(lo: int, hi: int, t: int) -> int {
    if hi < lo || t >= hi {
        0
    } else if t < lo {
        hi - lo + 1
    } else {
        hi - t
    }
}

/// When the tables present for the first `k` pages from `first` are
/// exactly those of the spans up to `gp` (1 GiB) and `mp` (2 MiB), the
/// tables needed are one per span above those thresholds.
proof fn lemma_needed_by_threshold(pt: PageTables, first: int, k: nat, gp: int, mp: int)
    requires
        k >= 1,
        first >= 0,
        first % 4096 == 0,
        first + k * 4096 <= MAXVA,
        forall|j: int|
            0 <= j < k ==> (#[trigger] pt.mid_table((first + j * 4096) as u64) is Some <==> (first
                + j * 4096) / MID_SPAN as int <= gp),
        forall|j: int|
            0 <= j < k ==> (#[trigger] pt.leaf_table((first + j * 4096) as u64) is Some <==> (first
                + j * 4096) / LEAF_SPAN as int <= mp),
    ensures
        tables_needed_upto(pt, first, k) == spans_above(
            first / MID_SPAN as int,
            (first + (k - 1) * 4096) / MID_SPAN as int,
            gp,
        ) + spans_above(first / LEAF_SPAN as int, (first + (k - 1) * 4096) / LEAF_SPAN as int, mp),
    decreases k,
{
    let a = first + (k - 1) * 4096;
    assert(pt.mid_table((first + (k - 1) * 4096) as u64) is Some <==> a / MID_SPAN as int <= gp);
    assert(pt.leaf_table((first + (k - 1) * 4096) as u64) is Some <==> a / LEAF_SPAN as int <= mp);
    if k > 1 {
        let k1 = (k - 1) as nat;
        lemma_needed_by_threshold(pt, first, k1, gp, mp);
        lemma_div_step(a, MID_SPAN as int);
        lemma_div_step(a, LEAF_SPAN as int);
        vstd::arithmetic::div_mod::lemma_div_is_ordered(first, a - 4096, MID_SPAN as int);
        vstd::arithmetic::div_mod::lemma_div_is_ordered(first, a - 4096, LEAF_SPAN as int);
        assert(a - 4096 == first + (k1 - 1) * 4096);
        assert(tables_needed_upto(pt, first, k) == tables_needed_upto(pt, first, k1)
            + new_tables_at(pt, first, a));
    } else {
        assert(tables_needed_upto(pt, first, k) == tables_needed_upto(pt, first, 0)
            + new_tables_at(pt, first, first));
    }
}

/// A page-aligned region's addresses lie within its first and last spans.
proof fn lemma_region_spans(va: u64, size: u64, x: u64)
    requires
        va % 4096 == 0,
        size % 4096 == 0,
        in_region(va, size, x),
    ensures
        va <= x <= va + size - 1,
        va / MID_SPAN <= x / MID_SPAN <= (va + size - 1) / MID_SPAN as int,
        va / LEAF_SPAN <= x / LEAF_SPAN <= (va + size - 1) / LEAF_SPAN as int,
{
    assert(va <= x <= va + size - 1) by (nonlinear_arith)
        requires
            va % 4096 == 0,
            size % 4096 == 0,
            size > 0,
            va / 4096 <= x / 4096,
            x / 4096 <= (va + size - 1) / 4096,
    ;
    vstd::arithmetic::div_mod::lemma_div_is_ordered(va as int, x as int, MID_SPAN as int);
    vstd::arithmetic::div_mod::lemma_div_is_ordered(x as int, va + size - 1, MID_SPAN as int);
    vstd::arithmetic::div_mod::lemma_div_is_ordered(va as int, x as int, LEAF_SPAN as int);
    vstd::arithmetic::div_mod::lemma_div_is_ordered(x as int, va + size - 1, LEAF_SPAN as int);
}

/// The tables a page-aligned region needs, when the tables present on its
/// pages are those of the spans up to `gp` (1 GiB) and `mp` (2 MiB).
proof fn lemma_region_needed(pt: PageTables, va: u64, size: u64, gp: int, mp: int)
    requires
        size > 0,
        va % 4096 == 0,
        size % 4096 == 0,
        va + size <= MAXVA,
        forall|x: u64|
            x < MAXVA && #[trigger] in_region(va, size, x) ==> (pt.mid_table(x) is Some <==> x
                / MID_SPAN <= gp),
        forall|x: u64|
            x < MAXVA && #[trigger] in_region(va, size, x) ==> (pt.leaf_table(x) is Some <==> x
                / LEAF_SPAN <= mp),
    ensures
        tables_needed(pt, va, size) == spans_above(
            va as int / MID_SPAN as int,
            (va + size - 1) / MID_SPAN as int,
            gp,
        ) + spans_above(va as int / LEAF_SPAN as int, (va + size - 1) / LEAF_SPAN as int, mp),
{
    let k = region_pages(va, size);
    let first = va as int;
    assert(va / 4096 * 4096 == va);
    assert(k * 4096 == size) by (nonlinear_arith)
        requires
            k == (va + size - 1) / 4096 - va / 4096 + 1,
            va % 4096 == 0,
            size % 4096 == 0,
            size > 0,
    ;
    assert forall|j: int| 0 <= j < k implies (#[trigger] pt.mid_table((first + j * 4096) as u64)
        is Some <==> (first + j * 4096) / MID_SPAN as int <= gp) && (pt.leaf_table(
        (first + j * 4096) as u64,
    ) is Some <==> (first + j * 4096) / LEAF_SPAN as int <= mp) by {
        let x = (first + j * 4096) as u64;
        assert(x / 4096 == va / 4096 + j) by (nonlinear_arith)
            requires
                x == va + j * 4096,
                va % 4096 == 0,
        ;
        assert(in_region(va, size, x));
    }
    assert forall|j: int| 0 <= j < k implies (#[trigger] pt.leaf_table((first + j * 4096) as u64)
        is Some <==> (first + j * 4096) / LEAF_SPAN as int <= mp) by {
        assert(pt.mid_table((first + j * 4096) as u64) is Some <==> (first + j * 4096)
            / MID_SPAN as int <= gp);
    }
    lemma_needed_by_threshold(pt, first, k as nat, gp, mp);
    assert(first + (k - 1) * 4096 == va + size - 4096);
    vstd::arithmetic::div_mod::lemma_div_is_ordered(va + size - 4096, va + size - 1, MID_SPAN as int);
    vstd::arithmetic::div_mod::lemma_div_is_ordered(va + size - 4096, va + size - 1, LEAF_SPAN as int);
    assert((va + size - 4096) / MID_SPAN as int == (va + size - 1) / MID_SPAN as int) by {
        lemma_same_span(va + size - 1, MID_SPAN as int);
        assert((va + size - 1) / 4096 * 4096 == va + size - 4096) by (nonlinear_arith)
            requires
                va % 4096 == 0,
                size % 4096 == 0,
                size > 0,
        ;
    }
    assert((va + size - 4096) / LEAF_SPAN as int == (va + size - 1) / LEAF_SPAN as int) by {
        lemma_same_span(va + size - 1, LEAF_SPAN as int);
        assert((va + size - 1) / 4096 * 4096 == va + size - 4096) by (nonlinear_arith)
            requires
                va % 4096 == 0,
                size % 4096 == 0,
                size > 0,
        ;
    }
}

/// Rounds an address down to its page.
fn page_down(x: u64) -> (r: u64)
    ensures
        r == x / 4096 * 4096,
{
    let r: u64 = x & !0xfff;
    assert(r == x / 4096 * 4096) by (bit_vector)
        requires
            r == x & !0xfffu64,
    ;
    r
}

impl PageTables {
    /// Maps every page of the virtual region `[va, va + size)` onto
    /// consecutive physical pages starting at the page of `pa`, with
    /// permission bits `perm` and the valid bit. Missing tables come from
    /// `kmem`, exactly `tables_needed` of them; when `kmem` holds fewer, the
    /// mapping stops with `OutOfMemory` once it runs out, leaving a prefix of
    /// the region mapped. No page of the region may be mapped already.
    #[verifier::rlimit(40)]
    #[verifier::spinoff_prover]
    pub fn mappages(
        &mut self,
        kmem: &mut PhysicalMemoryAllocator,
        va: u64,
        size: u64,
        pa: u64,
        perm: u64,
    ) -> (r: Result<(), OutOfMemory>)
        requires
            old(self).wf(),
            old(kmem).wf(),
            old(self).disjoint_from(old(kmem).free_pages()),
            size > 0 ==> va + size - 1 < MAXVA,
            size > 0 ==> pa / 4096 * 4096 + ((va + size - 1) / 4096 - va / 4096) * 4096
                <= u64::MAX,
            forall|x: u64|
                x < MAXVA && #[trigger] in_region(va, size, x) ==> old(self).lookup(x) is None,
        ensures
            final(self).wf(),
            final(kmem).wf(),
            final(self).disjoint_from(final(kmem).free_pages()),
            final(kmem).kernel_end() == old(kmem).kernel_end(),
            final(self).root() == old(self).root(),
            final(kmem).free_pages() == old(kmem).free_pages().skip(
                old(kmem).free_pages().len() - final(kmem).free_pages().len(),
            ),
            r is Ok ==> forall|x: u64|
                x < MAXVA ==> #[trigger] final(self).lookup(x) == if in_region(va, size, x) {
                    Some(region_entry(va, pa, perm, x))
                } else {
                    old(self).lookup(x)
                },
            r is Err ==> final(kmem).free_pages().len() == 0,
            r is Err ==> forall|x: u64|
                x < MAXVA ==> #[trigger] final(self).lookup(x) == old(self).lookup(x) || (in_region(
                    va,
                    size,
                    x,
                ) && final(self).lookup(x) == Some(region_entry(va, pa, perm, x))),
            r is Err ==> forall|x: u64, y: u64|
                x < MAXVA && y < MAXVA && in_region(va, size, x) && in_region(va, size, y) && x
                    / 4096 <= y / 4096 && #[trigger] final(self).lookup(y) is Some
                    ==> #[trigger] final(self).lookup(x) is Some,
            final(kmem).free_pages().len() <= old(kmem).free_pages().len(),
            r is Ok <==> old(kmem).free_pages().len() >= tables_needed(*old(self), va, size),
            r is Ok ==> final(kmem).free_pages() == old(kmem).free_pages().skip(
                tables_needed(*old(self), va, size) as int,
            ),
            old(kmem).free_pages().len() - final(kmem).free_pages().len() <= tables_bound(
                va,
                size,
            ),
            r is Ok ==> forall|x: u64|
                x < MAXVA ==> (#[trigger] final(self).mid_table(x) is Some <==> (old(
                    self,
                ).mid_table(x) is Some || (size > 0 && va / MID_SPAN <= x / MID_SPAN <= (va + size
                    - 1) / MID_SPAN as int))),
            r is Ok ==> forall|x: u64|
                x < MAXVA ==> (#[trigger] final(self).leaf_table(x) is Some <==> (old(
                    self,
                ).leaf_table(x) is Some || (size > 0 && va / LEAF_SPAN <= x / LEAF_SPAN <= (va
                    + size - 1) / LEAF_SPAN as int))),
    {
        if size == 0 {
            proof {
                assert(kmem.free_pages() =~= kmem.free_pages().skip(0));
            }
            return Ok(());
        }
        proof {
            lemma_tables_needed_bound(*self, va, size);
        }
        let first: u64 = page_down(va);
        let last: u64 = page_down(va + size - 1);
        let mut a = first;
        let mut p = page_down(pa);
        let ghost f0 = kmem.free_pages();
        loop
            invariant_except_break
                first == va / 4096 * 4096,
                last == (va + size - 1) / 4096 * 4096,
                first <= a <= last,
                a % 4096 == 0,
                p == pa / 4096 * 4096 + (a / 4096 - va / 4096) * 4096,
                size > 0,
                va + size - 1 < MAXVA,
                pa / 4096 * 4096 + ((va + size - 1) / 4096 - va / 4096) * 4096 <= u64::MAX,
                forall|x: u64|
                    x < MAXVA && #[trigger] in_region(va, size, x) ==> old(self).lookup(x) is None,
                self.wf(),
                kmem.wf(),
                self.disjoint_from(kmem.free_pages()),
                kmem.kernel_end() == old(kmem).kernel_end(),
                self.root() == old(self).root(),
                f0 == old(kmem).free_pages(),
                kmem.free_pages().len() <= f0.len(),
                kmem.free_pages() == f0.skip(f0.len() - kmem.free_pages().len()),
                f0.len() - kmem.free_pages().len() == tables_needed_upto(
                    *old(self),
                    first as int,
                    (a / 4096 - first / 4096) as nat,
                ),
                tables_needed(*old(self), va, size) <= tables_bound(va, size),
                forall|x: u64|
                    x < MAXVA ==> (#[trigger] self.mid_table(x) is Some <==> (old(
                        self,
                    ).mid_table(x) is Some || (a > first && first / MID_SPAN <= x / MID_SPAN <= (a
                        - 4096) / MID_SPAN as int))),
                forall|x: u64|
                    x < MAXVA ==> (#[trigger] self.leaf_table(x) is Some <==> (old(
                        self,
                    ).leaf_table(x) is Some || (a > first && first / LEAF_SPAN <= x / LEAF_SPAN
                        <= (a - 4096) / LEAF_SPAN as int))),
                forall|x: u64|
                    x < MAXVA ==> #[trigger] self.lookup(x) == if va / 4096 <= x / 4096 < a / 4096 {
                        Some(region_entry(va, pa, perm, x))
                    } else {
                        old(self).lookup(x)
                    },
            ensures
                self.wf(),
                kmem.wf(),
                self.disjoint_from(kmem.free_pages()),
                kmem.kernel_end() == old(kmem).kernel_end(),
                self.root() == old(self).root(),
                kmem.free_pages() == f0.skip(f0.len() - kmem.free_pages().len()),
                kmem.free_pages().len() <= f0.len(),
                f0.len() - kmem.free_pages().len() == tables_needed(*old(self), va, size),
                forall|x: u64|
                    x < MAXVA ==> (#[trigger] self.mid_table(x) is Some <==> (old(
                        self,
                    ).mid_table(x) is Some || first / MID_SPAN <= x / MID_SPAN <= last
                        / MID_SPAN)),
                forall|x: u64|
                    x < MAXVA ==> (#[trigger] self.leaf_table(x) is Some <==> (old(
                        self,
                    ).leaf_table(x) is Some || first / LEAF_SPAN <= x / LEAF_SPAN <= last
                        / LEAF_SPAN)),
                forall|x: u64|
                    x < MAXVA ==> #[trigger] self.lookup(x) == if in_region(va, size, x) {
                        Some(region_entry(va, pa, perm, x))
                    } else {
                        old(self).lookup(x)
                    },
            decreases last - a,
        {
            let ghost f_before = kmem.free_pages();
            let ghost s_before = *self;
            let ghost k: nat = (a / 4096 - first / 4096) as nat;
            proof {
                assert(a == first + k * 4096);
                assert(k + 1 <= region_pages(va, size));
                lemma_px_split(a);
                if a > first {
                    lemma_px_split((a - 4096) as u64);
                    vstd::arithmetic::div_mod::lemma_div_is_ordered(first as int, a - 4096, MID_SPAN as int);
                    vstd::arithmetic::div_mod::lemma_div_is_ordered(first as int, a - 4096, LEAF_SPAN as int);
                    lemma_div_step(a as int, MID_SPAN as int);
                    lemma_div_step(a as int, LEAF_SPAN as int);
                }
                assert(s_before.mid_table(a) is Some <==> (old(self).mid_table(a) is Some || (a
                    > first && a / MID_SPAN == (a - 4096) / MID_SPAN as int)));
                assert(s_before.leaf_table(a) is Some <==> (old(self).leaf_table(a) is Some || (a
                    > first && a / LEAF_SPAN == (a - 4096) / LEAF_SPAN as int)));
                assert(s_before.missing(a) == new_tables_at(*old(self), first as int, a as int));
                assert(tables_needed_upto(*old(self), first as int, k + 1) == tables_needed_upto(
                    *old(self),
                    first as int,
                    k,
                ) + new_tables_at(*old(self), first as int, first + k * 4096));
            }
            let slot = self.walk(kmem, a, true);
            let (t, i) = match slot {
                Some(s) => s,
                None => {
                    proof {
                        assert(s_before.missing(a) <= 2);
                        assert(kmem.free_pages() =~= f0.skip(f0.len() - kmem.free_pages().len()));
                        assert forall|x: u64| x < MAXVA implies #[trigger] self.lookup(x)
                            == old(self).lookup(x) || (in_region(va, size, x) && self.lookup(x)
                            == Some(region_entry(va, pa, perm, x))) by {
                            assert(self.lookup(x) == s_before.lookup(x));
                        }
                        assert forall|x: u64, y: u64|
                            x < MAXVA && y < MAXVA && in_region(va, size, x) && in_region(va, size, y)
                                && x / 4096 <= y / 4096 && #[trigger] self.lookup(y) is Some implies #[trigger] self.lookup(
                            x,
                        ) is Some by {
                            assert(self.lookup(x) == s_before.lookup(x));
                            assert(self.lookup(y) == s_before.lookup(y));
                        }
                        lemma_needed_monotone(
                            *old(self),
                            first as int,
                            k + 1,
                            region_pages(va, size) as nat,
                        );
                        assert(f0.len() < tables_needed(*old(self), va, size));
                    }
                    return Err(OutOfMemory);
                },
            };
            let ghost s_walked = *self;
            let ghost f_walked = kmem.free_pages();
            let v: u64 = pa2pte(p) | perm | PTE_V;
            proof {
                assert(v & 1 != 0) by (bit_vector)
                    requires
                        v == pte_of(p) | perm | 1u64,
                ;
                assert(f_walked =~= f0.skip(f0.len() - f_walked.len()));
            }
            self.write_entry(t, i, v);
            proof {
                assert forall|x: u64| x < MAXVA implies #[trigger] self.lookup(x) == if va / 4096
                    <= x / 4096 < a / 4096 + 1 {
                    Some(region_entry(va, pa, perm, x))
                } else {
                    old(self).lookup(x)
                } by {
                    PageTables::lemma_leaf_write(s_walked, *self, t, i as int, v, x);
                    assert(s_walked.lookup(x) == s_before.lookup(x));
                    if x / 4096 == a / 4096 {
                        lemma_same_page_same_px(x, a);
                        assert(s_walked.leaf_slot(x) == s_walked.leaf_slot(a));
                        assert(region_entry(va, pa, perm, x) == v);
                    } else if s_walked.leaf_slot(x) == Some((t, i)) {
                        s_walked.lemma_slot_unique(x, a);
                    }
                }
                PageTables::lemma_leaf_write(s_walked, *self, t, i as int, v, 0);
                assert(f0.len() - kmem.free_pages().len() == tables_needed_upto(
                    *old(self),
                    first as int,
                    k + 1,
                ));
                if a > first {
                    lemma_div_step(a as int, MID_SPAN as int);
                    lemma_div_step(a as int, LEAF_SPAN as int);
                }
                assert forall|x: u64| x < MAXVA implies (#[trigger] self.mid_table(x) is Some <==> (
                old(self).mid_table(x) is Some || first / MID_SPAN <= x / MID_SPAN <= a
                    / MID_SPAN)) by {
                    PageTables::lemma_leaf_write(s_walked, *self, t, i as int, v, x);
                    lemma_px_split(x);
                    lemma_px_split(a);
                }
                assert forall|x: u64| x < MAXVA implies (#[trigger] self.leaf_table(x) is Some <==> (
                old(self).leaf_table(x) is Some || first / LEAF_SPAN <= x / LEAF_SPAN <= a
                    / LEAF_SPAN)) by {
                    PageTables::lemma_leaf_write(s_walked, *self, t, i as int, v, x);
                    lemma_px_split(x);
                    lemma_px_split(a);
                }
            }
            if a == last {
                proof {
                    assert(k + 1 == region_pages(va, size));
                }
                break;
            }
            a = a + 4096;
            p = p + 4096;
        }
        Ok(())
    }
}


/// The physical address that the valid leaf entry `e` gives for `va`.
pub open spec fn translate(e: u64, va: u64) -> u64 {
    pte_addr(e) | (va & 0xfff)
}

impl PageTables {
    /// A page-table tree that maps nothing, its root taken from `kmem`.
    pub fn new(kmem: &mut PhysicalMemoryAllocator) -> (r: Result<PageTables, OutOfMemory>)
        requires
            old(kmem).wf(),
        ensures
            final(kmem).wf(),
            final(kmem).kernel_end() == old(kmem).kernel_end(),
            final(kmem).free_pages() == crate::mm::list_after_alloc(old(kmem).free_pages()),
            r is Err <==> old(kmem).free_pages().len() == 0,
            r matches Ok(pt) ==> {
                &&& pt.wf()
                &&& pt.disjoint_from(final(kmem).free_pages())
                &&& pt.root() == old(kmem).free_pages()[0]
                &&& forall|x: u64| #[trigger] pt.lookup(x) is None
                &&& forall|x: u64| #[trigger] pt.mid_table(x) is None
                &&& forall|x: u64| #[trigger] pt.leaf_table(x) is None
            },
    {
        broadcast use vstd::std_specs::hash::group_hash_axioms;

        let ghost f0 = kmem.free_pages();
        proof {
            kmem.lemma_frames_valid();
        }
        let page: usize = kmem.kalloc();
        if page == 0 {
            return Err(OutOfMemory);
        }
        let root: u64 = page as u64;
        let mut tables: vstd::hash_map::HashMapWithView<u64, Vec<u64>> =
            vstd::hash_map::HashMapWithView::new();
        let zeroed: Vec<u64> = vec![0u64; 512];
        tables.insert(root, zeroed);
        let pt = PageTables { root, tables, levels: Ghost(Map::empty().insert(root, 2int)) };
        proof {
            assert(0u64 & 1u64 == 0) by (bit_vector);
            assert forall|j: int| 0 <= j < 512 implies pt.entry(root, j) == 0u64 by {
                assert(vstd::pervasive::cloned(0u64, zeroed@[j]));
            }
            assert(pt.tables@.dom() =~= pt.levels@.dom());
            assert forall|t: u64, i: int| #[trigger] pt.link(t, i) implies false by {
                assert(t == root);
                assert(pt.entry(root, i) == 0u64);
            }
            let nf = kmem.free_pages();
            assert forall|i: int| 0 <= i < nf.len() implies !#[trigger] pt.tables@.contains_key(
                nf[i] as u64,
            ) by {
                assert(nf[i] == f0[i + 1]);
                assert(crate::mm::is_free_frame(f0[i + 1] as int, kmem.kernel_end() as int));
            }
            assert forall|x: u64| #[trigger] pt.lookup(x) is None by {
                lemma_px_bound(2, x);
                assert(pt.entry(root, px_spec(2, x) as int) == 0u64);
            }
            assert forall|x: u64| #[trigger] pt.mid_table(x) is None by {
                lemma_px_bound(2, x);
                assert(pt.entry(root, px_spec(2, x) as int) == 0u64);
            }
            assert forall|x: u64| #[trigger] pt.leaf_table(x) is None by {
                lemma_px_bound(2, x);
                assert(pt.entry(root, px_spec(2, x) as int) == 0u64);
            }
        }
        Ok(pt)
    }

    /// Physical address of the root table.
    pub fn root_addr(&self) -> (r: u64)
        ensures
            r == self.root(),
    {
        self.root
    }

    /// Whether a page-table page lives at physical address `t`.
    pub closed spec fn has_table(&self, t: u64) -> bool {
        self.tables@.contains_key(t)
    }

    /// A copy of the 512 entries of the page-table page at `t`, so that
    /// they can be written into physical memory; `None` when no table
    /// lives at `t`.
    pub fn table_entries(&self, t: u64) -> (r: Option<Vec<u64>>)
        requires
            self.wf(),
        ensures
            r is Some <==> self.has_table(t),
            r matches Some(v) ==> v@ == self.entries(t) && v@.len() == 512,
    {
        match self.tables.get(&t) {
            None => None,
            Some(tab) => {
                let mut v: Vec<u64> = Vec::new();
                let mut i: usize = 0;
                while i < 512
                    invariant
                        tab@ == self.entries(t),
                        tab@.len() == 512,
                        i <= 512,
                        v@ == tab@.take(i as int),
                    decreases 512 - i,
                {
                    v.push(tab[i]);
                    i = i + 1;
                    assert(v@ =~= tab@.take(i as int));
                }
                assert(tab@.take(512) =~= tab@);
                Some(v)
            },
        }
    }

    /// The leaf slot for `va`, found without changing anything.
    fn find_leaf(&self, va: u64) -> (r: Option<(u64, usize)>)
        requires
            self.wf(),
        ensures
            r == self.leaf_slot(va),
    {
        proof {
            lemma_px_bound(2, va);
            lemma_px_bound(1, va);
            lemma_px_bound(0, va);
        }
        let e2: u64 = self.read_entry(self.root, px(2, va));
        if e2 & PTE_V == 0 {
            return None;
        }
        let t1: u64 = pte2pa(e2);
        proof {
            assert(self.link(self.root, px_spec(2, va) as int));
        }
        let e1: u64 = self.read_entry(t1, px(1, va));
        if e1 & PTE_V == 0 {
            return None;
        }
        let t0: u64 = pte2pa(e1);
        Some((t0, px(0, va)))
    }

    /// Translates a virtual address through the page tables: the physical
    /// page of its valid leaf entry plus the page offset, or `None` when
    /// `va` is not mapped.
    pub fn kernel_pa(&self, va: u64) -> (r: Option<u64>)
        requires
            self.wf(),
            va < MAXVA,
        ensures
            r == match self.lookup(va) {
                Some(e) => Some(translate(e, va)),
                None => None,
            },
    {
        let slot = self.find_leaf(va);
        match slot {
            None => {
                assert(self.leaf_table(va) is None);
                None
            },
            Some((t0, i)) => {
                proof {
                    lemma_px_bound(2, va);
                    lemma_px_bound(1, va);
                    assert(self.link(self.root, px_spec(2, va) as int));
                    let t1 = self.mid_table(va)->0;
                    assert(self.link(t1, px_spec(1, va) as int));
                    lemma_px_bound(0, va);
                    assert(self.tables@.contains_key(t0));
                }
                let e: u64 = self.read_entry(t0, i);
                if e & PTE_V != 0 {
                    Some(pte2pa(e) | (va & (PAGE - 1)))
                } else {
                    None
                }
            },
        }
    }
}

/// The `satp` value that selects Sv39 translation rooted at `pagetable`.
pub fn satp_value(pagetable: u64) -> (r: u64)
    ensures
        r == 0x8000_0000_0000_0000u64 | (pagetable >> 12u64),
        r == 0x8000_0000_0000_0000u64 + pagetable / 4096,
{
    let r: u64 = (8u64 << 60u64) | (pagetable >> 12u64);
    assert(r == 0x8000_0000_0000_0000u64 | (pagetable >> 12u64) && r == 0x8000_0000_0000_0000u64
        + pagetable / 4096) by (bit_vector)
        requires
            r == (8u64 << 60u64) | (pagetable >> 12u64),
    ;
    r
}


/// Law: once a region is mapped with permission bits below bit 10, every
/// address in it translates to the matching offset of the physical range.
pub proof fn lemma_region_translation(va: u64, size: u64, pa: u64, perm: u64, x: u64)
    requires
        perm < 1024,
        in_region(va, size, x),
        pa / 4096 * 4096 + (x / 4096 - va / 4096) * 4096 <= u64::MAX,
    ensures
        translate(region_entry(va, pa, perm, x), x) == pa / 4096 * 4096 + (x / 4096 - va / 4096)
            * 4096 + x % 4096,
{
    let b: u64 = (pa / 4096 * 4096 + (x / 4096 - va / 4096) * 4096) as u64;
    assert(b % 4096 == 0);
    let f: u64 = perm | 1u64;
    assert(f < 1024) by (bit_vector)
        requires
            perm < 1024,
            f == perm | 1u64,
    ;
    assert(pte_of(b) | perm | PTE_V == pte_of(b) | f) by (bit_vector)
        requires
            f == perm | 1u64,
    ;
    lemma_pte_round_trip(b, f);
    assert(pte_addr(pte_of(b) | f) == b);
    assert(b | (x & 0xfff) == b + x % 4096) by (bit_vector)
        requires
            b % 4096 == 0,
    ;
}

/// Which kernel stack page `x` lies on: `i` for the stack of process `i`,
/// or -1 when `x` is on no kernel stack page.
pub open spec fn stack_index(x: u64) -> int {
    let d = TRAMPOLINE / 4096 - x / 4096;
    if x < TRAMPOLINE && d % 2 == 0 && 1 <= d / 2 <= NPROC {
        d / 2 - 1
    } else {
        -1
    }
}

/// The leaf entry for `x` in the kernel address space whose text ends at
/// `text_end` and whose first `stacks.len()` kernel stacks sit on the
/// physical pages `stacks`: identity-mapped device registers, kernel text
/// (read/execute) and data up to `PHYSTOP` (read/write), and the stacks.
pub open spec fn kernel_entry(text_end: u64, stacks: Seq<u64>, x: u64) -> Option<u64> {
    if in_region(UART0, PAGE, x) {
        Some(region_entry(UART0, UART0, PTE_R | PTE_W, x))
    } else if in_region(VIRTIO0, PAGE, x) {
        Some(region_entry(VIRTIO0, VIRTIO0, PTE_R | PTE_W, x))
    } else if in_region(PLIC, PLIC_SIZE, x) {
        Some(region_entry(PLIC, PLIC, PTE_R | PTE_W, x))
    } else if in_region(KERNBASE, (text_end - KERNBASE) as u64, x) {
        Some(region_entry(KERNBASE, KERNBASE, PTE_R | PTE_X, x))
    } else if in_region(text_end, (PHYSTOP - text_end) as u64, x) {
        Some(region_entry(text_end, text_end, PTE_R | PTE_W, x))
    } else if 0 <= stack_index(x) < stacks.len() {
        Some(pte_of(stacks[stack_index(x)]) | (PTE_R | PTE_W) | PTE_V)
    } else {
        None
    }
}

/// Free pages that certainly suffice to build the kernel address space.
/// Taking a suffix of a suffix gives a suffix.
proof fn lemma_skip_chain(a: Seq<usize>, b: Seq<usize>, c: Seq<usize>)
    requires
        b.len() <= a.len(),
        b == a.skip(a.len() - b.len()),
        c.len() <= b.len(),
        c == b.skip(b.len() - c.len()),
    ensures
        c == a.skip(a.len() - c.len()),
        c.len() <= a.len(),
{
    assert(c =~= a.skip(a.len() - c.len()));
}

/// The 2 MiB spans whose leaf tables hold the device registers: that of
/// the UART and VirtIO pages and the two of the PLIC.
pub open spec fn dev_span(m: int) -> bool {
    m == UART0 as int / LEAF_SPAN as int || m == PLIC as int / LEAF_SPAN as int || m == PLIC as int
        / LEAF_SPAN as int + 1
}

/// The 2 MiB spans of RAM from `KERNBASE` to `PHYSTOP`.
pub open spec fn ram_span(m: int) -> bool {
    KERNBASE as int / LEAF_SPAN as int <= m <= (PHYSTOP - 1) / LEAF_SPAN as int
}

/// Free pages that building the kernel address space takes: the root
/// table; a level-1 table for each of the three 1 GiB spans it touches
/// (devices, RAM, kernel stacks); a leaf table for each of the 67 2 MiB
/// spans it touches (three for the devices, 63 for RAM, one for the
/// stacks); and the `NPROC` stack pages.
pub open spec fn kvm_pages_needed() -> int {
    135
}

/// Which of the free pages `kvmmake` takes becomes the stack of process
/// `i`: the root and the device and RAM tables come first (69 pages), then
/// each stack page in turn, the first one followed by the two tables that
/// map the stacks.
pub open spec fn kvm_stack_page_index(i: int) -> int {
    if i == 0 {
        69
    } else {
        71 + i
    }
}

/// The span indices of the fixed parts of the kernel address space.
proof fn lemma_kvm_spans()
    ensures
        UART0 / MID_SPAN == 0,
        (UART0 + PAGE - 1) / MID_SPAN as int == 0,
        UART0 / LEAF_SPAN == 0x80,
        (UART0 + PAGE - 1) / LEAF_SPAN as int == 0x80,
        VIRTIO0 / MID_SPAN == 0,
        (VIRTIO0 + PAGE - 1) / MID_SPAN as int == 0,
        VIRTIO0 / LEAF_SPAN == 0x80,
        (VIRTIO0 + PAGE - 1) / LEAF_SPAN as int == 0x80,
        PLIC / MID_SPAN == 0,
        (PLIC + PLIC_SIZE - 1) / MID_SPAN as int == 0,
        PLIC / LEAF_SPAN == 0x60,
        (PLIC + PLIC_SIZE - 1) / LEAF_SPAN as int == 0x61,
        KERNBASE / MID_SPAN == 2,
        KERNBASE / LEAF_SPAN == 0x401,
        (PHYSTOP - 1) / MID_SPAN as int == 2,
        (PHYSTOP - 1) / LEAF_SPAN as int == 0x43f,
        TRAMPOLINE / MID_SPAN == 0xff,
        TRAMPOLINE / LEAF_SPAN == 0x1ffff,
        (TRAMPOLINE - NPROC * 2 * PAGE) / MID_SPAN as int == 0xff,
        (TRAMPOLINE - NPROC * 2 * PAGE) / LEAF_SPAN as int == 0x1ffff,
{
}

/// Builds the kernel address space: a fresh root table; identity mappings
/// of the UART, VirtIO and PLIC registers (read/write), of the kernel text
/// `[KERNBASE, text_end)` (read/execute) and of the rest of RAM up to
/// `PHYSTOP` (read/write); and one freshly allocated page for the kernel
/// stack of each of the `NPROC` processes at `kstack(i)`. It takes exactly
/// `kvm_pages_needed()` pages from `kmem`, and fails with `OutOfMemory`,
/// its free list used up, exactly when `kmem` holds fewer.
#[verifier::rlimit(40)]
#[verifier::spinoff_prover]
pub fn kvmmake(kmem: &mut PhysicalMemoryAllocator, text_end: u64) -> (r: Result<
    PageTables,
    OutOfMemory,
>)
    requires
        old(kmem).wf(),
        KERNBASE <= text_end <= PHYSTOP,
        text_end % 4096 == 0 || text_end == KERNBASE || text_end == PHYSTOP,
    ensures
        final(kmem).wf(),
        final(kmem).kernel_end() == old(kmem).kernel_end(),
        r is Ok <==> old(kmem).free_pages().len() >= kvm_pages_needed(),
        r is Err ==> final(kmem).free_pages().len() == 0,
        r is Ok ==> final(kmem).free_pages() == old(kmem).free_pages().skip(kvm_pages_needed()),
        r matches Ok(pt) ==> {
            &&& pt.wf()
            &&& pt.disjoint_from(final(kmem).free_pages())
            &&& pt.root() == old(kmem).free_pages()[0]
            &&& exists|stacks: Seq<u64>|
                {
                    &&& stacks.len() == NPROC
                    &&& stacks.no_duplicates()
                    &&& forall|i: int|
                        0 <= i < NPROC ==> {
                            &&& #[trigger] stacks[i] == old(kmem).free_pages()[kvm_stack_page_index(
                                i,
                            )] as u64
                            &&& stacks[i] % 4096 == 0
                            &&& old(kmem).free_pages().contains(stacks[i] as usize)
                            &&& !final(kmem).free_pages().contains(stacks[i] as usize)
                        }
                    &&& forall|x: u64|
                        x < MAXVA ==> #[trigger] pt.lookup(x) == kernel_entry(text_end, stacks, x)
                    &&& forall|i: int|
                        0 <= i < NPROC ==> (#[trigger] pt.lookup(
                            (TRAMPOLINE - (i + 1) * 2 * PAGE) as u64,
                        ) matches Some(e) && e & 0x3ff == PTE_R | PTE_W | PTE_V && pte_addr(e)
                            == stacks[i])
                }
            &&& forall|x: u64|
                x < MAXVA && #[trigger] pt.lookup(x) is Some ==> {
                    &&& KERNBASE <= x < text_end ==> pt.lookup(x)->0 & 0x3ff == PTE_R | PTE_X
                        | PTE_V
                    &&& !(KERNBASE <= x < text_end) ==> pt.lookup(x)->0 & 0x3ff == PTE_R | PTE_W
                        | PTE_V
                }
        },
{
    let ghost f0 = kmem.free_pages();
    let phystop: u64 = PHYSTOP as u64;
    proof {
        lemma_kvm_spans();
    }
    let mut pt = match PageTables::new(kmem) {
        Ok(pt) => pt,
        Err(e) => {
            return Err(e);
        },
    };
    proof {
        assert(kmem.free_pages() =~= f0.skip(1));
    }
    // Device registers.
    let ghost fp = kmem.free_pages();
    let ghost p0 = pt;
    proof {
        assert forall|x: u64| x < MAXVA && #[trigger] in_region(UART0, PAGE, x) implies (
        pt.mid_table(x) is Some <==> x / MID_SPAN <= -1int) by {}
        assert forall|x: u64| x < MAXVA && #[trigger] in_region(UART0, PAGE, x) implies (
        pt.leaf_table(x) is Some <==> x / LEAF_SPAN <= -1int) by {}
        lemma_region_needed(pt, UART0, PAGE, -1, -1);
    }
    let res = pt.mappages(kmem, UART0, PAGE, UART0, PTE_R | PTE_W);
    if res.is_err() {
        return Err(OutOfMemory);
    }
    proof {
        lemma_skip_chain(f0, fp, kmem.free_pages());
        assert(f0.len() - kmem.free_pages().len() == 3);
        assert forall|x: u64| x < MAXVA && #[trigger] in_region(VIRTIO0, PAGE, x) implies pt.lookup(
            x,
        ) is None by {
            assert(!in_region(UART0, PAGE, x));
        }
        assert forall|x: u64| x < MAXVA && #[trigger] in_region(VIRTIO0, PAGE, x) implies (
        pt.mid_table(x) is Some <==> x / MID_SPAN <= 0int) && (pt.leaf_table(x) is Some <==> x
            / LEAF_SPAN <= 0x80int) by {
            lemma_region_spans(VIRTIO0, PAGE, x);
        }
        lemma_region_needed(pt, VIRTIO0, PAGE, 0, 0x80);
    }
    let ghost fp = kmem.free_pages();
    let ghost p1 = pt;
    let res = pt.mappages(kmem, VIRTIO0, PAGE, VIRTIO0, PTE_R | PTE_W);
    if res.is_err() {
        return Err(OutOfMemory);
    }
    proof {
        lemma_skip_chain(f0, fp, kmem.free_pages());
        assert(f0.len() - kmem.free_pages().len() == 3);
        assert forall|x: u64| x < MAXVA implies (#[trigger] pt.mid_table(x) is Some <==> x
            / MID_SPAN == 0) && (pt.leaf_table(x) is Some <==> x / LEAF_SPAN == 0x80) by {
            assert(p1.mid_table(x) is Some <==> x / MID_SPAN == 0);
            assert(p1.leaf_table(x) is Some <==> x / LEAF_SPAN == 0x80);
        }
        assert forall|x: u64| x < MAXVA && #[trigger] in_region(PLIC, PLIC_SIZE, x) implies pt.lookup(
            x,
        ) is None by {
            assert(!in_region(UART0, PAGE, x));
            assert(!in_region(VIRTIO0, PAGE, x));
        }
        assert forall|x: u64| x < MAXVA && #[trigger] in_region(PLIC, PLIC_SIZE, x) implies (
        pt.mid_table(x) is Some <==> x / MID_SPAN <= 0int) && (pt.leaf_table(x) is Some <==> x
            / LEAF_SPAN <= 0x5fint) by {
            lemma_region_spans(PLIC, PLIC_SIZE, x);
        }
        lemma_region_needed(pt, PLIC, PLIC_SIZE, 0, 0x5f);
    }
    let ghost fp = kmem.free_pages();
    let ghost p2 = pt;
    let res = pt.mappages(kmem, PLIC, PLIC_SIZE, PLIC, PTE_R | PTE_W);
    if res.is_err() {
        return Err(OutOfMemory);
    }
    // Kernel text, then data and the rest of RAM.
    let text_size: u64 = text_end - KERNBASE;
    let ghost te = text_end as int;
    let ghost tm = (te - 1) / LEAF_SPAN as int;
    proof {
        lemma_skip_chain(f0, fp, kmem.free_pages());
        assert(f0.len() - kmem.free_pages().len() == 5);
        assert forall|x: u64| x < MAXVA implies (#[trigger] pt.mid_table(x) is Some <==> x
            / MID_SPAN == 0) && (pt.leaf_table(x) is Some <==> dev_span(x as int / LEAF_SPAN as int)) by {
            assert(p2.mid_table(x) is Some <==> x / MID_SPAN == 0);
            assert(p2.leaf_table(x) is Some <==> x / LEAF_SPAN == 0x80);
        }
        assert forall|x: u64| x < MAXVA && #[trigger] in_region(KERNBASE, text_size, x) implies pt.lookup(
            x,
        ) is None by {
            assert(!in_region(UART0, PAGE, x));
            assert(!in_region(VIRTIO0, PAGE, x));
            assert(!in_region(PLIC, PLIC_SIZE, x));
        }
        if text_size > 0 {
            vstd::arithmetic::div_mod::lemma_div_is_ordered(te - 1, PHYSTOP - 1, MID_SPAN as int);
            vstd::arithmetic::div_mod::lemma_div_is_ordered(te - 1, PHYSTOP - 1, LEAF_SPAN as int);
            vstd::arithmetic::div_mod::lemma_div_is_ordered(KERNBASE as int, te - 1, LEAF_SPAN as int);
            assert forall|x: u64| x < MAXVA && #[trigger] in_region(KERNBASE, text_size, x) implies (
            pt.mid_table(x) is Some <==> x / MID_SPAN <= 1int) && (pt.leaf_table(x) is Some <==> x
                / LEAF_SPAN <= 0x400int) by {
                lemma_region_spans(KERNBASE, text_size, x);
            }
            lemma_region_needed(pt, KERNBASE, text_size, 1, 0x400);
            assert(tables_needed(pt, KERNBASE, text_size) == 1 + tm - 0x400);
        } else {
            assert(tables_needed(pt, KERNBASE, text_size) == 0);
        }
    }
    let ghost fp = kmem.free_pages();
    let ghost p3 = pt;
    let res = pt.mappages(kmem, KERNBASE, text_size, KERNBASE, PTE_R | PTE_X);
    if res.is_err() {
        return Err(OutOfMemory);
    }
    let data_size: u64 = phystop - text_end;
    proof {
        lemma_skip_chain(f0, fp, kmem.free_pages());
        let c = if text_size > 0 {
            6 + tm - 0x400
        } else {
            5
        };
        assert(f0.len() - kmem.free_pages().len() == c);
        if text_size > 0 {
            vstd::arithmetic::div_mod::lemma_div_is_ordered(te - 1, PHYSTOP - 1, MID_SPAN as int);
            vstd::arithmetic::div_mod::lemma_div_is_ordered(KERNBASE as int, te - 1, MID_SPAN as int);
        }
        assert forall|x: u64| x < MAXVA implies (#[trigger] pt.mid_table(x) is Some <==> (x
            / MID_SPAN == 0 || (text_size > 0 && x / MID_SPAN == 2))) && (pt.leaf_table(x) is Some
            <==> (dev_span(x as int / LEAF_SPAN as int) || (text_size > 0 && 0x401 <= x / LEAF_SPAN
            <= tm))) by {
            assert(p3.mid_table(x) is Some <==> x / MID_SPAN == 0);
            assert(p3.leaf_table(x) is Some <==> dev_span(x as int / LEAF_SPAN as int));
        }
        assert forall|x: u64| x < MAXVA && #[trigger] in_region(text_end, data_size, x) implies pt.lookup(
            x,
        ) is None by {
            assert(!in_region(UART0, PAGE, x));
            assert(!in_region(VIRTIO0, PAGE, x));
            assert(!in_region(PLIC, PLIC_SIZE, x));
            assert(!in_region(KERNBASE, text_size, x));
        }
        if data_size > 0 {
            let gp: int = if text_size > 0 {
                2
            } else {
                1
            };
            let mp: int = if text_size > 0 {
                tm
            } else {
                0x400
            };
            vstd::arithmetic::div_mod::lemma_div_is_ordered(KERNBASE as int, te, MID_SPAN as int);
            vstd::arithmetic::div_mod::lemma_div_is_ordered(KERNBASE as int, te, LEAF_SPAN as int);
            vstd::arithmetic::div_mod::lemma_div_is_ordered(te, PHYSTOP - 1, LEAF_SPAN as int);
            if text_size > 0 {
                lemma_div_step(te, LEAF_SPAN as int);
                vstd::arithmetic::div_mod::lemma_div_is_ordered(te - 4096, te - 1, LEAF_SPAN as int);
                vstd::arithmetic::div_mod::lemma_div_is_ordered(te - 1, te, LEAF_SPAN as int);
            }
            assert forall|x: u64| x < MAXVA && #[trigger] in_region(text_end, data_size, x) implies (
            pt.mid_table(x) is Some <==> x / MID_SPAN <= gp) && (pt.leaf_table(x) is Some <==> x
                / LEAF_SPAN <= mp) by {
                lemma_region_spans(text_end, data_size, x);
            }
            lemma_region_needed(pt, text_end, data_size, gp, mp);
            assert(c + tables_needed(pt, text_end, data_size) == 69);
        } else {
            assert(tables_needed(pt, text_end, data_size) == 0);
            vstd::arithmetic::div_mod::lemma_div_is_ordered(te - 1, PHYSTOP - 1, LEAF_SPAN as int);
        }
    }
    let ghost fp = kmem.free_pages();
    let ghost p4 = pt;
    let res = pt.mappages(kmem, text_end, data_size, text_end, PTE_R | PTE_W);
    if res.is_err() {
        return Err(OutOfMemory);
    }
    proof {
        lemma_skip_chain(f0, fp, kmem.free_pages());
        assert(f0.len() - kmem.free_pages().len() == 69);
        if text_size > 0 {
            lemma_div_step(te, LEAF_SPAN as int);
            vstd::arithmetic::div_mod::lemma_div_is_ordered(te - 4096, te - 1, LEAF_SPAN as int);
            vstd::arithmetic::div_mod::lemma_div_is_ordered(te - 1, te, LEAF_SPAN as int);
        }
        vstd::arithmetic::div_mod::lemma_div_is_ordered(KERNBASE as int, te, MID_SPAN as int);
        vstd::arithmetic::div_mod::lemma_div_is_ordered(KERNBASE as int, te, LEAF_SPAN as int);
        if data_size > 0 {
            vstd::arithmetic::div_mod::lemma_div_is_ordered(te, PHYSTOP - 1, MID_SPAN as int);
            vstd::arithmetic::div_mod::lemma_div_is_ordered(te, PHYSTOP - 1, LEAF_SPAN as int);
        }
        assert forall|x: u64| x < MAXVA implies (#[trigger] pt.mid_table(x) is Some <==> (x
            / MID_SPAN == 0 || x / MID_SPAN == 2)) && (pt.leaf_table(x) is Some <==> (dev_span(x as int / LEAF_SPAN as int) || ram_span(x as int / LEAF_SPAN as int))) by {
            assert(p4.mid_table(x) is Some <==> (x / MID_SPAN == 0 || (text_size > 0 && x
                / MID_SPAN == 2)));
            assert(p4.leaf_table(x) is Some <==> (dev_span(x as int / LEAF_SPAN as int) || (text_size > 0
                && 0x401 <= x / LEAF_SPAN <= tm)));
        }
    }
    let ghost mut stacks = Seq::<u64>::empty();
    proof {
        assert forall|x: u64| x < MAXVA implies #[trigger] pt.lookup(x) == kernel_entry(
            text_end,
            stacks,
            x,
        ) by {}
    }
    // One kernel stack page per process.
    let mut i: u64 = 0;
    while i < NPROC as u64
        invariant
            i <= NPROC,
            stacks.len() == i,
            KERNBASE <= text_end <= PHYSTOP,
            pt.wf(),
            kmem.wf(),
            pt.disjoint_from(kmem.free_pages()),
            kmem.kernel_end() == old(kmem).kernel_end(),
            f0 == old(kmem).free_pages(),
            kmem.free_pages().len() <= f0.len(),
            kmem.free_pages() == f0.skip(f0.len() - kmem.free_pages().len()),
            f0.len() - kmem.free_pages().len() == 69 + i + if i > 0 {
                2int
            } else {
                0int
            },
            forall|x: u64|
                x < MAXVA ==> (#[trigger] pt.mid_table(x) is Some <==> (x / MID_SPAN == 0 || x
                    / MID_SPAN == 2 || (i > 0 && x / MID_SPAN == 0xff))),
            forall|x: u64|
                x < MAXVA ==> (#[trigger] pt.leaf_table(x) is Some <==> (dev_span(x as int / LEAF_SPAN as int) || ram_span(x as int / LEAF_SPAN as int) || (i > 0 && x / LEAF_SPAN == 0x1ffff))),
            stacks.no_duplicates(),
            forall|j: int|
                0 <= j < i ==> {
                    &&& #[trigger] stacks[j] == f0[kvm_stack_page_index(j)] as u64
                    &&& stacks[j] % 4096 == 0
                    &&& f0.contains(stacks[j] as usize)
                    &&& !kmem.free_pages().contains(stacks[j] as usize)
                },
            pt.root() == f0[0],
            forall|x: u64|
                x < MAXVA ==> #[trigger] pt.lookup(x) == kernel_entry(text_end, stacks, x),
        decreases NPROC - i,
    {
        let ghost fb = kmem.free_pages();
        proof {
            kmem.lemma_frames_valid();
        }
        let page: usize = kmem.kalloc();
        if page == 0 {
            return Err(OutOfMemory);
        }
        let pa: u64 = page as u64;
        let va: u64 = kstack(i);
        let ghost fa = kmem.free_pages();
        let ghost ps = pt;
        proof {
            lemma_kvm_spans();
            assert(crate::mm::is_free_frame(fb[0] as int, kmem.kernel_end() as int));
            assert(f0.contains(fb[0])) by {
                assert(fb[0] == f0[f0.len() - fb.len()]);
            }
            assert forall|x: u64| x < MAXVA && #[trigger] in_region(va, PAGE, x) implies pt.lookup(
                x,
            ) is None by {
                assert(stack_index(x) == i);
            }
            assert forall|j: int| 0 <= j < i implies stacks[j] != pa by {
                assert(!fb.contains(stacks[j] as usize));
            }
            let lo = TRAMPOLINE - NPROC * 2 * PAGE;
            vstd::arithmetic::div_mod::lemma_div_is_ordered(lo, va as int, MID_SPAN as int);
            vstd::arithmetic::div_mod::lemma_div_is_ordered(lo, va as int, LEAF_SPAN as int);
            vstd::arithmetic::div_mod::lemma_div_is_ordered(va + PAGE - 1, TRAMPOLINE as int, MID_SPAN as int);
            vstd::arithmetic::div_mod::lemma_div_is_ordered(va + PAGE - 1, TRAMPOLINE as int, LEAF_SPAN as int);
            let gp: int = if i > 0 {
                0xff
            } else {
                0xfe
            };
            let mp: int = if i > 0 {
                0x1ffff
            } else {
                0x1fffe
            };
            assert forall|x: u64| x < MAXVA && #[trigger] in_region(va, PAGE, x) implies (
            pt.mid_table(x) is Some <==> x / MID_SPAN <= gp) && (pt.leaf_table(x) is Some <==> x
                / LEAF_SPAN <= mp) by {
                lemma_region_spans(va, PAGE, x);
            }
            lemma_region_needed(pt, va, PAGE, gp, mp);
        }
        let res = pt.mappages(kmem, va, PAGE, pa, PTE_R | PTE_W);
        if res.is_err() {
            return Err(OutOfMemory);
        }
        proof {
            assert(fa =~= fb.skip(1));
            lemma_skip_chain(fb, fa, kmem.free_pages());
            lemma_skip_chain(f0, fb, kmem.free_pages());
            assert forall|x: u64| x < MAXVA implies (#[trigger] pt.mid_table(x) is Some <==> (x
                / MID_SPAN == 0 || x / MID_SPAN == 2 || x / MID_SPAN == 0xff)) by {
                assert(ps.mid_table(x) is Some <==> (x / MID_SPAN == 0 || x / MID_SPAN == 2 || (i
                    > 0 && x / MID_SPAN == 0xff)));
            }
            assert forall|x: u64| x < MAXVA implies (#[trigger] pt.leaf_table(x) is Some <==> (
            dev_span(x as int / LEAF_SPAN as int) || ram_span(x as int / LEAF_SPAN as int) || x / LEAF_SPAN
                == 0x1ffff)) by {
                assert(ps.leaf_table(x) is Some <==> (dev_span(x as int / LEAF_SPAN as int) || ram_span(x as int / LEAF_SPAN as int) || (i > 0 && x / LEAF_SPAN == 0x1ffff)));
            }
            let old_stacks = stacks;
            stacks = stacks.push(pa);
            assert forall|x: u64| x < MAXVA implies #[trigger] pt.lookup(x) == kernel_entry(
                text_end,
                stacks,
                x,
            ) by {
                if in_region(va, PAGE, x) {
                    assert(stack_index(x) == i);
                    assert(x / 4096 == va / 4096);
                    assert(pa / 4096 * 4096 == pa);
                    assert((pa / 4096 * 4096 + (x / 4096 - va / 4096) * 4096) as u64 == pa);
                } else {
                    assert(stack_index(x) != i);
                }
            }
            assert(fb[0] == f0[kvm_stack_page_index(i as int)]);
            assert forall|j: int| 0 <= j < i + 1 implies {
                &&& #[trigger] stacks[j] == f0[kvm_stack_page_index(j)] as u64
                &&& stacks[j] % 4096 == 0
                &&& f0.contains(stacks[j] as usize)
                &&& !kmem.free_pages().contains(stacks[j] as usize)
            } by {
                let kf = kmem.free_pages();
                if kf.contains(stacks[j] as usize) {
                    let q = choose|q: int| 0 <= q < kf.len() && kf[q] == stacks[j] as usize;
                    assert(kf[q] == fa[q + fa.len() - kf.len()]);
                    assert(fa[q + fa.len() - kf.len()] == fb[q + fb.len() - kf.len()]);
                    if j < i {
                        assert(fb.contains(stacks[j] as usize));
                    } else {
                        assert(fb[0] == pa as usize);
                        assert(q + fb.len() - kf.len() > 0);
                    }
                }
            }
            assert(stacks.no_duplicates()) by {
                assert forall|a: int, b: int| 0 <= a < stacks.len() && 0 <= b < stacks.len() && a != b implies stacks[a] != stacks[b] by {
                    if a < i && b < i {
                        assert(old_stacks[a] != old_stacks[b]);
                    }
                }
            }
        }
        i = i + 1;
    }
    proof {
        assert(kmem.free_pages() =~= f0.skip(kvm_pages_needed()));
        assert forall|i: int| 0 <= i < NPROC implies (#[trigger] pt.lookup(
            (TRAMPOLINE - (i + 1) * 2 * PAGE) as u64,
        ) matches Some(e) && e & 0x3ff == PTE_R | PTE_W | PTE_V && pte_addr(e) == stacks[i]) by {
            let x = (TRAMPOLINE - (i + 1) * 2 * PAGE) as u64;
            lemma_kernel_stacks_writable(text_end, stacks, i, x);
        }
        assert forall|x: u64| x < MAXVA && #[trigger] pt.lookup(x) is Some implies {
            &&& KERNBASE <= x < text_end ==> pt.lookup(x)->0 & 0x3ff == PTE_R | PTE_X | PTE_V
            &&& !(KERNBASE <= x < text_end) ==> pt.lookup(x)->0 & 0x3ff == PTE_R | PTE_W | PTE_V
        } by {
            lemma_kernel_permissions(text_end, stacks, x);
        }
    }
    Ok(pt)
}


/// Law: the kernel address space maps the device registers and all RAM
/// from `KERNBASE` to `PHYSTOP` onto themselves: each such address
/// translates to itself.
pub proof fn lemma_kernel_identity(text_end: u64, stacks: Seq<u64>, x: u64)
    requires
        KERNBASE <= text_end <= PHYSTOP,
        text_end % 4096 == 0 || text_end == KERNBASE || text_end == PHYSTOP,
        (KERNBASE <= x < PHYSTOP) || (PLIC <= x < PLIC + PLIC_SIZE) || (UART0 <= x < VIRTIO0 + PAGE),
    ensures
        kernel_entry(text_end, stacks, x) matches Some(e) && translate(e, x) == x,
{
    let te = text_end;
    assert(PTE_R | PTE_W == 6u64 && PTE_R | PTE_X == 10u64) by (bit_vector);
    if in_region(UART0, PAGE, x) {
        lemma_region_translation(UART0, PAGE, UART0, PTE_R | PTE_W, x);
    } else if in_region(VIRTIO0, PAGE, x) {
        lemma_region_translation(VIRTIO0, PAGE, VIRTIO0, PTE_R | PTE_W, x);
    } else if in_region(PLIC, PLIC_SIZE, x) {
        lemma_region_translation(PLIC, PLIC_SIZE, PLIC, PTE_R | PTE_W, x);
    } else if in_region(KERNBASE, (te - KERNBASE) as u64, x) {
        lemma_region_translation(KERNBASE, (te - KERNBASE) as u64, KERNBASE, PTE_R | PTE_X, x);
    } else {
        assert(in_region(te, (PHYSTOP - te) as u64, x));
        lemma_region_translation(te, (PHYSTOP - te) as u64, te, PTE_R | PTE_W, x);
        if te % 4096 != 0 {
            assert(te == PHYSTOP || te == KERNBASE);
        }
    }
}


/// Law: in the kernel address space the page above each kernel stack (its
/// guard page) and the trampoline page map nothing, so running off a stack
/// faults instead of reaching the next one.
pub proof fn lemma_kernel_guard_pages(text_end: u64, stacks: Seq<u64>, i: int, x: u64)
    requires
        KERNBASE <= text_end <= PHYSTOP,
        0 <= i < NPROC,
        x / 4096 == (TRAMPOLINE - (i + 1) * 2 * PAGE + PAGE) / 4096 || x / 4096 == TRAMPOLINE
            / 4096,
    ensures
        kernel_entry(text_end, stacks, x) is None,
{
    assert(stack_index(x) == -1);
    assert(!in_region(UART0, PAGE, x));
    assert(!in_region(VIRTIO0, PAGE, x));
    assert(!in_region(PLIC, PLIC_SIZE, x));
    assert(!in_region(KERNBASE, (text_end - KERNBASE) as u64, x));
    assert(!in_region(text_end, (PHYSTOP - text_end) as u64, x));
}


/// An entry built from an address, permission bits below bit 10 and the
/// valid bit carries exactly those bits and the valid bit as its flags.
proof fn lemma_entry_flags(b: u64, perm: u64)
    requires
        perm < 1024,
    ensures
        (pte_of(b) | perm | PTE_V) & 0x3ff == perm | 1,
{
    let f: u64 = perm | 1u64;
    assert(f < 1024) by (bit_vector)
        requires
            perm < 1024,
            f == perm | 1u64,
    ;
    assert(pte_of(b) | perm | PTE_V == pte_of(b) | f) by (bit_vector)
        requires
            f == perm | 1u64,
    ;
    lemma_pte_round_trip(b, f);
}

/// Law: every mapping of the kernel address space is valid and readable;
/// the kernel text `[KERNBASE, text_end)` is executable and not writable,
/// and everything else mapped (device registers, the rest of RAM, the
/// kernel stacks) is writable and not executable. No page is both.
pub proof fn lemma_kernel_permissions(text_end: u64, stacks: Seq<u64>, x: u64)
    requires
        KERNBASE <= text_end <= PHYSTOP,
        text_end % 4096 == 0 || text_end == KERNBASE || text_end == PHYSTOP,
        kernel_entry(text_end, stacks, x) is Some,
    ensures
        ({
            let e = kernel_entry(text_end, stacks, x)->0;
            &&& KERNBASE <= x < text_end ==> e & 0x3ff == PTE_R | PTE_X | PTE_V
            &&& !(KERNBASE <= x < text_end) ==> e & 0x3ff == PTE_R | PTE_W | PTE_V
        }),
{
    assert(PTE_R | PTE_W == 6u64 && PTE_R | PTE_X == 10u64 && 6u64 | 1u64 == 7u64 && 10u64 | 1u64
        == 11u64) by (bit_vector);
    assert(PTE_R | PTE_X | PTE_V == 11u64 && PTE_R | PTE_W | PTE_V == 7u64) by (bit_vector);
    let te = text_end;
    let base = |va: u64, pa: u64| (pa / 4096 * 4096 + (x / 4096 - va / 4096) * 4096) as u64;
    if in_region(UART0, PAGE, x) {
        lemma_entry_flags(base(UART0, UART0), PTE_R | PTE_W);
    } else if in_region(VIRTIO0, PAGE, x) {
        lemma_entry_flags(base(VIRTIO0, VIRTIO0), PTE_R | PTE_W);
    } else if in_region(PLIC, PLIC_SIZE, x) {
        lemma_entry_flags(base(PLIC, PLIC), PTE_R | PTE_W);
    } else if in_region(KERNBASE, (te - KERNBASE) as u64, x) {
        lemma_entry_flags(base(KERNBASE, KERNBASE), PTE_R | PTE_X);
        assert(KERNBASE <= x < te) by (nonlinear_arith)
            requires
                KERNBASE / 4096 <= x / 4096,
                x / 4096 <= (te - 1) / 4096,
                te % 4096 == 0 || te == KERNBASE || te == PHYSTOP,
                te > KERNBASE,
                KERNBASE == 0x8020_0000,
                PHYSTOP == 0x8800_0000,
        ;
    } else if in_region(te, (PHYSTOP - te) as u64, x) {
        lemma_entry_flags(base(te, te), PTE_R | PTE_W);
        assert(te <= x) by (nonlinear_arith)
            requires
                te / 4096 <= x / 4096,
                te % 4096 == 0 || te == KERNBASE || te == PHYSTOP,
                KERNBASE == 0x8020_0000,
                PHYSTOP == 0x8800_0000,
        ;
    } else {
        let i = stack_index(x);
        lemma_entry_flags(stacks[i], PTE_R | PTE_W);
        assert(!(KERNBASE <= x < te)) by {
            if KERNBASE <= x < te {
                assert(in_region(KERNBASE, (te - KERNBASE) as u64, x));
            }
        }
    }
}

/// Law: in the kernel address space each kernel stack page is mapped,
/// onto the page recorded for that process, readable and writable and not
/// executable.
pub proof fn lemma_kernel_stacks_writable(text_end: u64, stacks: Seq<u64>, i: int, x: u64)
    requires
        KERNBASE <= text_end <= PHYSTOP,
        text_end % 4096 == 0 || text_end == KERNBASE || text_end == PHYSTOP,
        0 <= i < stacks.len() <= NPROC,
        stacks[i] % 4096 == 0,
        x / 4096 == (TRAMPOLINE - (i + 1) * 2 * PAGE) / 4096,
    ensures
        kernel_entry(text_end, stacks, x) matches Some(e) && e & 0x3ff == PTE_R | PTE_W | PTE_V
            && pte_addr(e) == stacks[i],
{
    assert(stack_index(x) == i);
    assert(!in_region(UART0, PAGE, x));
    assert(!in_region(VIRTIO0, PAGE, x));
    assert(!in_region(PLIC, PLIC_SIZE, x));
    assert(!in_region(KERNBASE, (text_end - KERNBASE) as u64, x));
    assert(!in_region(text_end, (PHYSTOP - text_end) as u64, x));
    assert(PTE_R | PTE_W == 6u64 && 6u64 | 1u64 == 7u64 && PTE_R | PTE_W | PTE_V == 7u64) by (bit_vector);
    lemma_entry_flags(stacks[i], PTE_R | PTE_W);
    let q = pte_of(stacks[i]);
    let e = q | (PTE_R | PTE_W) | PTE_V;
    assert(e == q | 7u64) by (bit_vector)
        requires
            e == q | 6u64 | 1u64,
    ;
    lemma_pte_round_trip(stacks[i], 7);
}

} // verus!
