use lib::mm::{PhysicalMemoryAllocator, PHYSTOP};
use lib::vm::{
    kstack, kvmmake, pa2pte, pte2pa, px, satp_value, PageTables, KERNBASE, PLIC, PTE_R, PTE_V,
    PTE_W, PTE_X, TRAMPOLINE, UART0, VIRTIO0,
};

fn memory(pages: usize) -> PhysicalMemoryAllocator {
    let mut a = PhysicalMemoryAllocator::new(0x8700_0000);
    a.kinit(0x8700_0000, 0x8700_0000 + pages * 4096);
    a
}

#[test]
fn px_indices() {
    assert_eq!(px(0, 0x1234_5678), 0x145);
    assert_eq!(px(1, 0x1234_5678), 0x91);
    assert_eq!(px(2, 0x1234_5678), 0);
    assert_eq!(px(2, 0x3F_FFFF_F000), 0xff);
    assert_eq!(px(0, 0xfff), 0);
}

#[test]
fn pte_conversions() {
    assert_eq!(pa2pte(0x8020_0000), 0x2008_0000);
    assert_eq!(pa2pte(0x8020_0fff), 0x2008_0000);
    assert_eq!(pte2pa(0x2008_0000 | 0xf), 0x8020_0000);
    assert_eq!(pte2pa(pa2pte(0x1234_5000) | PTE_R | PTE_W | PTE_V), 0x1234_5000);
}

#[test]
fn kstack_addresses() {
    assert_eq!(kstack(0), TRAMPOLINE - 2 * 4096);
    assert_eq!(kstack(1), TRAMPOLINE - 4 * 4096);
    assert_eq!(kstack(63), TRAMPOLINE - 128 * 4096);
}

#[test]
fn satp_selects_sv39() {
    assert_eq!(satp_value(0x8020_0000), 0x8000_0000_0008_0200);
    assert_eq!(satp_value(0), 0x8000_0000_0000_0000);
}

#[test]
fn new_table_maps_nothing() {
    let mut kmem = memory(4);
    let pt = PageTables::new(&mut kmem).ok().unwrap();
    assert_eq!(pt.kernel_pa(0), None);
    assert_eq!(pt.kernel_pa(0x8020_0000), None);
}

#[test]
fn new_table_without_memory_fails() {
    let mut kmem = memory(0);
    assert!(PageTables::new(&mut kmem).is_err());
}

#[test]
fn map_then_translate() {
    let mut kmem = memory(8);
    let mut pt = PageTables::new(&mut kmem).ok().unwrap();
    assert!(pt.mappages(&mut kmem, 0x1000_2000, 0x2000, 0x8040_0000, PTE_R | PTE_W).is_ok());
    assert_eq!(pt.kernel_pa(0x1000_2000), Some(0x8040_0000));
    assert_eq!(pt.kernel_pa(0x1000_2abc), Some(0x8040_0abc));
    assert_eq!(pt.kernel_pa(0x1000_3fff), Some(0x8040_1fff));
    assert_eq!(pt.kernel_pa(0x1000_4000), None);
    assert_eq!(pt.kernel_pa(0x1000_1fff), None);
}

#[test]
fn map_unaligned_region_covers_touched_pages() {
    let mut kmem = memory(8);
    let mut pt = PageTables::new(&mut kmem).ok().unwrap();
    assert!(pt.mappages(&mut kmem, 0x5000_0ff0, 0x20, 0x9000_0123, PTE_R).is_ok());
    assert_eq!(pt.kernel_pa(0x5000_0ff0), Some(0x9000_0ff0));
    assert_eq!(pt.kernel_pa(0x5000_1008), Some(0x9000_1008));
    assert_eq!(pt.kernel_pa(0x5000_2000), None);
}

#[test]
fn map_zero_size_does_nothing() {
    let mut kmem = memory(4);
    let mut pt = PageTables::new(&mut kmem).ok().unwrap();
    assert!(pt.mappages(&mut kmem, 0x1000, 0, 0x2000, PTE_R).is_ok());
    assert_eq!(pt.kernel_pa(0x1000), None);
    assert_eq!(kmem.kalloc() != 0, true);
}

#[test]
fn map_out_of_memory() {
    let mut kmem = memory(2);
    let mut pt = PageTables::new(&mut kmem).ok().unwrap();
    assert!(pt.mappages(&mut kmem, 0x1000, 0x1000, 0x2000, PTE_R).is_err());
    assert_eq!(kmem.kalloc(), 0);
    assert_eq!(pt.kernel_pa(0x1000), None);
}

#[test]
fn walk_without_alloc_finds_nothing_new() {
    let mut kmem = memory(4);
    let mut pt = PageTables::new(&mut kmem).ok().unwrap();
    assert_eq!(pt.walk(&mut kmem, 0x1000, false), None);
    let slot = pt.walk(&mut kmem, 0x1000, true);
    assert!(slot.is_some());
    assert_eq!(slot.unwrap().1, 1);
    assert_eq!(pt.walk(&mut kmem, 0x1000, false), slot);
    assert_eq!(pt.kernel_pa(0x1000), None);
}

#[test]
fn walk_uses_two_pages_then_none() {
    let mut kmem = memory(3);
    let mut pt = PageTables::new(&mut kmem).ok().unwrap();
    assert!(pt.walk(&mut kmem, 0x1000, true).is_some());
    assert_eq!(kmem.kalloc(), 0);
    let mut kmem2 = memory(2);
    let mut pt2 = PageTables::new(&mut kmem2).ok().unwrap();
    assert!(pt2.walk(&mut kmem2, 0x1000, true).is_none());
}

#[test]
fn kernel_space_layout() {
    let mut kmem = memory(256);
    let pt = kvmmake(&mut kmem, 0x8030_0000).ok().unwrap();
    assert_eq!(pt.kernel_pa(UART0 + 5), Some(UART0 + 5));
    assert_eq!(pt.kernel_pa(VIRTIO0 + 0x10), Some(VIRTIO0 + 0x10));
    assert_eq!(pt.kernel_pa(PLIC + 0x20_1004), Some(PLIC + 0x20_1004));
    assert_eq!(pt.kernel_pa(KERNBASE), Some(KERNBASE));
    assert_eq!(pt.kernel_pa(0x8030_0008), Some(0x8030_0008));
    assert_eq!(pt.kernel_pa(PHYSTOP as u64 - 1), Some(PHYSTOP as u64 - 1));
    assert_eq!(pt.kernel_pa(PHYSTOP as u64), None);
    assert_eq!(pt.kernel_pa(0x1000_2000), None);
    let s0 = pt.kernel_pa(kstack(0)).unwrap();
    let s1 = pt.kernel_pa(kstack(1)).unwrap();
    assert_ne!(s0, s1);
    assert_eq!(s0 % 4096, 0);
    assert_eq!(pt.kernel_pa(kstack(0) + 0x10), Some(s0 + 0x10));
    assert_eq!(pt.kernel_pa(kstack(0) + 4096), None);
    assert_eq!(pt.kernel_pa(TRAMPOLINE), None);
    let _ = PTE_X;
}

#[test]
fn kernel_space_without_memory_fails() {
    let mut kmem = memory(10);
    assert!(kvmmake(&mut kmem, 0x8030_0000).is_err());
    assert_eq!(kmem.kalloc(), 0);
}

#[test]
fn map_large_region_needs_only_missing_tables() {
    // Root plus one level-1 and one leaf table: 256 pages in one 2 MiB span.
    let mut kmem = memory(3);
    let mut pt = PageTables::new(&mut kmem).ok().unwrap();
    assert!(pt.mappages(&mut kmem, 0x1000, 0x10_0000, 0x8000_0000, PTE_R).is_ok());
    assert_eq!(pt.kernel_pa(0x1000), Some(0x8000_0000));
    assert_eq!(pt.kernel_pa(0x10_0fff), Some(0x800f_ffff));
    assert_eq!(kmem.kalloc(), 0);
}

#[test]
fn map_across_leaf_span_takes_two_leaf_tables() {
    let mut kmem = memory(5);
    let mut pt = PageTables::new(&mut kmem).ok().unwrap();
    assert!(pt.mappages(&mut kmem, 0x1F_F000, 0x2000, 0x8000_0000, PTE_R).is_ok());
    assert_eq!(pt.kernel_pa(0x20_0000), Some(0x8000_1000));
    assert!(kmem.kalloc() != 0);
    assert_eq!(kmem.kalloc(), 0);
}

#[test]
fn map_reuses_existing_tables() {
    let mut kmem = memory(3);
    let mut pt = PageTables::new(&mut kmem).ok().unwrap();
    assert!(pt.mappages(&mut kmem, 0x1000, 0x1000, 0x8000_0000, PTE_R).is_ok());
    assert!(pt.mappages(&mut kmem, 0x5000, 0x3000, 0x8000_5000, PTE_W).is_ok());
    assert_eq!(pt.kernel_pa(0x7004), Some(0x8000_7004));
    assert_eq!(kmem.kalloc(), 0);
}

#[test]
fn kernel_space_takes_exactly_its_pages() {
    for text_end in [KERNBASE, 0x8030_0000, 0x8030_1000, PHYSTOP as u64] {
        let mut kmem = memory(135);
        assert!(kvmmake(&mut kmem, text_end).is_ok());
        assert_eq!(kmem.kalloc(), 0);
        let mut kmem = memory(134);
        assert!(kvmmake(&mut kmem, text_end).is_err());
        assert_eq!(kmem.kalloc(), 0);
    }
}

#[test]
fn table_entries_expose_the_tree() {
    let mut kmem = memory(3);
    let mut pt = PageTables::new(&mut kmem).ok().unwrap();
    let root = pt.root_addr();
    assert!(pt.mappages(&mut kmem, 0x1000, 0x1000, 0x8000_0000, PTE_R).is_ok());
    let top = pt.table_entries(root).unwrap();
    assert_eq!(top.len(), 512);
    assert_eq!(top[0] & 0x3ff, PTE_V);
    assert!(top[1..].iter().all(|&e| e == 0));
    let mid = pt.table_entries(pte2pa(top[0])).unwrap();
    assert_eq!(mid[0] & 0x3ff, PTE_V);
    let leaf = pt.table_entries(pte2pa(mid[0])).unwrap();
    assert_eq!(leaf[1], pa2pte(0x8000_0000) | PTE_R | PTE_V);
    assert_eq!(leaf[0], 0);
    assert!(pt.table_entries(0x8000_0000).is_none());
}

#[test]
fn kernel_stacks_come_from_known_free_pages() {
    let mut kmem = memory(135);
    let pt = kvmmake(&mut kmem, 0x8030_0000).ok().unwrap();
    // The free list hands out pages from the top down.
    let page = |k: u64| 0x8700_0000 + (134 - k) * 4096;
    assert_eq!(pt.root_addr(), page(0));
    assert_eq!(pt.kernel_pa(kstack(0)), Some(page(69)));
    assert_eq!(pt.kernel_pa(kstack(1)), Some(page(72)));
    assert_eq!(pt.kernel_pa(kstack(63)), Some(page(134)));
    assert_eq!(pt.kernel_pa(kstack(5) + 4096), None);
}
