use lib::mm::{page_round_down, page_round_up, PhysicalMemoryAllocator, Run, PGSIZE, PHYSTOP};

const KEND: usize = 0x8021_0000;

#[test]
fn round_up_values() {
    assert_eq!(page_round_up(0), 0);
    assert_eq!(page_round_up(1), 4096);
    assert_eq!(page_round_up(4095), 4096);
    assert_eq!(page_round_up(4096), 4096);
    assert_eq!(page_round_up(0x8020_0001), 0x8020_1000);
    assert_eq!(page_round_up(usize::MAX - 4095), usize::MAX - 4095);
    assert_eq!(page_round_up(usize::MAX - 8190), usize::MAX - 4095);
}

#[test]
fn round_down_values() {
    assert_eq!(page_round_down(0), 0);
    assert_eq!(page_round_down(4095), 0);
    assert_eq!(page_round_down(4097), 4096);
    assert_eq!(page_round_down(usize::MAX), usize::MAX - 4095);
}

#[test]
fn run_node_holds_next() {
    let r = Run { next: 0x8021_1000 };
    assert_eq!(r.next, 0x8021_1000);
}

#[test]
fn empty_allocator_gives_null() {
    let mut a = PhysicalMemoryAllocator::new(KEND);
    assert_eq!(a.kalloc(), 0);
    assert_eq!(a.kalloc(), 0);
}

#[test]
fn alloc_returns_last_freed_page() {
    let mut a = PhysicalMemoryAllocator::new(KEND);
    a.kfree(0x8021_0000);
    a.kfree(0x8030_0000);
    assert_eq!(a.kalloc(), 0x8030_0000);
    assert_eq!(a.kalloc(), 0x8021_0000);
    assert_eq!(a.kalloc(), 0);
}

#[test]
fn allocated_page_can_be_freed_again() {
    let mut a = PhysicalMemoryAllocator::new(KEND);
    a.kfree(0x8700_0000);
    let p = a.kalloc();
    assert_eq!(p, 0x8700_0000);
    a.kfree(p);
    assert_eq!(a.kalloc(), 0x8700_0000);
}

#[test]
fn kinit_frees_whole_pages_highest_first() {
    let mut a = PhysicalMemoryAllocator::new(KEND);
    a.kinit(0x8021_0001, 0x8021_4000);
    assert_eq!(a.kalloc(), 0x8021_3000);
    assert_eq!(a.kalloc(), 0x8021_2000);
    assert_eq!(a.kalloc(), 0x8021_1000);
    assert_eq!(a.kalloc(), 0);
}

#[test]
fn kinit_with_partial_last_page_skips_it() {
    let mut a = PhysicalMemoryAllocator::new(KEND);
    a.kinit(KEND, KEND + 2 * PGSIZE - 1);
    assert_eq!(a.kalloc(), KEND);
    assert_eq!(a.kalloc(), 0);
}

#[test]
fn kinit_empty_range_adds_nothing() {
    let mut a = PhysicalMemoryAllocator::new(KEND);
    a.kinit(KEND + 10, KEND + 100);
    assert_eq!(a.kalloc(), 0);
}

#[test]
fn kinit_up_to_phystop() {
    let mut a = PhysicalMemoryAllocator::new(KEND);
    a.kinit(PHYSTOP - 4 * PGSIZE, PHYSTOP);
    assert_eq!(a.kalloc(), PHYSTOP - PGSIZE);
    let mut n = 1;
    while a.kalloc() != 0 {
        n += 1;
    }
    assert_eq!(n, 4);
}
