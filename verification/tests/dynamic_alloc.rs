use camos::dynamic_alloc::DynamicAllocator;
use camos::freelist::Freelist;
use camos::layout::{Layout, LayoutError};
use camos::memory::{LinearMemory, PhysicalMemory};
use camos::memory_map::{MemoryDescriptor, MemoryType, TestMemoryMap};
use camos::phys_alloc::PhysicalMemoryManager;
use camos::PAGE_SIZE;

const OFFSET: u64 = 0xFFFF_8800_0000_0000;

/// Memory with `pages` pages, the first of which holds the bitmap.
fn set_up(pages: u64) -> (PhysicalMemory, PhysicalMemoryManager) {
    let mut memory = PhysicalMemory::new(OFFSET, vec![u64::MAX; (pages * PAGE_SIZE / 8) as usize]);
    let memory_map = TestMemoryMap::new(vec![MemoryDescriptor {
        ty: MemoryType::Conventional,
        att: 0,
        page_count: pages,
        phys_start: 0,
        virt_start: 0,
    }]);
    let manager = PhysicalMemoryManager::init(&mut memory, &memory_map, OFFSET);
    (memory, manager)
}

fn layout(size: u64, align: u64) -> Layout {
    Layout::from_size_align(size, align).unwrap()
}

#[test]
fn compute_freelist_index() {
    assert_eq!(
        DynamicAllocator::freelist_index(Layout::from_size_align(2, 1).unwrap()),
        0
    );

    assert_eq!(
        DynamicAllocator::freelist_index(Layout::from_size_align(6, 4).unwrap()),
        0
    );

    assert_eq!(
        DynamicAllocator::freelist_index(Layout::from_size_align(8, 4).unwrap()),
        0
    );

    assert_eq!(
        DynamicAllocator::freelist_index(Layout::from_size_align(12, 4).unwrap()),
        1
    );
}

#[test]
fn freelist_index_at_the_edges() {
    assert_eq!(DynamicAllocator::freelist_index(layout(0, 1)), 0);
    assert_eq!(DynamicAllocator::freelist_index(layout(9, 1)), 1);
    assert_eq!(DynamicAllocator::freelist_index(layout(16, 1)), 1);
    assert_eq!(DynamicAllocator::freelist_index(layout(17, 1)), 2);
    assert_eq!(DynamicAllocator::freelist_index(layout(1, 4096)), 9);
    assert_eq!(DynamicAllocator::freelist_index(layout(4096, 1)), 9);
    assert_eq!(DynamicAllocator::freelist_index(layout(4097, 1)), 10);
    assert_eq!(DynamicAllocator::freelist_index(layout(0, 1 << 62)), 59);
    assert_eq!(DynamicAllocator::freelist_index(layout(i64::MAX as u64, 1)), 60);
}

#[test]
fn layout_is_checked() {
    let l = layout(24, 8);
    assert_eq!((l.size(), l.align()), (24, 8));
    assert_eq!(Layout::from_size_align(1, 0), Err(LayoutError));
    assert_eq!(Layout::from_size_align(1, 3), Err(LayoutError));
    assert_eq!(Layout::from_size_align(1 << 63, 1), Err(LayoutError));
    assert_eq!(Layout::from_size_align(i64::MAX as u64, 2), Err(LayoutError));
    assert!(Layout::from_size_align(0, 1 << 63).is_ok());
    assert!(Layout::from_size_align(1, 1 << 63).is_err());
    assert!(Layout::from_size_align(i64::MAX as u64, 1).is_ok());
}

#[test]
fn blocks_come_from_the_end_of_a_page() {
    let (mut memory, manager) = set_up(3);
    let mut allocator = DynamicAllocator::new(&manager);

    assert_eq!(allocator.allocate(&mut memory, layout(100, 4)), Some(OFFSET + 0x1F80));
    assert_eq!(allocator.allocate(&mut memory, layout(128, 128)), Some(OFFSET + 0x1F00));
    // Another size class takes another page.
    assert_eq!(allocator.allocate(&mut memory, layout(8, 8)), Some(OFFSET + 0x2FF8));
    assert!(!manager.is_available(&memory, 1));
    assert!(!manager.is_available(&memory, 2));
    // There is no page left for this one.
    assert_eq!(allocator.allocate(&mut memory, layout(16, 8)), None);
    assert_eq!(allocator.allocate(&mut memory, layout(128, 1)), Some(OFFSET + 0x1E80));
}

#[test]
fn page_is_split_up_into_blocks() {
    let (mut memory, manager) = set_up(2);
    let mut allocator = DynamicAllocator::new(&manager);
    let mut blocks: Vec<u64> = vec![];

    while let Some(block) = allocator.allocate(&mut memory, layout(8, 8)) {
        blocks.push(block);
    }

    let expected: Vec<u64> = (0..512).rev().map(|i| OFFSET + 0x1000 + 8 * i).collect();
    assert_eq!(blocks, expected);
}

#[test]
fn largest_block_is_a_page() {
    let (mut memory, manager) = set_up(4);
    let mut allocator = DynamicAllocator::new(&manager);

    assert_eq!(allocator.allocate(&mut memory, layout(4097, 1)), None);
    assert_eq!(allocator.allocate(&mut memory, layout(1, 8192)), None);
    assert!(manager.is_available(&memory, 1));
    assert_eq!(allocator.allocate(&mut memory, layout(4096, 4096)), Some(OFFSET + 0x1000));
    assert_eq!(allocator.allocate(&mut memory, layout(2049, 1)), Some(OFFSET + 0x2000));
    assert_eq!(allocator.allocate(&mut memory, layout(1, 4096)), Some(OFFSET + 0x3000));
    assert_eq!(allocator.allocate(&mut memory, layout(4096, 1)), None);
}

#[test]
fn block_given_back_is_the_next() {
    let (mut memory, manager) = set_up(8);
    let mut allocator = DynamicAllocator::new(&manager);
    let a = allocator.allocate(&mut memory, layout(64, 8)).unwrap();
    let b = allocator.allocate(&mut memory, layout(64, 8)).unwrap();
    let c = allocator.allocate(&mut memory, layout(64, 8)).unwrap();

    allocator.deallocate(&mut memory, a, layout(64, 8));
    allocator.deallocate(&mut memory, c, layout(50, 1));

    assert_eq!(allocator.allocate(&mut memory, layout(33, 1)), Some(c));
    assert_eq!(allocator.allocate(&mut memory, layout(64, 64)), Some(a));
    let d = allocator.allocate(&mut memory, layout(64, 8)).unwrap();
    assert_eq!(d, c - 64);
    assert!(d != b);
}

#[test]
fn blocks_do_not_overlap() {
    let (mut memory, manager) = set_up(16);
    let mut allocator = DynamicAllocator::new(&manager);
    let mut blocks: Vec<(u64, u64)> = vec![];

    for size in [8, 16, 4096, 24, 100, 8, 2000, 4096, 512, 513, 1000, 8] {
        let block = allocator.allocate(&mut memory, layout(size, 8)).unwrap();
        assert_eq!(block % 8, 0);
        blocks.push((block, size));
    }

    for i in 0..blocks.len() {
        for j in 0..i {
            let ((a, m), (b, n)) = (blocks[i], blocks[j]);
            assert!(a + m <= b || b + n <= a);
        }
    }
}

#[test]
fn alignment_is_respected() {
    let (mut memory, manager) = set_up(16);
    let mut allocator = DynamicAllocator::new(&manager);

    for power in 0..13 {
        let align = 1 << power;
        let block = allocator.allocate(&mut memory, layout(1, align)).unwrap();
        assert_eq!(block % align, 0);
    }
}

/// Whatever is written to the blocks, the free lists stay in order.
#[test]
fn blocks_can_be_written() {
    let (mut memory, manager) = set_up(4);
    let mut allocator = DynamicAllocator::new(&manager);
    let mut blocks: Vec<u64> = vec![];
    for _ in 0..4 {
        let block = allocator.allocate(&mut memory, layout(2048, 8)).unwrap();
        for i in 0..256 {
            memory.write(block + 8 * i, 0x0123_4567_89AB_CDEF);
        }
        blocks.push(block);
    }

    for &block in &blocks {
        for i in 0..256 {
            assert_eq!(memory.read(block + 8 * i), 0x0123_4567_89AB_CDEF);
        }
    }
    for &block in &blocks {
        allocator.deallocate(&mut memory, block, layout(2048, 8));
    }
    blocks.reverse();
    for &block in &blocks {
        assert_eq!(allocator.allocate(&mut memory, layout(2048, 8)), Some(block));
    }
}

#[test]
fn pages_are_not_released() {
    let (mut memory, manager) = set_up(2);
    let mut allocator = DynamicAllocator::new(&manager);
    let block = allocator.allocate(&mut memory, layout(4096, 1)).unwrap();

    allocator.deallocate(&mut memory, block, layout(4096, 1));

    assert!(!manager.is_available(&memory, 1));
    assert_eq!(allocator.allocate(&mut memory, layout(8, 1)), None);
    assert_eq!(allocator.allocate(&mut memory, layout(4096, 1)), Some(block));
}

#[test]
fn global_allocator_speaks_of_addresses() {
    let (mut memory, manager) = set_up(2);
    let mut allocator = DynamicAllocator::new(&manager);

    let block = allocator.global_alloc(&mut memory, layout(4096, 1));
    assert_eq!(block, OFFSET + 0x1000);
    assert_eq!(allocator.global_alloc(&mut memory, layout(4096, 1)), 0);
    assert_eq!(allocator.global_alloc(&mut memory, layout(8192, 1)), 0);
    allocator.global_dealloc(&mut memory, 0, layout(4096, 1));
    assert_eq!(allocator.global_alloc(&mut memory, layout(4096, 1)), 0);
    allocator.global_dealloc(&mut memory, block, layout(4096, 1));
    assert_eq!(allocator.global_alloc(&mut memory, layout(4096, 1)), block);
}

#[test]
fn freelist_is_last_in_first_out() {
    let mut memory = PhysicalMemory::new(0x1000, vec![9; 8]);
    let mut list = Freelist::new(16);
    assert_eq!(list.pop_block(&memory), None);

    list.push_block(&mut memory, 0x1010);
    list.push_block(&mut memory, 0x1020);
    assert_eq!(memory.read(0x1010), 0);
    assert_eq!(memory.read(0x1020), 0x1010);
    assert_eq!(memory.read(0x1018), 9);

    assert_eq!(list.pop_block(&memory), Some(0x1020));
    assert_eq!(list.pop_block(&memory), Some(0x1010));
    assert_eq!(list.pop_block(&memory), None);
}

#[test]
fn freelist_takes_a_page() {
    let (mut memory, manager) = set_up(2);
    let mut list = Freelist::new(1024);

    assert!(list.allocate_new_page(&manager, &mut memory));
    assert!(!list.allocate_new_page(&manager, &mut memory));
    for i in (0..4).rev() {
        assert_eq!(list.pop_block(&memory), Some(OFFSET + 0x1000 + 1024 * i));
    }
    assert_eq!(list.pop_block(&memory), None);
}

#[test]
fn no_memory_is_lost() {
    let (mut memory, manager) = set_up(5);
    let mut allocator = DynamicAllocator::new(&manager);
    let mut first: Vec<u64> = vec![];
    while let Some(block) = allocator.allocate(&mut memory, layout(256, 256)) {
        first.push(block);
    }
    assert_eq!(first.len(), 4 * 16);

    for i in [1, 0] {
        for &block in first.iter().skip(i).step_by(2) {
            allocator.deallocate(&mut memory, block, layout(256, 256));
        }
    }
    let mut second: Vec<u64> = vec![];
    while let Some(block) = allocator.allocate(&mut memory, layout(200, 4)) {
        second.push(block);
    }

    first.sort();
    second.sort();
    assert_eq!(first, second);
}

/// Of a page that is split up, only the first word of each block is written.
#[test]
fn rest_of_a_page_is_left_alone() {
    let (mut memory, manager) = set_up(2);
    for i in 0..512 {
        memory.write(OFFSET + 0x1000 + 8 * i, 1000 + i);
    }
    let mut allocator = DynamicAllocator::new(&manager);

    allocator.allocate(&mut memory, layout(32, 8)).unwrap();

    for i in 0..512 {
        let word = memory.read(OFFSET + 0x1000 + 8 * i);
        if i == 0 {
            assert_eq!(word, 0);
        } else if i % 4 == 0 {
            assert_eq!(word, OFFSET + 0x1000 + 8 * (i - 4));
        } else {
            assert_eq!(word, 1000 + i);
        }
    }
}
