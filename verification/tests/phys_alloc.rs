use camos::memory::{InterruptedMemory, LinearMemory, PhysicalMemory, SharedMemory};
use camos::memory_map::{MemoryDescriptor, MemoryMap, MemoryType, TestMemoryMap};
use camos::phys_alloc::{
    all_regions_fit, div_ceil, find_region, has_room_for_bitmap, is_usable, page_count_line, physical_page_count, take_lowest_bit, PageAllocation,
    PhysicalMemoryManager,
};
use camos::PAGE_SIZE;

const OFFSET: u64 = 0xFFFF_8800_0000_0000;

/// A region of memory that acts as the whole of physical memory for the purpose of tests. What
/// it holds is of no use.
fn physical_memory(num_pages: u64) -> PhysicalMemory {
    PhysicalMemory::new(OFFSET, vec![0xDEAD_BEEF_DEAD_BEEF; (num_pages * PAGE_SIZE / 8) as usize])
}

fn region(ty: MemoryType, phys_start: u64, page_count: u64) -> MemoryDescriptor {
    MemoryDescriptor { ty, att: 0, page_count, phys_start, virt_start: 0 }
}

/// Tests that we are computing the usable ranges correctly, with one
/// two-page usable range. The first will be the memory map and the second
/// will be available for allocations.
#[test]
fn avilable_regions_with_single_usable_range() {
    let mut memory = physical_memory(2);

    let memory_map = TestMemoryMap::new(vec![MemoryDescriptor {
        ty: MemoryType::Conventional,
        att: 0,
        page_count: 2,
        phys_start: 0,
        virt_start: 0,
    }]);

    let memory_manager = PhysicalMemoryManager::init(&mut memory, &memory_map, OFFSET);

    assert!(!memory_manager.is_available(&memory, 0));
    assert!(memory_manager.is_available(&memory, 1));

    assert_eq!(
        memory_manager.fmt(&memory),
        "Available Memory Regions:\n0x1000..0x2000: 1 pages\n".to_string()
    );
}

/// Tests that we are computing the usable ranges correctly, with 6 pages.
/// The first page will be used for the memory map and the rest will be
/// usable, except for one page in the middle.
#[test]
fn avilable_regions_with_multiple_usable_ranges() {
    let mut memory = physical_memory(6);

    let memory_map = TestMemoryMap::new(vec![
        MemoryDescriptor {
            ty: MemoryType::Conventional,
            att: 0,
            page_count: 3,
            phys_start: 0,
            virt_start: 0,
        },
        MemoryDescriptor {
            ty: MemoryType::Conventional,
            att: 0,
            page_count: 2,
            phys_start: PAGE_SIZE * 4,
            virt_start: 0,
        },
    ]);

    let memory_manager = PhysicalMemoryManager::init(&mut memory, &memory_map, OFFSET);

    assert!(!memory_manager.is_available(&memory, 0));
    assert!(memory_manager.is_available(&memory, 1));
    assert!(memory_manager.is_available(&memory, 2));
    assert!(!memory_manager.is_available(&memory, 3));
    assert!(memory_manager.is_available(&memory, 4));
    assert!(memory_manager.is_available(&memory, 5));

    assert_eq!(
        memory_manager.fmt(&memory),
        "Available Memory Regions:\n0x1000..0x3000: 2 pages\n0x4000..0x6000: 2 pages\n"
            .to_string()
    );
    assert_eq!(memory_manager.available_regions(&memory), vec![1..3, 4..6]);
}

/// Tests that we can allocate pages.
#[test]
fn page_allocation() {
    let mut memory = physical_memory(10);

    let memory_map = TestMemoryMap::new(vec![MemoryDescriptor {
        ty: MemoryType::Conventional,
        att: 0,
        page_count: 10,
        phys_start: 0,
        virt_start: 0,
    }]);

    let memory_manager = PhysicalMemoryManager::init(&mut memory, &memory_map, OFFSET);

    let expected_page_index = 1;

    assert!(memory_manager.is_available(&memory, expected_page_index));

    let actual_allocation = memory_manager.allocate_page(&mut memory).unwrap();

    assert_eq!(actual_allocation.index, expected_page_index);

    assert!(!memory_manager.is_available(&memory, expected_page_index));
}

/// Not all bits in the last word in the bitmap will be valid, if the
/// number of pages does not happen to be a multiple of 64. This tests that
/// we limit the last word, avoiding allocation of physical memory that
/// does not exist.
#[test]
fn page_allocation_overflow() {
    let mut memory = physical_memory(7);

    let memory_map = TestMemoryMap::new(vec![MemoryDescriptor {
        ty: MemoryType::Conventional,
        att: 0,
        page_count: 7,
        phys_start: 0,
        virt_start: 0,
    }]);

    let memory_manager = PhysicalMemoryManager::init(&mut memory, &memory_map, OFFSET);

    // One page is taken up by the bitmap, so we can only allocate 6 pages
    for _ in 0..6 {
        memory_manager.allocate_page(&mut memory).unwrap();
    }

    assert_eq!(memory_manager.allocate_page(&mut memory), None);
}

#[test]
fn each_page_is_allocated_once() {
    let mut memory = physical_memory(200);
    let memory_map = TestMemoryMap::new(vec![
        region(MemoryType::Reserved, 0, 70),
        region(MemoryType::BootServicesData, 70 * PAGE_SIZE, 60),
        region(MemoryType::LoaderData, 130 * PAGE_SIZE, 10),
        region(MemoryType::BootServicesCode, 140 * PAGE_SIZE, 60),
    ]);
    let manager = PhysicalMemoryManager::init(&mut memory, &memory_map, OFFSET);

    assert_eq!(manager.page_count, 200);
    assert_eq!(manager.bitmap_ptr, OFFSET + 70 * PAGE_SIZE);
    assert_eq!(manager.available_regions(&memory), vec![71..130, 140..200]);

    let mut expected: Vec<u64> = (71..130).collect();
    expected.extend(140..200);
    for index in expected {
        let page = manager.allocate_page(&mut memory).unwrap();
        assert_eq!(page, PageAllocation { index, physical_offset: OFFSET });
        assert!(!manager.is_available(&memory, index));
    }
    assert_eq!(manager.allocate_page(&mut memory), None);
    assert!(manager.available_regions(&memory).is_empty());
    assert_eq!(manager.fmt(&memory), "Available Memory Regions:\n");
}

#[test]
fn freed_page_is_allocated_again() {
    let mut memory = physical_memory(130);
    let memory_map = TestMemoryMap::new(vec![region(MemoryType::Conventional, 0, 130)]);
    let manager = PhysicalMemoryManager::init(&mut memory, &memory_map, OFFSET);
    while manager.allocate_page(&mut memory).is_some() {}

    manager.free_page(&mut memory, 129);
    manager.free_page(&mut memory, 64);
    assert!(manager.is_available(&memory, 64));
    assert_eq!(manager.available_regions(&memory), vec![64..65, 129..130]);
    assert_eq!(manager.fmt(&memory),
        "Available Memory Regions:\n0x40000..0x41000: 1 pages\n0x81000..0x82000: 1 pages\n");

    assert_eq!(manager.allocate_page(&mut memory).unwrap().index, 64);
    assert_eq!(manager.allocate_page(&mut memory).unwrap().index, 129);
    assert_eq!(manager.allocate_page(&mut memory), None);
}

#[test]
fn regions_that_touch_are_merged() {
    let mut memory = physical_memory(64);
    let memory_map = TestMemoryMap::new(vec![
        region(MemoryType::Conventional, 0, 1),
        region(MemoryType::Conventional, 4 * PAGE_SIZE, 30),
        region(MemoryType::BootServicesCode, 34 * PAGE_SIZE, 30),
    ]);
    let manager = PhysicalMemoryManager::init(&mut memory, &memory_map, OFFSET);

    assert_eq!(manager.available_regions(&memory), vec![4..64]);
}

/// The pages of the kernel need not start where those of the firmware do.
#[test]
fn partial_pages_are_not_available() {
    let mut memory = physical_memory(8);
    let memory_map = TestMemoryMap::new(vec![
        region(MemoryType::Conventional, 0, 1),
        region(MemoryType::Conventional, 2 * PAGE_SIZE + 0x800, 3),
    ]);
    let manager = PhysicalMemoryManager::init(&mut memory, &memory_map, OFFSET);

    assert_eq!(manager.page_count, 6);
    assert_eq!(manager.available_regions(&memory), vec![3..5]);
}

#[test]
fn bitmap_goes_into_the_first_region_with_room() {
    // 40000 pages need 5000 bytes, which is two pages.
    let count = 40000;
    let mut memory = physical_memory(16);
    let memory_map = TestMemoryMap::new(vec![
        region(MemoryType::Conventional, PAGE_SIZE, 1),
        region(MemoryType::Reserved, 2 * PAGE_SIZE, 8),
        region(MemoryType::Conventional, 10 * PAGE_SIZE, count - 10),
    ]);
    let manager = PhysicalMemoryManager::init(&mut memory, &memory_map, OFFSET);

    assert_eq!(manager.page_count, count);
    assert_eq!(manager.bitmap_ptr, OFFSET + 10 * PAGE_SIZE);
    assert_eq!(manager.available_regions(&memory), vec![1..2, 12..count]);
}

#[test]
fn memory_outside_the_bitmap_is_left_alone() {
    let mut memory = physical_memory(2);
    let memory_map = TestMemoryMap::new(vec![region(MemoryType::Conventional, 0, 2)]);
    PhysicalMemoryManager::init(&mut memory, &memory_map, OFFSET);

    assert_eq!(memory.read(OFFSET), 2);
    for i in 1..1024 {
        assert_eq!(memory.read(OFFSET + 8 * i), 0xDEAD_BEEF_DEAD_BEEF);
    }
}

#[test]
fn page_has_an_address() {
    let page = PageAllocation { index: 5, physical_offset: OFFSET };

    assert_eq!(page.frame(), 0x5000);
    assert_eq!(page.as_ptr(), 0xFFFF_8800_0000_5000);
}

#[test]
fn memory_map_is_summed_up() {
    let memory_map = TestMemoryMap::new(vec![
        region(MemoryType::Conventional, 0, 1),
        region(MemoryType::Conventional, 0x3800, 2),
        region(MemoryType::Mmio, 0x10_0000, 2),
    ]);

    assert_eq!(memory_map.entry_count(), 3);
    assert_eq!(memory_map.entry(1).phys_start, 0x3800);
    assert_eq!(physical_page_count(&memory_map), 6);
    assert_eq!(find_region(&memory_map, 0x1000).unwrap().phys_start, 0);
    assert_eq!(find_region(&memory_map, 0x1001).unwrap().phys_start, 0x3800);
    assert_eq!(find_region(&memory_map, 0x2001), None);

    let empty = TestMemoryMap::new(vec![]);
    assert_eq!(physical_page_count(&empty), 0);
    assert_eq!(find_region(&empty, 0), None);
}

#[test]
fn usable_types() {
    assert!(is_usable(MemoryType::Conventional));
    assert!(is_usable(MemoryType::BootServicesCode));
    assert!(is_usable(MemoryType::BootServicesData));
    assert!(!is_usable(MemoryType::LoaderCode));
    assert!(!is_usable(MemoryType::LoaderData));
    assert!(!is_usable(MemoryType::RuntimeServicesData));
    assert!(!is_usable(MemoryType::AcpiReclaim));
    assert!(!is_usable(MemoryType::Custom(0x8000_0000)));
}

#[test]
fn lowest_bit_is_taken() {
    assert_eq!(take_lowest_bit(0), None);
    assert_eq!(take_lowest_bit(1), Some((0, 0)));
    assert_eq!(take_lowest_bit(0b1011_0000), Some((0b1010_0000, 4)));
    assert_eq!(take_lowest_bit(1 << 63), Some((0, 63)));
    assert_eq!(take_lowest_bit(u64::MAX), Some((u64::MAX - 1, 0)));
}

#[test]
fn division_rounds_up() {
    assert_eq!(div_ceil(0, 64), 0);
    assert_eq!(div_ceil(1, 64), 1);
    assert_eq!(div_ceil(64, 64), 1);
    assert_eq!(div_ceil(65, 64), 2);
    assert_eq!(div_ceil(u64::MAX, 2), 1 << 63);
    assert_eq!(div_ceil(u64::MAX, 1), u64::MAX);
}

#[test]
fn memory_is_changed_by_words() {
    let mut memory = PhysicalMemory::new(OFFSET, vec![1, 2, 3]);

    assert_eq!(memory.compare_exchange(OFFSET + 8, 2, 20), Ok(2));
    assert_eq!(memory.compare_exchange(OFFSET + 8, 2, 200), Err(20));
    assert_eq!(memory.fetch_or(OFFSET + 16, 4), 3);
    memory.write(OFFSET, 10);
    assert_eq!(memory.read(OFFSET), 10);
    assert_eq!(memory.read(OFFSET + 8), 20);
    assert_eq!(memory.read(OFFSET + 16), 7);
}

#[test]
fn bitmap_needs_room() {
    let memory_map = TestMemoryMap::new(vec![
        region(MemoryType::Conventional, 0, 1),
        region(MemoryType::Conventional, 0x10_0000, 40000),
    ]);
    // The bitmap takes 5032 bytes, from 0x100000 on.
    let words = (0x10_0000 + 5032) / 8;
    assert!(has_room_for_bitmap(&memory_map, OFFSET, words));
    assert!(!has_room_for_bitmap(&memory_map, OFFSET, words - 1));
    assert!(!has_room_for_bitmap(&memory_map, u64::MAX - 0x10_0000, words));

    assert!(!has_room_for_bitmap(&TestMemoryMap::new(vec![]), OFFSET, 1 << 40));
    let apart = TestMemoryMap::new(vec![
        region(MemoryType::Conventional, 1 << 30, 1),
    ]);
    assert!(!has_room_for_bitmap(&apart, OFFSET, 1 << 40));
    let unaligned = TestMemoryMap::new(vec![region(MemoryType::Conventional, 4, 1)]);
    assert!(!has_room_for_bitmap(&unaligned, OFFSET, 1 << 40));
}

#[test]
fn usable_regions_have_to_end_in_the_address_space() {
    let last = u64::MAX - PAGE_SIZE + 1;

    assert!(all_regions_fit(&TestMemoryMap::new(vec![
        region(MemoryType::Conventional, last - PAGE_SIZE, 1),
        region(MemoryType::Mmio, last, 1),
    ])));
    assert!(!all_regions_fit(&TestMemoryMap::new(vec![
        region(MemoryType::Conventional, 0, 1),
        region(MemoryType::Conventional, last, 1),
    ])));
}

#[test]
fn bitmap_is_described() {
    assert_eq!(
        page_count_line(200),
        "Physical page count: 200, Bitmap size: 32 bytes in 1 pages\n"
    );
    assert_eq!(
        page_count_line(40000),
        "Physical page count: 40000, Bitmap size: 5000 bytes in 2 pages\n"
    );
    assert_eq!(page_count_line(0), "Physical page count: 0, Bitmap size: 0 bytes in 0 pages\n");

    let manager = PhysicalMemoryManager {
        bitmap_ptr: OFFSET + 0xA000,
        physical_offset: OFFSET,
        page_count: 200,
    };
    assert_eq!(
        manager.bitmap_line(),
        "Bitmap at 0xA000 in physical memory and 0xFFFF88000000A000 in virtual memory\n"
    );
}

/// Calls are given as many pages as there are, and the other pages stay available.
#[test]
fn pages_are_shared_out() {
    let memory_map = TestMemoryMap::new(vec![region(MemoryType::Conventional, 0, 10)]);
    for calls in [0, 1, 8, 9, 10, 20] {
        let mut memory = physical_memory(10);
        let manager = PhysicalMemoryManager::init(&mut memory, &memory_map, OFFSET);

        let pages: Vec<u64> = (0..calls)
            .filter_map(|_| manager.allocate_page(&mut memory))
            .map(|page| page.index)
            .collect();

        assert_eq!(pages.len(), std::cmp::min(calls, 9));
        for page in 1..10 {
            assert_eq!(manager.is_available(&memory, page), !pages.contains(&page));
        }
    }
}

/// Another processor takes the page that is about to be allocated, and then others.
#[test]
fn pages_are_allocated_while_others_do() {
    let manager = PhysicalMemoryManager { bitmap_ptr: 8, physical_offset: 0, page_count: 128 };
    let set_up = |changes| InterruptedMemory::new(0, vec![7, 0b1110, 0b100], changes);

    // Nobody interferes.
    let mut memory = set_up(vec![]);
    assert_eq!(manager.allocate_shared_page(&mut memory).unwrap().index, 1);
    assert_eq!(memory.words(), &vec![7, 0b1100, 0b100]);

    // After the word was read, page 1 is taken.
    let mut memory = set_up(vec![(1, 0b1100), (0, 8)]);
    assert_eq!(manager.allocate_shared_page(&mut memory).unwrap().index, 2);
    assert_eq!(memory.words(), &vec![8, 0b1000, 0b100]);

    // After the word was read, all of its pages are taken.
    let mut memory = set_up(vec![(1, 0), (0, 8)]);
    assert_eq!(manager.allocate_shared_page(&mut memory).unwrap().index, 66);
    assert_eq!(memory.words(), &vec![8, 0, 0]);

    // All of the pages are taken, one after the other.
    let mut memory = set_up(vec![(2, 0), (1, 0), (1, 0b1000), (1, 0b1100)]);
    assert_eq!(manager.allocate_shared_page(&mut memory), None);
    assert_eq!(memory.words(), &vec![7, 0, 0]);

    // A page is freed that has been passed already.
    let mut memory = set_up(vec![(1, 1), (1, 0), (1, 0b1000)]);
    assert_eq!(manager.allocate_shared_page(&mut memory).unwrap().index, 66);
    assert_eq!(memory.words(), &vec![7, 1, 0]);
}

#[test]
fn shared_memory_is_changed_by_words() {
    let mut memory = InterruptedMemory::new(0x1000, vec![1, 2], vec![(0, 30), (9, 9), (1, 20)]);

    assert_eq!(memory.load_shared(0x1008), 20);
    assert_eq!(memory.exchange_shared(0x1000, 1, 10), Ok(1));
    assert_eq!(memory.exchange_shared(0x1000, 10, 100), Err(30));
    assert_eq!(memory.words(), &vec![30, 20]);
    assert_eq!(memory.set_shared(0x1008, 3), 20);
    assert_eq!(memory.words(), &vec![30, 23]);

    // Memory that nobody else uses is not interfered with.
    let mut memory = PhysicalMemory::new(0x1000, vec![1, 2]);
    assert_eq!(memory.exchange_shared(0x1008, 2, 20), Ok(2));
    assert_eq!(memory.exchange_shared(0x1008, 2, 30), Err(20));
    assert_eq!(memory.load_shared(0x1008), 20);
    assert_eq!(memory.set_shared(0x1008, 1), 20);
    assert_eq!(memory.read(0x1008), 21);
}

/// A page is freed while another processor takes one, and neither change is lost.
#[test]
fn pages_are_freed_while_others_allocate() {
    let manager = PhysicalMemoryManager { bitmap_ptr: 8, physical_offset: 0, page_count: 128 };
    let mut memory = InterruptedMemory::new(0, vec![7, 0b1110, 0], vec![(1, 0b1100)]);

    manager.free_shared_page(&mut memory, 64 + 5);
    manager.free_shared_page(&mut memory, 63);

    assert_eq!(memory.words(), &vec![7, 0b1100 | 1 << 63, 1 << 5]);
    assert_eq!(manager.allocate_shared_page(&mut memory).unwrap().index, 2);
}
