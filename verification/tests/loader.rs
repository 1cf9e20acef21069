use camos::kernel_file::{load_segments, parse_kernel, ElfFile, ProgramHeader, PT_LOAD};
use camos::loader::{
    all_mapped_regions_fit, can_identity_map, can_load_segment, can_map_segment,
    can_place_segment, identity_mapping, identity_mappings, is_mapped_type, kernel_stack,
    load_segment, load_trampoline, map_kernel, max_phys_addr, pages_for, physical_memory_fits,
    physical_memory_mappings, place_kernel, place_segment, segment_in_kernel_range,
    segment_mappings, LoaderError, SegmentPlacement, KERNEL_EXECUTABLE_END, KERNEL_EXECUTABLE_START, KERNEL_START,
    PHYSICAL_MEMORY_END, PHYSICAL_MEMORY_START, STACK_START,
};
use camos::mapping::{Mapping, MappingFlags};
use camos::memory_map::{MemoryDescriptor, MemoryType, TestMemoryMap, FIRMWARE_PAGE_SIZE};
use camos::phys_alloc::physical_page_count;
use camos::PAGE_SIZE;

fn segment(p_vaddr: u64, p_offset: u64, p_filesz: u64, p_memsz: u64) -> ProgramHeader {
    ProgramHeader { p_type: PT_LOAD, p_offset, p_vaddr, p_filesz, p_memsz }
}

fn region(ty: MemoryType, phys_start: u64, page_count: u64) -> MemoryDescriptor {
    MemoryDescriptor { ty, att: 0, page_count, phys_start, virt_start: 0 }
}

/// A 64-bit little-endian ELF file with the given program headers.
fn elf_bytes(entry: u64, with_table: bool, headers: &[ProgramHeader]) -> Vec<u8> {
    let mut bytes: Vec<u8> = vec![0x7F, b'E', b'L', b'F', 2, 1, 1, 0, 0, 0, 0, 0, 0, 0, 0, 0];
    bytes.extend(2u16.to_le_bytes());
    bytes.extend(0x3Eu16.to_le_bytes());
    bytes.extend(1u32.to_le_bytes());
    bytes.extend(entry.to_le_bytes());
    bytes.extend(if with_table { 64u64 } else { 0u64 }.to_le_bytes());
    bytes.extend(0u64.to_le_bytes());
    bytes.extend(0u32.to_le_bytes());
    bytes.extend(64u16.to_le_bytes());
    bytes.extend(56u16.to_le_bytes());
    bytes.extend((headers.len() as u16).to_le_bytes());
    bytes.extend(64u16.to_le_bytes());
    bytes.extend(0u16.to_le_bytes());
    bytes.extend(0u16.to_le_bytes());
    for header in headers {
        bytes.extend(header.p_type.to_le_bytes());
        bytes.extend(5u32.to_le_bytes());
        bytes.extend(header.p_offset.to_le_bytes());
        bytes.extend(header.p_vaddr.to_le_bytes());
        bytes.extend(0u64.to_le_bytes());
        bytes.extend(header.p_filesz.to_le_bytes());
        bytes.extend(header.p_memsz.to_le_bytes());
        bytes.extend(PAGE_SIZE.to_le_bytes());
    }
    bytes
}

#[test]
fn kernel_is_parsed() {
    let code = segment(0xFFFF_FFFF_8000_0000, 0x1000, 0x345, 0x345);
    let note = ProgramHeader { p_type: 4, ..segment(0, 0x200, 0x20, 0x20) };
    let data = segment(0xFFFF_FFFF_8000_2010, 0x2010, 0x10, 0x1000);
    let bytes = elf_bytes(0xFFFF_FFFF_8000_0040, true, &[code, note, data]);

    let file = parse_kernel(&bytes).unwrap();

    assert_eq!(file.entry, 0xFFFF_FFFF_8000_0040);
    assert_eq!(file.segments, Some(vec![code, note, data]));
    assert_eq!(load_segments(&file).unwrap(), vec![code, data]);
}

#[test]
fn kernel_that_is_no_elf_file_is_refused() {
    assert!(matches!(parse_kernel(&[]), Err(LoaderError::ElfParse(_))));
    assert!(matches!(parse_kernel(&[0; 128]), Err(LoaderError::ElfParse(_))));

    // The program headers are cut off.
    let mut bytes = elf_bytes(0, true, &[segment(0, 0, 0, 0)]);
    bytes.pop();
    assert!(matches!(parse_kernel(&bytes), Err(LoaderError::ElfParse(_))));
}

#[test]
fn kernel_without_segments_is_refused() {
    let file = parse_kernel(&elf_bytes(0x1234, false, &[])).unwrap();

    assert_eq!(file.entry, 0x1234);
    assert_eq!(file.segments, None);
    assert!(matches!(load_segments(&file), Err(LoaderError::InvalidKernelElf)));

    let empty = ElfFile { entry: 0, segments: Some(vec![]) };
    assert_eq!(load_segments(&empty).unwrap(), vec![]);
}

#[test]
fn segment_is_placed() {
    assert_eq!(
        place_segment(&segment(0xFFFF_FFFF_8000_2010, 0, 0, 0xFF0)),
        SegmentPlacement {
            page_offset: 0x10,
            vaddr_page_start: 0xFFFF_FFFF_8000_2000,
            n_pages: 1,
        }
    );
    assert_eq!(place_segment(&segment(0xFFFF_FFFF_8000_2010, 0, 0, 0xFF1)).n_pages, 2);
    assert_eq!(place_segment(&segment(0xFFFF_FFFF_8000_2000, 0, 0, 0)).n_pages, 0);
    assert_eq!(place_segment(&segment(0xFFFF_FFFF_8000_2000, 0, 0, 0x1000)).n_pages, 1);
}

#[test]
fn segment_has_to_lie_in_its_region() {
    let at = |vaddr_page_start, n_pages| SegmentPlacement { page_offset: 0, vaddr_page_start, n_pages };
    let all = (KERNEL_EXECUTABLE_END - KERNEL_EXECUTABLE_START) / PAGE_SIZE;

    assert!(segment_in_kernel_range(&at(KERNEL_EXECUTABLE_START, all)));
    assert!(!segment_in_kernel_range(&at(KERNEL_EXECUTABLE_START, all + 1)));
    assert!(!segment_in_kernel_range(&at(KERNEL_EXECUTABLE_START, u64::MAX)));
    assert!(!segment_in_kernel_range(&at(KERNEL_EXECUTABLE_START - PAGE_SIZE, 1)));
    assert!(segment_in_kernel_range(&at(KERNEL_EXECUTABLE_END - PAGE_SIZE, 1)));
    assert!(!segment_in_kernel_range(&at(KERNEL_EXECUTABLE_END - PAGE_SIZE, 2)));
    assert!(segment_in_kernel_range(&at(KERNEL_EXECUTABLE_END, 0)));
    assert!(!segment_in_kernel_range(&at(KERNEL_EXECUTABLE_END + PAGE_SIZE, 0)));
    assert!(!segment_in_kernel_range(&at(0, 1)));
}

#[test]
fn segment_is_copied_and_padded() {
    let kernel: Vec<u8> = (0..100).collect();
    let mut pages = vec![0xAA; 4096];

    load_segment(&mut pages, &kernel, &segment(0x1010, 20, 5, 9));

    let mut expected = vec![0xAA; 4096];
    expected[0x10..0x15].copy_from_slice(&[20, 21, 22, 23, 24]);
    expected[0x15..0x19].copy_from_slice(&[0, 0, 0, 0]);
    assert_eq!(pages, expected);
}

#[test]
fn segment_without_padding_is_copied() {
    let kernel: Vec<u8> = (0..100).collect();
    let mut pages = vec![0xAA; 64];

    load_segment(&mut pages, &kernel, &segment(0x1000, 98, 2, 2));

    assert_eq!(pages[..3], [98, 99, 0xAA]);
}

/// A byte of a segment is found where its address is mapped to.
#[test]
fn segment_is_mapped_where_it_was_copied() {
    let kernel: Vec<u8> = (0..=255).cycle().take(9000).collect();
    let header = segment(0xFFFF_FFFF_8000_3FF0, 100, 5000, 6000);
    let placement = place_segment(&header);
    assert!(segment_in_kernel_range(&placement));
    let mut pages = vec![0xAA; (placement.n_pages * PAGE_SIZE) as usize];
    load_segment(&mut pages, &kernel, &header);

    let range = segment_mappings(&placement, 0x20_0000).unwrap();

    assert_eq!(range.count, 3);
    for i in 0..range.count {
        let mapping = range.get(i);
        assert_eq!(
            mapping,
            Mapping {
                page: 0xFFFF_FFFF_8000_3000 + i * PAGE_SIZE,
                frame: 0x20_0000 + i * PAGE_SIZE,
                flags: MappingFlags {
                    present: true,
                    writable: false,
                    global: true,
                    no_execute: false,
                },
            }
        );
        for offset in 0..PAGE_SIZE {
            let addr = mapping.page + offset;
            let byte = pages[(mapping.frame + offset - 0x20_0000) as usize];
            if addr < header.p_vaddr || addr >= header.p_vaddr + header.p_memsz {
                assert_eq!(byte, 0xAA);
            } else if addr < header.p_vaddr + header.p_filesz {
                assert_eq!(byte, kernel[(100 + addr - header.p_vaddr) as usize]);
            } else {
                assert_eq!(byte, 0);
            }
        }
    }
}

#[test]
fn frames_have_to_be_aligned() {
    let placement = place_segment(&segment(0xFFFF_FFFF_8000_0000, 0, 0, 1));

    assert!(matches!(segment_mappings(&placement, 0x1008), Err(LoaderError::AddressNotAligned)));
    assert!(matches!(kernel_stack(0x1008), Err(LoaderError::AddressNotAligned)));
    assert!(matches!(identity_mapping(0x1008), Err(LoaderError::AddressNotAligned)));

    // That an address is not aligned is found before the frame is looked at.
    assert!(matches!(
        identity_mapping(0x7000_0000_0001),
        Err(LoaderError::AddressNotAligned)
    ));
    assert!(matches!(
        identity_mapping(0xFFFF_8000_0000_0001),
        Err(LoaderError::AddressNotAligned)
    ));
    let pages = place_segment(&segment(0xFFFF_FFFF_8000_0000, 0, 0, 0x2000));
    assert!(can_map_segment(&pages, 0xF_FFFF_FFFF_F008));
    assert!(matches!(
        segment_mappings(&pages, 0xF_FFFF_FFFF_F008),
        Err(LoaderError::AddressNotAligned)
    ));
    let unaligned = SegmentPlacement {
        page_offset: 0,
        vaddr_page_start: 0xFFFF_FFFF_8000_0008,
        n_pages: 1,
    };
    assert!(can_map_segment(&unaligned, u64::MAX));
    assert!(matches!(
        segment_mappings(&unaligned, u64::MAX),
        Err(LoaderError::AddressNotAligned)
    ));

    // There is nothing to map, so nothing to be aligned.
    let nothing = place_segment(&segment(0xFFFF_FFFF_8000_0000, 0, 0, 0));
    assert_eq!(segment_mappings(&nothing, 0x1008).unwrap().count, 0);
}

#[test]
fn stack_is_the_second_page() {
    let (range, rsp) = kernel_stack(0x7000).unwrap();

    assert_eq!(range.count, 1);
    assert_eq!(
        range.get(0),
        Mapping {
            page: STACK_START + 0x1000,
            frame: 0x7000,
            flags: MappingFlags { present: true, writable: true, global: false, no_execute: true },
        }
    );
    assert_eq!(rsp, STACK_START + 0x2000);
}

#[test]
fn trampoline_is_mapped_at_its_own_address() {
    let range = identity_mapping(0x9000).unwrap();

    assert_eq!(range.count, 1);
    assert_eq!(
        range.get(0),
        Mapping {
            page: 0x9000,
            frame: 0x9000,
            flags: MappingFlags {
                present: true,
                writable: false,
                global: false,
                no_execute: false,
            },
        }
    );

    let mut page = vec![0xAA; 8];
    load_trampoline(&mut page, &[1, 2, 3]);
    assert_eq!(page, vec![1, 2, 3, 0xAA, 0xAA, 0xAA, 0xAA, 0xAA]);
}

#[test]
fn size_of_physical_memory() {
    let memory_map = TestMemoryMap::new(vec![
        region(MemoryType::Conventional, 0, 16),
        region(MemoryType::Mmio, 0x20_0000, 2),
        region(MemoryType::Conventional, 0x10_0000, 1),
        region(MemoryType::RuntimeServicesCode, 0x40_0000, 100),
    ]);
    assert_eq!(max_phys_addr(&memory_map).unwrap(), 0x20_2000);

    let nothing = TestMemoryMap::new(vec![region(MemoryType::Reserved, 0, 16)]);
    assert!(matches!(max_phys_addr(&nothing), Err(LoaderError::InvalidMemoryMap)));
    let empty = TestMemoryMap::new(vec![]);
    assert!(matches!(max_phys_addr(&empty), Err(LoaderError::InvalidMemoryMap)));
}

#[test]
fn mapped_types() {
    for ty in [
        MemoryType::LoaderCode,
        MemoryType::LoaderData,
        MemoryType::BootServicesCode,
        MemoryType::BootServicesData,
        MemoryType::Conventional,
        MemoryType::AcpiReclaim,
        MemoryType::AcpiNonVolatile,
        MemoryType::Mmio,
        MemoryType::MmioPortSpace,
        MemoryType::PalCode,
        MemoryType::PersistentMemory,
    ] {
        assert!(is_mapped_type(ty));
    }
    for ty in [
        MemoryType::Reserved,
        MemoryType::RuntimeServicesCode,
        MemoryType::RuntimeServicesData,
        MemoryType::Unusable,
        MemoryType::Custom(0x7000_0000),
    ] {
        assert!(!is_mapped_type(ty));
    }
}

#[test]
fn physical_memory_is_mapped_at_an_offset() {
    let range = physical_memory_mappings(0x3001);

    assert_eq!(range.count, 4);
    for i in 0..4 {
        assert_eq!(
            range.get(i),
            Mapping {
                page: PHYSICAL_MEMORY_START + i * PAGE_SIZE,
                frame: i * PAGE_SIZE,
                flags: MappingFlags {
                    present: true,
                    writable: true,
                    global: true,
                    no_execute: false,
                },
            }
        );
    }
    assert_eq!(physical_memory_mappings(0x3000).count, 3);
    assert_eq!(physical_memory_mappings(1).count, 1);
}

#[test]
fn physical_memory_has_to_fit() {
    let room = PHYSICAL_MEMORY_END - PHYSICAL_MEMORY_START;

    assert!(physical_memory_fits(0));
    assert!(physical_memory_fits(room));
    assert!(!physical_memory_fits(room + 1));
    assert!(!physical_memory_fits(u64::MAX));
    assert_eq!(physical_memory_mappings(room).count, room / PAGE_SIZE);
}

#[test]
fn memory_map_is_mapped_at_its_own_address() {
    let range = identity_mappings(0x1FF8, 0x3001);

    assert_eq!(range.count, 3);
    assert_eq!((range.get(0).page, range.get(0).frame), (0x1000, 0x1000));
    assert_eq!((range.get(2).page, range.get(2).frame), (0x3000, 0x3000));
    assert_eq!(
        range.flags,
        MappingFlags { present: true, writable: false, global: false, no_execute: false }
    );
    assert_eq!(identity_mappings(0x1000, 0x2000).count, 1);
    assert_eq!(identity_mappings(0x1000, 0x1000).count, 0);
    assert_eq!(identity_mappings(0x1800, 0x1800).count, 1);
}

#[test]
fn memory_map_has_to_lie_below_the_kernel() {
    assert!(can_identity_map(0, 0x1000));
    assert!(can_identity_map(0x7FFF_FFFF_E000, 0x7FFF_FFFF_F000));
    // The end of the last page below the gap is not an address.
    assert!(!can_identity_map(0x7FFF_FFFF_F000, 0x7FFF_FFFF_FFFF));
    assert!(!can_identity_map(KERNEL_START, KERNEL_START + 1));
    assert!(can_identity_map(KERNEL_START, KERNEL_START));
    assert!(!can_identity_map(KERNEL_START - 1, KERNEL_START + 0x1000));
    assert!(!can_identity_map(0x1000, 0x10_0000_0000_1000));
}

/// No page is mapped twice.
#[test]
fn regions_do_not_overlap() {
    let (stack, rsp) = kernel_stack(0x7000).unwrap();
    let placement = SegmentPlacement {
        page_offset: 0,
        vaddr_page_start: KERNEL_EXECUTABLE_START,
        n_pages: (KERNEL_EXECUTABLE_END - KERNEL_EXECUTABLE_START) / PAGE_SIZE,
    };
    let kernel = segment_mappings(&placement, 0x10_0000).unwrap();
    let memory = physical_memory_mappings(PHYSICAL_MEMORY_END - PHYSICAL_MEMORY_START);
    let shared = identity_mappings(0x1000, 0x7FFF_FFFF_F000);

    let end = |range: &camos::mapping::MappingRange| range.get(range.count - 1).page + PAGE_SIZE;
    assert!(end(&shared) <= memory.virt_start);
    assert!(end(&memory) <= kernel.virt_start);
    assert!(end(&kernel) <= stack.virt_start);
    assert_eq!(end(&stack), rsp);
}

#[test]
fn pages_are_counted() {
    assert_eq!(pages_for(0), 0);
    assert_eq!(pages_for(1), 1);
    assert_eq!(pages_for(4096), 1);
    assert_eq!(pages_for(4097), 2);
}

#[test]
fn errors_are_converted() {
    let not_aligned = x86_64::structures::paging::page::AddressNotAligned;
    assert!(matches!(LoaderError::from(not_aligned), LoaderError::AddressNotAligned));
    let bad_magic = elf::ParseError::BadMagic([0; 4]);
    assert!(matches!(
        LoaderError::from(bad_magic),
        LoaderError::ElfParse(elf::ParseError::BadMagic([0, 0, 0, 0]))
    ));
}

#[test]
fn kernel_is_mapped() {
    let code = segment(0xFFFF_FFFF_8000_0000, 0x1000, 0x1345, 0x1345);
    let data = segment(0xFFFF_FFFF_8000_2010, 0x2010, 0x10, 0x1000);
    let nothing = segment(0xFFFF_FFFF_8000_8000, 0, 0, 0);
    let placements = place_kernel(&[code, data, nothing]);
    assert_eq!(
        placements,
        vec![place_segment(&code), place_segment(&data), place_segment(&nothing)]
    );

    let ranges = map_kernel(&placements, &[0x10_0000, 0x5000, 7]).unwrap();

    let mappings: Vec<(u64, u64)> = ranges
        .iter()
        .flat_map(|range| (0..range.count).map(|i| (range.get(i).page, range.get(i).frame)))
        .collect();
    assert_eq!(
        mappings,
        vec![
            (0xFFFF_FFFF_8000_0000, 0x10_0000),
            (0xFFFF_FFFF_8000_1000, 0x10_1000),
            (0xFFFF_FFFF_8000_2000, 0x5000),
            (0xFFFF_FFFF_8000_3000, 0x6000),
        ]
    );
    assert!(matches!(
        map_kernel(&placements, &[0x10_0000, 0x5001, 7]),
        Err(LoaderError::AddressNotAligned)
    ));
    assert_eq!(map_kernel(&[], &[]).unwrap(), vec![]);
}

#[test]
fn segments_are_checked() {
    assert!(can_place_segment(&segment(0x7FFF_FFFF_FFFF, 0, 0, 1)));
    assert!(!can_place_segment(&segment(0x8000_0000_0000, 0, 0, 1)));
    assert!(!can_place_segment(&segment(0xFFFF_7FFF_FFFF_FFFF, 0, 0, 1)));
    assert!(can_place_segment(&segment(0xFFFF_8000_0000_0000, 0, 0, u64::MAX)));
    assert!(!can_place_segment(&segment(0xFFFF_8000_0000_0001, 0, 0, u64::MAX)));

    assert!(can_load_segment(&segment(0x10, 90, 10, 20), 100, 36));
    assert!(!can_load_segment(&segment(0x10, 91, 10, 20), 100, 36));
    assert!(!can_load_segment(&segment(0x10, 101, 0, 20), 100, 36));
    assert!(!can_load_segment(&segment(0x10, 90, 10, 21), 100, 36));
    assert!(!can_load_segment(&segment(0x10, 0, 21, 0), 100, 36));
    assert!(!can_load_segment(&segment(0x10, 0, 0, 0), 100, 15));

    let page = place_segment(&segment(KERNEL_EXECUTABLE_START, 0, 0, 1));
    assert!(can_map_segment(&page, 0xF_FFFF_FFFF_F000));
    assert!(!can_map_segment(&page, 0x10_0000_0000_0000));
    let pages = place_segment(&segment(KERNEL_EXECUTABLE_START, 0, 0, PAGE_SIZE + 1));
    assert!(!can_map_segment(&pages, 0xF_FFFF_FFFF_F000));
    assert!(!can_map_segment(&place_segment(&segment(0, 0, 0, 1)), 0));
}

#[test]
fn regions_have_to_end_in_the_address_space() {
    let end = u64::MAX - PAGE_SIZE + 1;
    let fits = TestMemoryMap::new(vec![
        region(MemoryType::Conventional, end - PAGE_SIZE, 1),
        region(MemoryType::Reserved, end, 1),
    ]);
    assert!(all_mapped_regions_fit(&fits));
    assert_eq!(max_phys_addr(&fits).unwrap(), end);
    let too_long = TestMemoryMap::new(vec![region(MemoryType::Mmio, end, 1)]);
    assert!(!all_mapped_regions_fit(&too_long));
    let huge = TestMemoryMap::new(vec![region(MemoryType::Mmio, 0, u64::MAX)]);
    assert!(!all_mapped_regions_fit(&huge));
}

#[test]
fn constants_are_those_of_the_machine() {
    assert_eq!(PT_LOAD, elf::abi::PT_LOAD);
    assert_eq!(PAGE_SIZE, <x86_64::structures::paging::Size4KiB as x86_64::structures::paging::PageSize>::SIZE);
    assert_eq!(FIRMWARE_PAGE_SIZE, uefi::boot::PAGE_SIZE as u64);
}

/// All of the memory that the kernel can use is mapped.
#[test]
fn usable_memory_is_mapped() {
    let memory_map = TestMemoryMap::new(vec![
        region(MemoryType::Conventional, 0, 16),
        region(MemoryType::BootServicesData, 0x20_0000, 2),
        region(MemoryType::Reserved, 0x40_0000, 2),
        region(MemoryType::BootServicesCode, 0x10_0000, 1),
    ]);

    let range = physical_memory_mappings(max_phys_addr(&memory_map).unwrap());

    assert_eq!(range.count, 0x202);
    assert_eq!(physical_page_count(&memory_map), 0x202);
    assert_eq!(range.get(0x201).page, PHYSICAL_MEMORY_START + 0x20_1000);
    assert_eq!(range.get(0x201).frame, 0x20_1000);
}
