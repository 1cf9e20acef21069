//! The decisions of the loader: where the kernel, its stack and the rest of memory go in the
//! kernel's address space.

use elf::ParseError;
use vstd::prelude::*;
use x86_64::structures::paging::page::AddressNotAligned;

use crate::addr::{
    canonical, frame_containing_address, frame_from_start_address, page_base,
    page_containing_address, page_from_start_address, phys_new, phys_sub, physical, virt_add,
    virt_new, virt_sub,
};
use crate::kernel_file::ProgramHeader;
use crate::mapping::{MappingFlags, MappingRange};
use crate::memory_map::{MemoryDescriptor, MemoryMap, MemoryType, FIRMWARE_PAGE_SIZE};
use crate::phys_alloc::{ceil_div, div_ceil};
use crate::PAGE_SIZE;

verus! {

/// The start address of the region of memory reserved by the kernel. This
/// extends until the end of the whole address space.
pub const KERNEL_START: u64 = 0xFFFF_8800_0000_0000;

/// The address where physical memory is mapped.
pub const PHYSICAL_MEMORY_START: u64 = 0xFFFF_8800_0000_0000;

/// The end of the region in which physical memory is mapped.
pub const PHYSICAL_MEMORY_END: u64 = 0xFFFF_FFFF_8000_0000;

/// The address of the start of the kernel executable
pub const KERNEL_EXECUTABLE_START: u64 = 0xFFFF_FFFF_8000_0000;

/// The end of the region for the kernel executable.
pub const KERNEL_EXECUTABLE_END: u64 = 0xFFFF_FFFF_9000_0000;

/// The address of the start of the region of virtual memory containing kernel
/// stacks.
pub const STACK_START: u64 = 0xFFFF_FFFF_9000_0000;

/// Why the kernel could not be loaded.
#[derive(Debug)]
pub enum LoaderError {
    /// The kernel is not an ELF file.
    ElfParse(ParseError),
    /// The kernel has no segments.
    InvalidKernelElf,
    /// There is no memory in the memory map.
    InvalidMemoryMap,
    /// An address is not the start of a page.
    AddressNotAligned,
}

impl From<ParseError> for LoaderError {
    fn from(value: ParseError) -> (error: Self) {
        LoaderError::ElfParse(value)
    }
}

impl vstd::std_specs::convert::FromSpecImpl<ParseError> for LoaderError {
    open spec fn obeys_from_spec() -> bool {
        true
    }

    open spec fn from_spec(value: ParseError) -> Self {
        LoaderError::ElfParse(value)
    }
}

impl From<AddressNotAligned> for LoaderError {
    fn from(value: AddressNotAligned) -> (error: Self) {
        LoaderError::AddressNotAligned
    }
}

impl vstd::std_specs::convert::FromSpecImpl<AddressNotAligned> for LoaderError {
    open spec fn obeys_from_spec() -> bool {
        true
    }

    open spec fn from_spec(value: AddressNotAligned) -> Self {
        LoaderError::AddressNotAligned
    }
}

/// The pages that a segment is loaded into.
#[derive(Debug, Clone, Copy, PartialEq, Eq, Structural)]
pub struct SegmentPlacement {
    /// The offset into the first page where the segment needs to be copied, to get the correct
    /// virtual address.
    pub page_offset: u64,
    /// The virtual address of the first page.
    pub vaddr_page_start: u64,
    /// The number of pages that need to be allocated to copy the segment into
    pub n_pages: u64,
}

/// Whether the pages that the addresses of a segment lie in exist.
pub open spec fn placeable(segment: ProgramHeader) -> bool {
    &&& canonical(page_base(segment.p_vaddr as int))
    &&& segment.p_memsz + segment.p_vaddr % PAGE_SIZE <= u64::MAX
}

/// Whether the pages that the addresses of a segment lie in exist.
pub fn can_place_segment(segment: &ProgramHeader) -> (r: bool)
    ensures
        r == placeable(*segment),
{
    let page_offset: u64 = segment.p_vaddr % PAGE_SIZE;
    let page: u64 = segment.p_vaddr - page_offset;
    (page < 0x8000_0000_0000 || page >= 0xFFFF_8000_0000_0000) && segment.p_memsz <= u64::MAX
        - page_offset
}

/// Whether these are the pages that the addresses of a segment lie in.
pub open spec fn places(placement: SegmentPlacement, segment: ProgramHeader) -> bool {
    &&& placement.page_offset == segment.p_vaddr % PAGE_SIZE
    &&& placement.vaddr_page_start == page_base(segment.p_vaddr as int)
    &&& placement.n_pages == ceil_div(
        segment.p_memsz + segment.p_vaddr % PAGE_SIZE,
        PAGE_SIZE as int,
    )
}

/// The pages that a segment is loaded into: those that its addresses lie in.
pub fn place_segment(segment: &ProgramHeader) -> (placement: SegmentPlacement)
    requires
        placeable(*segment),
    ensures
        places(placement, *segment),
{
    let page_offset: u64 = segment.p_vaddr % PAGE_SIZE;
    let vaddr_page_start: u64 = virt_new(segment.p_vaddr - page_offset);
    let n_pages: u64 = div_ceil(segment.p_memsz + page_offset, PAGE_SIZE);
    SegmentPlacement { page_offset, vaddr_page_start, n_pages }
}

/// Whether the pages of a segment lie in the virtual address range reserved for the kernel code
/// and data.
pub open spec fn in_kernel_range(placement: SegmentPlacement) -> bool {
    &&& KERNEL_EXECUTABLE_START <= placement.vaddr_page_start
    &&& placement.vaddr_page_start + placement.n_pages * PAGE_SIZE <= KERNEL_EXECUTABLE_END
}

/// Whether the pages of a segment lie in the virtual address range reserved for the kernel code
/// and data.
pub fn segment_in_kernel_range(placement: &SegmentPlacement) -> (r: bool)
    ensures
        r == in_kernel_range(*placement),
{
    KERNEL_EXECUTABLE_START <= placement.vaddr_page_start && placement.vaddr_page_start
        <= KERNEL_EXECUTABLE_END && placement.n_pages <= (KERNEL_EXECUTABLE_END
        - placement.vaddr_page_start) / PAGE_SIZE
}

/// The pages that each segment of the kernel executable is loaded into.
pub fn place_kernel(segments: &[ProgramHeader]) -> (placements: Vec<SegmentPlacement>)
    requires
        forall|i: int| 0 <= i < segments@.len() ==> placeable(#[trigger] segments@[i]),
    ensures
        placements@.len() == segments@.len(),
        forall|i: int|
            0 <= i < placements@.len() ==> places(#[trigger] placements@[i], segments@[i]),
{
    let mut placements: Vec<SegmentPlacement> = Vec::new();
    let mut i: usize = 0;
    while i < segments.len()
        invariant
            forall|k: int| 0 <= k < segments@.len() ==> placeable(#[trigger] segments@[k]),
            i <= segments@.len(),
            placements@.len() == i,
            forall|k: int|
                0 <= k < i ==> places(#[trigger] placements@[k], segments@[k]),
        decreases segments.len() - i,
    {
        placements.push(place_segment(&segments[i]));
        i = i + 1;
    }
    placements
}

/// Copies `count` bytes from position `from` of `src` to position `to` of `dst`.
fn copy_bytes(dst: &mut [u8], to: usize, src: &[u8], from: usize, count: usize)
    requires
        to + count <= old(dst)@.len(),
        from + count <= src@.len(),
    ensures
        final(dst)@.len() == old(dst)@.len(),
        forall|i: int|
            0 <= i < old(dst)@.len() ==> #[trigger] final(dst)@[i] == if to <= i < to + count {
                src@[from + i - to]
            } else {
                old(dst)@[i]
            },
{
    let mut k: usize = 0;
    while k < count
        invariant
            k <= count,
            to + count <= dst@.len(),
            from + count <= src@.len(),
            dst@.len() == old(dst)@.len(),
            forall|i: int|
                0 <= i < old(dst)@.len() ==> #[trigger] dst@[i] == if to <= i < to + k {
                    src@[from + i - to]
                } else {
                    old(dst)@[i]
                },
        decreases count - k,
    {
        assert(dst@.len() == dst.len());
        assert(src@.len() == src.len());
        dst[to + k] = src[from + k];
        k = k + 1;
    }
}

/// A byte of a segment as it is in memory: from the file, or zero beyond its size in the file.
pub open spec fn segment_byte(kernel: Seq<u8>, segment: ProgramHeader, k: int) -> u8 {
    if k < segment.p_filesz {
        kernel[segment.p_offset + k]
    } else {
        0
    }
}

/// Whether a segment can be copied out of a kernel file of `kernel` bytes into `pages` bytes.
pub open spec fn loadable(segment: ProgramHeader, kernel: int, pages: int) -> bool {
    &&& segment.p_offset + segment.p_filesz <= kernel
    &&& segment.p_vaddr % PAGE_SIZE + segment.p_filesz <= pages
    &&& segment.p_vaddr % PAGE_SIZE + segment.p_memsz <= pages
}

/// Whether a segment can be copied out of a kernel file of `kernel` bytes into `pages` bytes.
pub fn can_load_segment(segment: &ProgramHeader, kernel: u64, pages: u64) -> (r: bool)
    ensures
        r == loadable(*segment, kernel as int, pages as int),
{
    let page_offset: u64 = segment.p_vaddr % PAGE_SIZE;
    segment.p_offset <= kernel && segment.p_filesz <= kernel - segment.p_offset && page_offset
        <= pages && segment.p_filesz <= pages - page_offset && segment.p_memsz <= pages
        - page_offset
}

/// Copies a segment out of the kernel file into the pages that it is loaded into. If the size in
/// memory is larger than the size in the file, the rest is filled with zeros. What lies before
/// and after the segment in its pages stays as it was.
pub fn load_segment(pages: &mut [u8], kernel: &[u8], segment: &ProgramHeader)
    requires
        loadable(*segment, kernel@.len() as int, old(pages)@.len() as int),
    ensures
        final(pages)@.len() == old(pages)@.len(),
        forall|i: int|
            0 <= i < old(pages)@.len() ==> #[trigger] final(pages)@[i] == {
                let k = i - segment.p_vaddr % PAGE_SIZE;
                if 0 <= k && (k < segment.p_filesz || k < segment.p_memsz) {
                    segment_byte(kernel@, *segment, k)
                } else {
                    old(pages)@[i]
                }
            },
{
    assert(old(pages)@.len() == old(pages).len());
    assert(kernel@.len() == kernel.len());
    let page_offset: usize = (segment.p_vaddr % PAGE_SIZE) as usize;
    let file_size: usize = segment.p_filesz as usize;
    let memory_size: usize = segment.p_memsz as usize;
    copy_bytes(pages, page_offset, kernel, segment.p_offset as usize, file_size);
    let ghost copied = pages@;
    let mut k: usize = file_size;
    while k < memory_size
        invariant
            file_size <= k,
            k <= memory_size || k == file_size,
            page_offset + memory_size <= pages@.len(),
            pages@.len() == copied.len(),
            forall|i: int|
                0 <= i < copied.len() ==> #[trigger] pages@[i] == if page_offset + file_size <= i
                    < page_offset + k {
                    0
                } else {
                    copied[i]
                },
        decreases memory_size - k,
    {
        assert(pages@.len() == pages.len());
        pages[page_offset + k] = 0;
        k = k + 1;
    }
}

/// Where the pages of a segment are mapped: from the first page of its placement on, to the
/// frames from `allocated_pages` on.
pub open spec fn maps_segment(
    range: MappingRange,
    placement: SegmentPlacement,
    allocated_pages: u64,
) -> bool {
    &&& range.virt_start == placement.vaddr_page_start
    &&& range.phys_start == allocated_pages
    &&& range.count == placement.n_pages
}

/// Whether there are pages to be mapped, and the first page or the first frame is not aligned.
pub open spec fn misaligned(placement: SegmentPlacement, allocated_pages: u64) -> bool {
    placement.n_pages > 0 && (placement.vaddr_page_start % PAGE_SIZE != 0 || allocated_pages
        % PAGE_SIZE != 0)
}

/// Whether the pages of a segment can be mapped to the frames from `allocated_pages` on, or be
/// refused: the pages lie in the range reserved for them, and the frames exist, as far as they
/// are reached before an address turns out not to be aligned.
pub open spec fn segment_mappable(placement: SegmentPlacement, allocated_pages: u64) -> bool {
    &&& in_kernel_range(placement)
    &&& placement.n_pages > 0 && placement.vaddr_page_start % PAGE_SIZE == 0 ==> {
        &&& physical(allocated_pages as int)
        &&& allocated_pages % PAGE_SIZE == 0 ==> physical(
            allocated_pages + (placement.n_pages - 1) * PAGE_SIZE,
        )
    }
}

/// Whether the pages of a segment can be mapped to the frames from `allocated_pages` on, or be
/// refused.
pub fn can_map_segment(placement: &SegmentPlacement, allocated_pages: u64) -> (r: bool)
    ensures
        r == segment_mappable(*placement, allocated_pages),
{
    segment_in_kernel_range(placement) && (placement.n_pages == 0 || placement.vaddr_page_start
        % PAGE_SIZE != 0 || (allocated_pages < 0x10_0000_0000_0000 && (allocated_pages % PAGE_SIZE
        != 0 || (placement.n_pages - 1) * PAGE_SIZE < 0x10_0000_0000_0000 - allocated_pages)))
}

/// How the pages of the kernel executable can be used.
pub open spec fn kernel_flags() -> MappingFlags {
    MappingFlags { present: true, writable: false, global: true, no_execute: false }
}

/// The mappings of the pages of a segment to the frames from `allocated_pages` on.
pub fn segment_mappings(placement: &SegmentPlacement, allocated_pages: u64) -> (range: Result<
    MappingRange,
    LoaderError,
>)
    requires
        segment_mappable(*placement, allocated_pages),
    ensures
        range is Err <==> misaligned(*placement, allocated_pages),
        range matches Err(e) ==> e is AddressNotAligned,
        range matches Ok(r) ==> {
            &&& r.wf()
            &&& maps_segment(r, *placement, allocated_pages)
            &&& r.flags == kernel_flags()
        },
{
    if placement.n_pages > 0 {
        match page_from_start_address(placement.vaddr_page_start) {
            Ok(_) => {},
            Err(e) => {
                return Err(LoaderError::from(e));
            },
        }
        match frame_from_start_address(phys_new(allocated_pages)) {
            Ok(_) => {},
            Err(e) => {
                return Err(LoaderError::from(e));
            },
        }
    }
    Ok(
        MappingRange {
            virt_start: placement.vaddr_page_start,
            phys_start: allocated_pages,
            count: placement.n_pages,
            flags: MappingFlags { present: true, writable: false, global: true, no_execute: false },
        },
    )
}

/// Whether none of the first `n` segments has an address that is not aligned.
pub open spec fn all_aligned(
    placements: Seq<SegmentPlacement>,
    allocated_pages: Seq<u64>,
    n: int,
) -> bool {
    forall|i: int| 0 <= i < n ==> !misaligned(#[trigger] placements[i], allocated_pages[i])
}

/// The mappings of the kernel executable: those of each of its segments, where the pages of the
/// segment at position `i` are in the frames from `allocated_pages[i]` on.
pub fn map_kernel(placements: &[SegmentPlacement], allocated_pages: &[u64]) -> (ranges: Result<
    Vec<MappingRange>,
    LoaderError,
>)
    requires
        placements@.len() == allocated_pages@.len(),
        forall|i: int|
            0 <= i < placements@.len() && all_aligned(placements@, allocated_pages@, i)
                ==> segment_mappable(#[trigger] placements@[i], allocated_pages@[i]),
    ensures
        ranges is Ok <==> all_aligned(
            placements@,
            allocated_pages@,
            placements@.len() as int,
        ),
        ranges matches Err(e) ==> e is AddressNotAligned,
        ranges matches Ok(r) ==> {
            &&& r@.len() == placements@.len()
            &&& forall|i: int|
                0 <= i < r@.len() ==> {
                    &&& (#[trigger] r@[i]).wf()
                    &&& maps_segment(r@[i], placements@[i], allocated_pages@[i])
                    &&& r@[i].flags == kernel_flags()
                }
        },
{
    let mut ranges: Vec<MappingRange> = Vec::new();
    let mut i: usize = 0;
    while i < placements.len()
        invariant
            placements@.len() == allocated_pages@.len(),
            forall|k: int|
                0 <= k < placements@.len() && all_aligned(placements@, allocated_pages@, k)
                    ==> segment_mappable(#[trigger] placements@[k], allocated_pages@[k]),
            i <= placements@.len(),
            ranges@.len() == i,
            forall|k: int|
                0 <= k < i ==> {
                    &&& (#[trigger] ranges@[k]).wf()
                    &&& maps_segment(ranges@[k], placements@[k], allocated_pages@[k])
                    &&& ranges@[k].flags == kernel_flags()
                },
            all_aligned(placements@, allocated_pages@, i as int),
        decreases placements.len() - i,
    {
        match segment_mappings(&placements[i], allocated_pages[i]) {
            Ok(range) => {
                ranges.push(range);
            },
            Err(e) => {
                return Err(e);
            },
        }
        i = i + 1;
    }
    Ok(ranges)
}

/// Where the stack is mapped: the second page of its region.
pub open spec fn maps_stack(range: MappingRange) -> bool {
    &&& range.virt_start == STACK_START + PAGE_SIZE
    &&& range.count == 1
}

/// The stack of the kernel, and the address that it starts at. Currently this only maps a single
/// page - the second page in the region reserved for kernel stacks - to the frame at
/// `frame_addr`, and the stack starts at the end of that page.
pub fn kernel_stack(frame_addr: u64) -> (stack: Result<(MappingRange, u64), LoaderError>)
    requires
        physical(frame_addr as int),
    ensures
        stack is Err <==> frame_addr % PAGE_SIZE != 0,
        stack matches Err(e) ==> e is AddressNotAligned,
        stack matches Ok((range, rsp)) ==> {
            &&& range.wf()
            &&& maps_stack(range)
            &&& range.phys_start == frame_addr
            &&& range.flags == (MappingFlags {
                present: true,
                writable: true,
                global: false,
                no_execute: true,
            })
            &&& rsp == STACK_START + 2 * PAGE_SIZE
        },
{
    let page_start: u64 = virt_add(STACK_START, PAGE_SIZE);
    let virt_start: u64 = match page_from_start_address(page_start) {
        Ok(page) => page,
        Err(e) => {
            return Err(LoaderError::from(e));
        },
    };
    let phys_start: u64 = match frame_from_start_address(phys_new(frame_addr)) {
        Ok(frame) => frame,
        Err(e) => {
            return Err(LoaderError::from(e));
        },
    };
    let flags = MappingFlags { present: true, writable: true, global: false, no_execute: true };
    let range = MappingRange { virt_start, phys_start, count: 1, flags };
    // Rsp points to the end of the page we have just allocated
    Ok((range, virt_add(page_start, PAGE_SIZE)))
}

/// Whether the pages that the bytes from `start` to `end` lie in are below the kernel's address
/// space, and the frames at the same addresses exist.
pub open spec fn below_kernel(start: int, end: int) -> bool {
    page_base(start) <= page_base(end - 1) ==> {
        &&& page_base(end - 1) + PAGE_SIZE <= KERNEL_START
        &&& physical(page_base(end - 1))
    }
}

/// Whether the pages that the bytes from `start` to `end` lie in can be mapped to the frames at
/// the same addresses, without a conflict with the kernel's address space. The end of each page
/// has to be an address too.
pub open spec fn identity_mappable(start: int, end: int) -> bool {
    &&& below_kernel(start, end)
    &&& page_base(start) <= page_base(end - 1) ==> canonical(page_base(end - 1) + PAGE_SIZE)
}

/// Where memory that is shared with the loader is mapped: at its own address.
pub open spec fn maps_identity(range: MappingRange, start: int, end: int) -> bool {
    &&& range.virt_start == page_base(start)
    &&& range.phys_start == page_base(start)
    &&& range.count == if page_base(start) <= page_base(end - 1) {
        (page_base(end - 1) - page_base(start)) / (PAGE_SIZE as int) + 1
    } else {
        0
    }
    &&& below_kernel(start, end)
}

/// Maps a single page to the frame at the same address, to be read.
pub fn identity_mapping(addr: u64) -> (range: Result<MappingRange, LoaderError>)
    requires
        canonical(addr as int),
        addr % PAGE_SIZE == 0 ==> physical(addr as int),
    ensures
        range is Err <==> addr % PAGE_SIZE != 0,
        range matches Err(e) ==> e is AddressNotAligned,
        range matches Ok(r) ==> {
            &&& r.wf()
            &&& maps_identity(r, addr as int, addr + PAGE_SIZE)
            &&& r.count == 1
            &&& r.flags == (MappingFlags {
                present: true,
                writable: false,
                global: false,
                no_execute: false,
            })
        },
{
    let virt_start: u64 = match page_from_start_address(virt_new(addr)) {
        Ok(page) => page,
        Err(e) => {
            return Err(LoaderError::from(e));
        },
    };
    let phys_start: u64 = match frame_from_start_address(phys_new(addr)) {
        Ok(frame) => frame,
        Err(e) => {
            return Err(LoaderError::from(e));
        },
    };
    let flags = MappingFlags { present: true, writable: false, global: false, no_execute: false };
    Ok(MappingRange { virt_start, phys_start, count: 1, flags })
}

/// Copies the trampoline to the start of its page.
pub fn load_trampoline(page: &mut [u8], trampoline: &[u8])
    requires
        trampoline@.len() <= old(page)@.len(),
    ensures
        final(page)@.len() == old(page)@.len(),
        forall|i: int|
            0 <= i < old(page)@.len() ==> #[trigger] final(page)@[i] == if i < trampoline@.len() {
                trampoline@[i]
            } else {
                old(page)@[i]
            },
{
    copy_bytes(page, 0, trampoline, 0, trampoline.len());
}

/// Whether memory of this type is mapped into the kernel's address space.
pub open spec fn mapped_type(ty: MemoryType) -> bool {
    match ty {
        MemoryType::LoaderCode => true,
        MemoryType::LoaderData => true,
        MemoryType::BootServicesCode => true,
        MemoryType::BootServicesData => true,
        MemoryType::Conventional => true,
        MemoryType::AcpiReclaim => true,
        MemoryType::AcpiNonVolatile => true,
        MemoryType::Mmio => true,
        MemoryType::MmioPortSpace => true,
        MemoryType::PalCode => true,
        MemoryType::PersistentMemory => true,
        _ => false,
    }
}

/// Whether memory of this type is mapped into the kernel's address space.
pub fn is_mapped_type(ty: MemoryType) -> (r: bool)
    ensures
        r == mapped_type(ty),
{
    match ty {
        MemoryType::LoaderCode => true,
        MemoryType::LoaderData => true,
        MemoryType::BootServicesCode => true,
        MemoryType::BootServicesData => true,
        MemoryType::Conventional => true,
        MemoryType::AcpiReclaim => true,
        MemoryType::AcpiNonVolatile => true,
        MemoryType::Mmio => true,
        MemoryType::MmioPortSpace => true,
        MemoryType::PalCode => true,
        MemoryType::PersistentMemory => true,
        _ => false,
    }
}

/// The first physical address after all of the regions that are mapped. There is none if there
/// are no such regions.
pub open spec fn mapped_limit(descs: Seq<MemoryDescriptor>) -> Option<int>
    decreases descs.len(),
{
    if descs.len() == 0 {
        None
    } else {
        let before = mapped_limit(descs.drop_last());
        if !mapped_type(descs.last().ty) {
            before
        } else {
            match before {
                Some(limit) => if descs.last().phys_end() > limit {
                    Some(descs.last().phys_end())
                } else {
                    Some(limit)
                },
                None => Some(descs.last().phys_end()),
            }
        }
    }
}

/// Every region that is mapped ends at an address that fits in 64 bits.
pub open spec fn mapped_regions_fit(descs: Seq<MemoryDescriptor>) -> bool {
    forall|i: int|
        0 <= i < descs.len() && mapped_type((#[trigger] descs[i]).ty) ==> descs[i].phys_end()
            <= u64::MAX
}

/// Whether every region that is mapped ends at an address that fits in 64 bits.
pub fn all_mapped_regions_fit<E: MemoryMap>(memory_map: &E) -> (r: bool)
    ensures
        r == mapped_regions_fit(memory_map.descriptors()),
{
    let ghost descs = memory_map.descriptors();
    let mut i: usize = 0;
    let n: usize = memory_map.entry_count();
    while i < n
        invariant
            descs == memory_map.descriptors(),
            n == descs.len(),
            i <= n,
            forall|k: int|
                0 <= k < i && mapped_type((#[trigger] descs[k]).ty) ==> descs[k].phys_end()
                    <= u64::MAX,
        decreases n - i,
    {
        let desc = memory_map.entry(i);
        if is_mapped_type(desc.ty) && desc.page_count > (u64::MAX - desc.phys_start)
            / FIRMWARE_PAGE_SIZE {
            assert(mapped_type(descs[i as int].ty) && descs[i as int].phys_end() > u64::MAX);
            return false;
        }
        i = i + 1;
    }
    true
}

/// The first physical address after all of the regions that are mapped.
pub fn max_phys_addr<E: MemoryMap>(memory_map: &E) -> (limit: Result<u64, LoaderError>)
    requires
        mapped_regions_fit(memory_map.descriptors()),
    ensures
        limit is Ok <==> mapped_limit(memory_map.descriptors()) is Some,
        limit matches Ok(addr) ==> mapped_limit(memory_map.descriptors()) == Some(addr as int),
        limit matches Err(e) ==> e is InvalidMemoryMap,
{
    let ghost descs = memory_map.descriptors();
    let mut limit: Option<u64> = None;
    let mut i: usize = 0;
    let n: usize = memory_map.entry_count();
    while i < n
        invariant
            descs == memory_map.descriptors(),
            mapped_regions_fit(descs),
            n == descs.len(),
            i <= n,
            limit is Some <==> mapped_limit(descs.take(i as int)) is Some,
            limit matches Some(addr) ==> mapped_limit(descs.take(i as int)) == Some(addr as int),
        decreases n - i,
    {
        let desc = memory_map.entry(i);
        proof {
            assert(descs.take(i + 1).drop_last() =~= descs.take(i as int));
            assert(descs.take(i + 1).last() == desc);
            assert(mapped_type(descs[i as int].ty) ==> desc.phys_end() <= u64::MAX);
        }
        if is_mapped_type(desc.ty) {
            let phys_end: u64 = desc.phys_start + desc.page_count * FIRMWARE_PAGE_SIZE;
            limit = match limit {
                Some(addr) => if phys_end > addr {
                    Some(phys_end)
                } else {
                    Some(addr)
                },
                None => Some(phys_end),
            };
        }
        i = i + 1;
    }
    assert(descs.take(n as int) =~= descs);
    match limit {
        Some(addr) => Ok(addr),
        None => Err(LoaderError::InvalidMemoryMap),
    }
}

/// Whether physical memory up to `max_phys_addr` fits into the region in virtual memory reserved
/// for the physical memory map.
pub fn physical_memory_fits(max_phys_addr: u64) -> (r: bool)
    ensures
        r == (PHYSICAL_MEMORY_START + max_phys_addr <= PHYSICAL_MEMORY_END),
{
    max_phys_addr <= PHYSICAL_MEMORY_END - PHYSICAL_MEMORY_START
}

/// Where physical memory is mapped: all of the frames below `max_phys_addr`, at a fixed offset.
pub open spec fn maps_physical_memory(range: MappingRange, max_phys_addr: int) -> bool {
    &&& range.virt_start == PHYSICAL_MEMORY_START
    &&& range.phys_start == 0
    &&& range.count == ceil_div(max_phys_addr, PAGE_SIZE as int)
    &&& PHYSICAL_MEMORY_START + max_phys_addr <= PHYSICAL_MEMORY_END
}

/// The mappings of physical memory in the kernel's virtual memory, at a fixed offset: those of
/// all frames below `max_phys_addr`.
pub fn physical_memory_mappings(max_phys_addr: u64) -> (range: MappingRange)
    requires
        max_phys_addr > 0,
        PHYSICAL_MEMORY_START + max_phys_addr <= PHYSICAL_MEMORY_END,
    ensures
        range.wf(),
        maps_physical_memory(range, max_phys_addr as int),
        range.flags == (MappingFlags {
            present: true,
            writable: true,
            global: true,
            no_execute: false,
        }),
{
    let virt_start: u64 = page_containing_address(PHYSICAL_MEMORY_START);
    let virt_end: u64 = page_containing_address(
        virt_sub(virt_add(PHYSICAL_MEMORY_START, max_phys_addr), 1),
    );
    let phys_start: u64 = frame_containing_address(phys_new(0));
    let phys_end: u64 = frame_containing_address(phys_sub(phys_new(max_phys_addr), 1));
    let virt_count: u64 = (virt_end - virt_start) / PAGE_SIZE + 1;
    let phys_count: u64 = (phys_end - phys_start) / PAGE_SIZE + 1;
    let count: u64 = if virt_count <= phys_count {
        virt_count
    } else {
        phys_count
    };
    let flags = MappingFlags { present: true, writable: true, global: true, no_execute: false };
    MappingRange { virt_start, phys_start, count, flags }
}

/// The number of pages that it takes to hold `size` bytes.
pub fn pages_for(size: u64) -> (pages: u64)
    ensures
        pages == ceil_div(size as int, PAGE_SIZE as int),
{
    div_ceil(size, PAGE_SIZE)
}

/// Whether the pages that the bytes from `start` to `end` lie in can be mapped to the frames at
/// the same addresses, without a conflict with the kernel's address space.
pub fn can_identity_map(start: u64, end: u64) -> (r: bool)
    requires
        end > 0,
    ensures
        r == identity_mappable(start as int, end as int),
{
    let first: u64 = start - start % PAGE_SIZE;
    let last: u64 = (end - 1) - (end - 1) % PAGE_SIZE;
    first > last || last < 0x8000_0000_0000 - PAGE_SIZE
}

/// Maps the pages that the bytes from `start` to `end` lie in to the frames at the same
/// addresses, to be read.
pub fn identity_mappings(start: u64, end: u64) -> (range: MappingRange)
    requires
        canonical(start as int),
        canonical(end as int),
        canonical(end - 1),
        identity_mappable(start as int, end as int),
    ensures
        range.wf(),
        maps_identity(range, start as int, end as int),
        range.flags == (MappingFlags {
            present: true,
            writable: false,
            global: false,
            no_execute: false,
        }),
{
    let first: u64 = page_containing_address(virt_new(start));
    let last: u64 = page_containing_address(virt_sub(virt_new(end), 1));
    let count: u64 = if first <= last {
        (last - first) / PAGE_SIZE + 1
    } else {
        0
    };
    let flags = MappingFlags { present: true, writable: false, global: false, no_execute: false };
    MappingRange { virt_start: first, phys_start: first, count, flags }
}

} // verus!
