//! What holds of the kernel's address space as a whole.

use vstd::prelude::*;

use crate::addr::page_base;
use crate::kernel_file::ProgramHeader;
use crate::loader::{
    in_kernel_range, mapped_limit, mapped_type, maps_identity, maps_physical_memory, maps_segment,
    maps_stack, places, SegmentPlacement, KERNEL_EXECUTABLE_END, KERNEL_EXECUTABLE_START, KERNEL_START,
    PHYSICAL_MEMORY_END, PHYSICAL_MEMORY_START, STACK_START,
};
use crate::mapping::MappingRange;
use crate::memory_map::MemoryDescriptor;
use crate::page_laws::law_usable_page_exists;
use crate::phys_alloc::{addr_limit, regions_fit, usable_page};
use crate::PAGE_SIZE;

verus! {

/// Each byte of a segment is found at the address that the segment gives it: the byte `k` at
/// `p_vaddr + k`, which is the byte of the allocated pages that it was copied to.
pub proof fn law_segment_byte_visible(
    segment: ProgramHeader,
    placement: SegmentPlacement,
    range: MappingRange,
    allocated_pages: u64,
    k: int,
)
    requires
        places(placement, segment),
        maps_segment(range, placement, allocated_pages),
        0 <= k < segment.p_memsz,
    ensures
        range.translates(segment.p_vaddr + k, allocated_pages + segment.p_vaddr % PAGE_SIZE + k),
        segment.p_vaddr % PAGE_SIZE + k < placement.n_pages * PAGE_SIZE,
{
    let i = (segment.p_vaddr % PAGE_SIZE + k) / (PAGE_SIZE as int);
    assert(0 <= i < range.count && range.page(i) <= segment.p_vaddr + k < range.page(i)
        + PAGE_SIZE);
}

/// Each byte of physical memory is found at a fixed offset from its physical address.
pub proof fn law_physical_memory_visible(range: MappingRange, max_phys_addr: int, addr: int)
    requires
        maps_physical_memory(range, max_phys_addr),
        0 <= addr < max_phys_addr,
    ensures
        range.translates(PHYSICAL_MEMORY_START + addr, addr),
{
    let i = addr / (PAGE_SIZE as int);
    assert(0 <= i < range.count && range.page(i) <= PHYSICAL_MEMORY_START + addr < range.page(i)
        + PAGE_SIZE);
}

/// Each byte of memory that is shared with the loader is found at its own address.
pub proof fn law_identity_visible(range: MappingRange, start: int, end: int, addr: int)
    requires
        maps_identity(range, start, end),
        start <= addr < end,
    ensures
        range.translates(addr, addr),
{
    let i = (addr - page_base(start)) / (PAGE_SIZE as int);
    assert(0 <= i < range.count && range.page(i) <= addr < range.page(i) + PAGE_SIZE);
}

/// The bytes of the stack, from its first page to where the stack pointer starts, are mapped.
pub proof fn law_stack_covered(range: MappingRange, addr: int)
    requires
        maps_stack(range),
        STACK_START + PAGE_SIZE <= addr < STACK_START + 2 * PAGE_SIZE,
    ensures
        range.covers(addr),
        !range.covers(addr - PAGE_SIZE),
{
    assert(range.page(0) <= addr < range.page(0) + PAGE_SIZE);
}

/// The kernel executable, the mapping of physical memory, the stack and what is shared with the
/// loader do not overlap: no virtual address lies in two of them.
pub proof fn law_regions_apart(
    placement: SegmentPlacement,
    allocated_pages: u64,
    segment: MappingRange,
    max_phys_addr: int,
    physical_memory: MappingRange,
    stack: MappingRange,
    start: int,
    end: int,
    shared: MappingRange,
    addr: int,
)
    requires
        in_kernel_range(placement),
        maps_segment(segment, placement, allocated_pages),
        0 < max_phys_addr,
        maps_physical_memory(physical_memory, max_phys_addr),
        maps_stack(stack),
        maps_identity(shared, start, end),
    ensures
        segment.covers(addr) ==> KERNEL_EXECUTABLE_START <= addr < KERNEL_EXECUTABLE_END,
        physical_memory.covers(addr) ==> PHYSICAL_MEMORY_START <= addr < PHYSICAL_MEMORY_END,
        stack.covers(addr) ==> STACK_START <= addr,
        shared.covers(addr) ==> addr < KERNEL_START,
        segment.covers(addr) ==> !physical_memory.covers(addr) && !stack.covers(addr)
            && !shared.covers(addr),
        physical_memory.covers(addr) ==> !stack.covers(addr) && !shared.covers(addr),
        stack.covers(addr) ==> !shared.covers(addr),
{
    assert(PHYSICAL_MEMORY_START as int % (PAGE_SIZE as int) == 0);
    assert(PHYSICAL_MEMORY_END as int % (PAGE_SIZE as int) == 0);
    if segment.covers(addr) {
        let i = choose|i: int|
            0 <= i < segment.count && #[trigger] segment.page(i) <= addr < segment.page(i)
                + PAGE_SIZE;
        assert(segment.page(i) + PAGE_SIZE <= KERNEL_EXECUTABLE_END);
    }
    if shared.covers(addr) {
        let i = choose|i: int|
            0 <= i < shared.count && #[trigger] shared.page(i) <= addr < shared.page(i)
                + PAGE_SIZE;
        assert(shared.page(i) <= page_base(end - 1));
    }
}

/// All of the regions that are mapped end at or below the limit, and one of them ends there.
pub proof fn law_mapped_limit(descs: Seq<MemoryDescriptor>)
    ensures
        mapped_limit(descs) is None <==> forall|i: int|
            0 <= i < descs.len() ==> !mapped_type((#[trigger] descs[i]).ty),
        mapped_limit(descs) matches Some(limit) ==> {
            &&& forall|i: int|
                0 <= i < descs.len() && mapped_type((#[trigger] descs[i]).ty)
                    ==> descs[i].phys_end() <= limit
            &&& exists|i: int|
                0 <= i < descs.len() && mapped_type((#[trigger] descs[i]).ty)
                    && descs[i].phys_end() == limit
        },
    decreases descs.len(),
{
    if descs.len() > 0 {
        let before = descs.drop_last();
        law_mapped_limit(before);
        assert(descs.last() == descs[descs.len() - 1]);
        assert forall|i: int| 0 <= i < before.len() implies before[i] == #[trigger] descs[i] by {}
        if let Some(limit) = mapped_limit(before) {
            let i = choose|i: int|
                0 <= i < before.len() && mapped_type((#[trigger] before[i]).ty)
                    && before[i].phys_end() == limit;
            assert(mapped_type(descs[i].ty) && descs[i].phys_end() == limit);
        }
    }
}

/// All of the memory that the kernel can use is mapped: the limit of the usable regions is not
/// above the limit of the regions that are mapped.
pub proof fn law_usable_memory_mapped(descs: Seq<MemoryDescriptor>)
    ensures
        mapped_limit(descs) matches Some(limit) ==> addr_limit(descs) <= limit,
        mapped_limit(descs) is None ==> addr_limit(descs) == 0,
    decreases descs.len(),
{
    if descs.len() > 0 {
        law_usable_memory_mapped(descs.drop_last());
        lemma_mapped_limit_nonneg(descs);
    }
}

/// Each byte of a page that the kernel can use is found at a fixed offset from its physical
/// address.
pub proof fn law_usable_page_visible(
    descs: Seq<MemoryDescriptor>,
    limit: int,
    range: MappingRange,
    page: int,
    k: int,
)
    requires
        regions_fit(descs),
        usable_page(descs, page),
        mapped_limit(descs) == Some(limit),
        maps_physical_memory(range, limit),
        0 <= page,
        0 <= k < PAGE_SIZE,
    ensures
        range.translates(PHYSICAL_MEMORY_START + page * PAGE_SIZE + k, page * PAGE_SIZE + k),
{
    law_usable_page_exists(descs, page);
    law_usable_memory_mapped(descs);
    law_physical_memory_visible(range, limit, page * PAGE_SIZE + k);
}

proof fn lemma_mapped_limit_nonneg(descs: Seq<MemoryDescriptor>)
    ensures
        mapped_limit(descs) matches Some(limit) ==> limit >= 0,
{
    law_mapped_limit(descs);
    if mapped_limit(descs) is Some {
        let i = choose|i: int|
            0 <= i < descs.len() && mapped_type((#[trigger] descs[i]).ty) && descs[i].phys_end()
                == mapped_limit(descs)->0;
        assert(descs[i].phys_end() >= 0) by {
            assert(descs[i].byte_count() >= 0);
        }
    }
}

} // verus!
