//! Which inputs the functions of the library take.

use vstd::prelude::*;
use vstd::utf8::valid_utf8;

use crate::acpi::{
    acpi2_guid, find_rsdp, AcpiFixedString, AcpiRsdp, AcpiRsdt, AcpiTableHeader, ConfigTableEntry,
};
use crate::firmware_laws::{is_rsdp_entry, lemma_number, lemma_rsdp_entry, u32_at};
use crate::kernel_file::ProgramHeader;
use crate::load_laws::is_mapped;
use crate::loader::{
    can_identity_map, identity_mapping, identity_mappings, kernel_stack, load_segment,
    load_trampoline, map_kernel, mapped_type, max_phys_addr, physical_memory_mappings,
    place_kernel, place_segment, placeable, segment_mappable, segment_mappings, SegmentPlacement,
};
use crate::manager_laws::{
    first_room, just_covers, just_enough_words, kernel_memory_end, law_init_possible, lemma_ceil,
    lemma_page_free, lemma_regions_fit, page_free,
};
use crate::mapping::MappingRange;
use crate::memory::{bytes_in, read_u32, read_u8, LinearMemory, SharedMemory};
use crate::memory_map::MemoryMap;
use crate::phys_alloc::{
    div_ceil, find_region, physical_page_count, PageAllocation, PhysicalMemoryManager,
};

verus! {

/// Whether the page of the first address of a segment starts at a virtual address, and the number
/// of bytes from there to the end of the segment is a number of 64 bits.
pub open spec fn has_pages(segment: ProgramHeader) -> bool {
    let start = segment.p_vaddr - segment.p_vaddr % 4096;
    &&& start < 0x8000_0000_0000 || start >= 0xFFFF_8000_0000_0000
    &&& segment.p_vaddr % 4096 + segment.p_memsz <= u64::MAX
}

/// Every segment can be placed whose pages exist.
pub proof fn law_place_segment_accepts(segment: &ProgramHeader)
    requires
        has_pages(*segment),
    ensures
        call_requires(place_segment, (segment,)),
{
}

/// Every kernel can be placed whose segments have pages that exist.
pub proof fn law_place_kernel_accepts(segments: &[ProgramHeader])
    requires
        forall|i: int| 0 <= i < segments@.len() ==> has_pages(#[trigger] segments@[i]),
    ensures
        call_requires(place_kernel, (segments,)),
{
    assert forall|i: int| 0 <= i < segments@.len() implies placeable(#[trigger] segments@[i]) by {
        assert(has_pages(segments@[i]));
    }
}

/// Every segment can be loaded that the file and the pages are large enough for.
pub proof fn law_load_segment_accepts(pages: &mut [u8], kernel: &[u8], segment: &ProgramHeader)
    requires
        segment.p_offset + segment.p_filesz <= kernel@.len(),
        segment.p_vaddr % 4096 + segment.p_filesz <= old(pages)@.len(),
        segment.p_vaddr % 4096 + segment.p_memsz <= old(pages)@.len(),
    ensures
        call_requires(load_segment, (pages, kernel, segment)),
{
}

/// Every trampoline can be loaded that is not larger than its page.
pub proof fn law_load_trampoline_accepts(page: &mut [u8], trampoline: &[u8])
    requires
        trampoline@.len() <= old(page)@.len(),
    ensures
        call_requires(load_trampoline, (page, trampoline)),
{
}

/// Whether the pages of a segment are in the range of the kernel, and its frames exist, as far as
/// they are looked at.
pub open spec fn has_frames(placement: SegmentPlacement, allocated_pages: u64) -> bool {
    &&& 0xFFFF_FFFF_8000_0000 <= placement.vaddr_page_start
    &&& placement.vaddr_page_start + placement.n_pages * 4096 <= 0xFFFF_FFFF_9000_0000
    &&& {
        ||| placement.n_pages == 0
        ||| placement.vaddr_page_start % 4096 != 0
        ||| allocated_pages < 0x10_0000_0000_0000 && allocated_pages % 4096 != 0
        ||| allocated_pages + (placement.n_pages - 1) * 4096 < 0x10_0000_0000_0000
    }
}

/// Every segment can be mapped, or refused, that is in the range of the kernel and whose frames
/// exist.
pub proof fn law_segment_mappings_accepts(placement: &SegmentPlacement, allocated_pages: u64)
    requires
        has_frames(*placement, allocated_pages),
    ensures
        call_requires(segment_mappings, (placement, allocated_pages)),
{
}

/// Every kernel can be mapped, or refused, whose segments can be.
pub proof fn law_map_kernel_accepts(placements: &[SegmentPlacement], allocated_pages: &[u64])
    requires
        placements@.len() == allocated_pages@.len(),
        forall|i: int|
            0 <= i < placements@.len() ==> has_frames(
                #[trigger] placements@[i],
                allocated_pages@[i],
            ),
    ensures
        call_requires(map_kernel, (placements, allocated_pages)),
{
    assert forall|i: int| 0 <= i < placements@.len() implies segment_mappable(
        #[trigger] placements@[i],
        allocated_pages@[i],
    ) by {
        assert(has_frames(placements@[i], allocated_pages@[i]));
    }
}

/// The stack can be put at every physical address, or be refused there.
pub proof fn law_kernel_stack_accepts(frame_addr: u64)
    requires
        frame_addr < 0x10_0000_0000_0000,
    ensures
        call_requires(kernel_stack, (frame_addr,)),
{
}

/// Every page in the lower half of the address space can be mapped to the frame at its address.
pub proof fn law_identity_mapping_accepts(addr: u64)
    requires
        addr < 0x8000_0000_0000,
    ensures
        call_requires(identity_mapping, (addr,)),
{
}

/// All bytes in the lower half of the address space, but for its last page, can be mapped at their
/// own address.
pub proof fn law_identity_mappings_accepts(start: u64, end: u64)
    requires
        start < 0x8000_0000_0000,
        0 < end < 0x8000_0000_0000,
        (end - 1) / 4096 + 1 < 0x8_0000_0000 || (end - 1) / 4096 < start / 4096,
    ensures
        call_requires(identity_mappings, (start, end)),
        call_requires(can_identity_map, (start, end)),
{
}

/// The limit of physical memory can be found if the regions that are mapped end at addresses of 64
/// bits.
pub proof fn law_max_phys_addr_accepts<E: MemoryMap>(memory_map: &E)
    requires
        forall|i: int|
            0 <= i < memory_map.descriptors().len() && is_mapped(
                #[trigger] memory_map.descriptors()[i],
            ) ==> memory_map.descriptors()[i].phys_start + memory_map.descriptors()[i].page_count
                * 4096 <= u64::MAX,
    ensures
        call_requires(max_phys_addr::<E>, (memory_map,)),
{
    let descs = memory_map.descriptors();
    assert forall|i: int| 0 <= i < descs.len() && mapped_type((#[trigger] descs[i]).ty) implies
        descs[i].phys_end() <= u64::MAX by {
        assert(is_mapped(descs[i]));
    }
}

/// Physical memory can be mapped up to every limit that fits below the kernel executable.
pub proof fn law_physical_memory_mappings_accepts(limit: u64)
    requires
        limit > 0,
        0xFFFF_8800_0000_0000 + limit <= 0xFFFF_FFFF_8000_0000,
    ensures
        call_requires(physical_memory_mappings, (limit,)),
{
}

/// Each mapping of a range can be had whose pages are in one half of the address space and whose
/// frames exist.
pub proof fn law_mapping_get_accepts(range: &MappingRange, i: u64)
    requires
        i < range.count,
        range.virt_start % 4096 == 0,
        range.phys_start % 4096 == 0,
        range.virt_start + range.count * 4096 <= 0x8000_0000_0000 || (range.virt_start
            >= 0xFFFF_8000_0000_0000 && range.virt_start + range.count * 4096 <= u64::MAX + 1),
        range.phys_start + range.count * 4096 <= 0x10_0000_0000_0000,
    ensures
        call_requires(MappingRange::get, (range, i)),
{
}

/// Whether a bitmap of `size` words lies in a window of `len` words that is mapped at `base`.
pub open spec fn bitmap_in_window(
    pmm: &PhysicalMemoryManager,
    base: u64,
    len: int,
    size: int,
) -> bool {
    &&& just_enough_words(pmm.page_count as int, size)
    &&& pmm.page_count <= 0x10_0000_0000_0000
    &&& base <= pmm.bitmap_ptr
    &&& (pmm.bitmap_ptr - base) % 8 == 0
    &&& (pmm.bitmap_ptr - base) / 8 + size <= len
    &&& pmm.bitmap_ptr + 8 * size <= u64::MAX + 1
}

/// A manager can be used if its bitmap lies in the window.
pub proof fn law_manager_accepts<M: LinearMemory>(
    pmm: &PhysicalMemoryManager,
    mem: &mut M,
    size: int,
    page_index: u64,
)
    requires
        bitmap_in_window(pmm, old(mem).base(), old(mem).words().len() as int, size),
        page_index < 64 * size,
    ensures
        call_requires(PhysicalMemoryManager::allocate_page::<M>, (pmm, mem)),
        call_requires(PhysicalMemoryManager::free_page::<M>, (pmm, mem, page_index)),
        call_requires(PhysicalMemoryManager::is_available::<M>, (pmm, &*old(mem), page_index)),
        call_requires(PhysicalMemoryManager::available_regions::<M>, (pmm, &*old(mem))),
{
    lemma_ceil(pmm.page_count as int, 64, pmm.word_count());
}

/// The available pages can be printed if the bitmap lies in the window, and no address above those
/// of 64 bits has to be printed.
pub proof fn law_fmt_accepts<M: LinearMemory>(pmm: &PhysicalMemoryManager, mem: &M, size: int)
    requires
        bitmap_in_window(pmm, mem.base(), mem.words().len() as int, size),
        pmm.page_count * 4096 <= u64::MAX || !page_free(pmm, mem, pmm.page_count - 1),
    ensures
        call_requires(PhysicalMemoryManager::fmt::<M>, (pmm, mem)),
{
    lemma_ceil(pmm.page_count as int, 64, pmm.word_count());
    lemma_page_free(pmm, mem);
}

/// A manager can be used with others that use memory too, if its bitmap lies in the window.
pub proof fn law_shared_manager_accepts<S: SharedMemory>(
    pmm: &PhysicalMemoryManager,
    mem: &mut S,
    size: int,
    page_index: u64,
)
    requires
        bitmap_in_window(pmm, old(mem).seen().base, old(mem).seen().len as int, size),
        page_index < 64 * size,
    ensures
        call_requires(PhysicalMemoryManager::allocate_shared_page::<S>, (pmm, mem)),
        call_requires(PhysicalMemoryManager::free_shared_page::<S>, (pmm, mem, page_index)),
{
    lemma_ceil(pmm.page_count as int, 64, pmm.word_count());
}

/// The place of the bitmap can be printed if it lies in the window.
pub proof fn law_bitmap_line_accepts(pmm: &PhysicalMemoryManager)
    requires
        pmm.physical_offset <= pmm.bitmap_ptr,
    ensures
        call_requires(PhysicalMemoryManager::bitmap_line, (pmm,)),
{
}

/// A manager can be set up if the first region that the kernel can use and that has room for the
/// bitmap lies in the window.
pub proof fn law_init_accepts<M: LinearMemory, E: MemoryMap>(
    mem: &mut M,
    memory_map: &E,
    physical_offset: u64,
    count: int,
    size: int,
    i: int,
)
    requires
        old(mem).base() == physical_offset,
        forall|k: int|
            0 <= k < memory_map.descriptors().len() ==> kernel_memory_end(
                #[trigger] memory_map.descriptors()[k],
            ) <= u64::MAX,
        just_covers(memory_map.descriptors(), count),
        just_enough_words(count, size),
        first_room(memory_map.descriptors(), i, 8 * size),
        memory_map.descriptors()[i].phys_start % 8 == 0,
        memory_map.descriptors()[i].phys_start < 0x10_0000_0000_0000,
        memory_map.descriptors()[i].phys_start + 8 * size <= 8 * old(mem).words().len(),
        physical_offset + memory_map.descriptors()[i].phys_start <= u64::MAX,
        physical_offset + memory_map.descriptors()[i].phys_start + 8 * size <= u64::MAX + 1,
    ensures
        call_requires(
            PhysicalMemoryManager::init::<M, E>,
            (mem, memory_map, physical_offset),
        ),
{
    law_init_possible(
        &*old(mem),
        memory_map.descriptors(),
        physical_offset,
        count,
        size,
        i,
    );
}

/// Pages can be counted and a region can be found in every memory map whose regions that the
/// kernel can use end at addresses of 64 bits.
pub proof fn law_memory_map_accepts<E: MemoryMap>(memory_map: &E, bytes: u64)
    requires
        forall|i: int|
            0 <= i < memory_map.descriptors().len() ==> kernel_memory_end(
                #[trigger] memory_map.descriptors()[i],
            ) <= u64::MAX,
    ensures
        call_requires(physical_page_count::<E>, (memory_map,)),
        call_requires(find_region::<E>, (memory_map, bytes)),
{
    lemma_regions_fit(memory_map.descriptors());
}

/// A quotient can be rounded up for every divisor but 0.
pub proof fn law_div_ceil_accepts(n: u64, d: u64)
    requires
        d > 0,
    ensures
        call_requires(div_ceil, (n, d)),
{
}

/// The addresses of every page of physical memory can be had, the virtual one if it exists.
pub proof fn law_page_accepts(page: &PageAllocation)
    requires
        page.index * 4096 < 0x10_0000_0000_0000,
    ensures
        call_requires(PageAllocation::frame, (page,)),
        (page.physical_offset + page.index * 4096 < 0x8000_0000_0000 || (page.physical_offset
            >= 0xFFFF_8000_0000_0000 && page.physical_offset + page.index * 4096 <= u64::MAX))
            && page.physical_offset + page.index * 4096 != 0 ==> call_requires(
            PageAllocation::as_ptr,
            (page,),
        ),
{
}

/// Bytes can be read everywhere in a window, and so can what is made of them.
pub proof fn law_read_accepts<M: LinearMemory>(mem: &M, addr: u64, end: int)
    requires
        mem.base() % 8 == 0,
        mem.base() <= addr,
        end == mem.base() + 8 * mem.words().len(),
        addr + 36 <= u64::MAX,
    ensures
        addr + 1 <= end ==> call_requires(read_u8::<M>, (mem, addr)),
        addr + 4 <= end ==> call_requires(read_u32::<M>, (mem, addr)),
        addr + 20 <= end ==> call_requires(AcpiRsdp::read::<M>, (mem, addr)),
        addr + 36 <= end ==> call_requires(AcpiTableHeader::read::<M>, (mem, addr)),
{
}

/// The root system descriptor table can be had if its header lies in the window.
pub proof fn law_rsdt_accepts<M: LinearMemory>(rsdp: &AcpiRsdp, mem: &M)
    requires
        mem.base() % 8 == 0,
        mem.base() <= rsdp.rsdt_address,
        rsdp.rsdt_address + 36 <= mem.base() + 8 * mem.words().len(),
    ensures
        call_requires(AcpiRsdp::rsdt::<M>, (rsdp, mem)),
{
}

/// The entries of the root system descriptor table can be had if the table lies in the window, and
/// the tables if their headers do too.
pub proof fn law_entries_accepts<M: LinearMemory>(rsdt: &AcpiRsdt, mem: &M)
    requires
        mem.base() % 8 == 0,
        rsdt.header.length >= 36,
        mem.base() <= rsdt.address,
        rsdt.address + rsdt.header.length <= mem.base() + 8 * mem.words().len(),
        rsdt.address + rsdt.header.length <= u64::MAX,
    ensures
        call_requires(AcpiRsdt::entry_addrs::<M>, (rsdt, mem)),
        (forall|i: int|
            0 <= i && 36 + 4 * i + 4 <= rsdt.header.length ==> mem.base() <= #[trigger] u32_at(
                mem.words(),
                mem.base(),
                rsdt.address + 36 + 4 * i,
            ) <= mem.base() + 8 * mem.words().len() - 36) ==> call_requires(
            AcpiRsdt::entries::<M>,
            (rsdt, mem),
        ),
{
    if forall|i: int|
        0 <= i && 36 + 4 * i + 4 <= rsdt.header.length ==> mem.base() <= #[trigger] u32_at(
            mem.words(),
            mem.base(),
            rsdt.address + 36 + 4 * i,
        ) <= mem.base() + 8 * mem.words().len() - 36 {
        assert forall|i: int| 0 <= i < rsdt.entry_count() implies bytes_in(
            mem,
            #[trigger] rsdt.entry_addr(mem, i),
            36,
        ) by {
            lemma_number(mem.words(), mem.base(), rsdt.address + 36 + 4 * i);
        }
    }
}

/// The root system descriptor pointer can be looked for if it lies in the window.
pub proof fn law_find_rsdp_accepts<M: LinearMemory>(entries: &[ConfigTableEntry], mem: &M)
    requires
        mem.base() % 8 == 0,
        forall|i: int|
            0 <= i < entries@.len() && is_rsdp_entry(#[trigger] entries@[i]) ==> mem.base()
                <= entries@[i].address && entries@[i].address + 20 <= mem.base() + 8
                * mem.words().len() && entries@[i].address + 20 <= u64::MAX,
    ensures
        call_requires(find_rsdp::<M>, (entries, mem)),
{
    assert forall|i: int|
        0 <= i < entries@.len() && (#[trigger] entries@[i]).guid@ == acpi2_guid() implies
        is_rsdp_entry(entries@[i]) by {
        lemma_rsdp_entry(entries@[i]);
    }
}

/// Every string can be turned into text that is UTF-8.
pub proof fn law_fixed_string_accepts<const N: usize>(string: &AcpiFixedString<N>)
    requires
        valid_utf8(string.0@),
    ensures
        call_requires(AcpiFixedString::<N>::fmt, (string,)),
{
}

} // verus!
