//! What the functions of the loader do, in terms of the kernel file, the memory map and the
//! addresses themselves.

use vstd::prelude::*;

use crate::kernel_file::{
    elf_file, is_load_segment, load_segments, parse_kernel, ElfFile, ProgramHeader,
};
use crate::loader::{
    all_aligned, all_mapped_regions_fit, can_identity_map, can_load_segment, can_map_segment,
    can_place_segment, identity_mapping, identity_mappings, is_mapped_type, kernel_stack,
    load_segment, load_trampoline, map_kernel, mapped_limit, mapped_regions_fit, mapped_type,
    max_phys_addr, misaligned, pages_for, physical_memory_fits, physical_memory_mappings,
    place_kernel, place_segment, places, segment_in_kernel_range, segment_mappings, LoaderError,
    SegmentPlacement,
};
use crate::manager_laws::lemma_ceil;
use crate::mapping::{Mapping, MappingFlags, MappingRange};
use crate::memory_map::{MemoryDescriptor, MemoryMap, MemoryType};

verus! {

/// A parsed kernel has the entry point and the segments of the file. What is not an ELF file is
/// refused.
pub proof fn law_parse_kernel(data: &[u8], file: Result<ElfFile, LoaderError>)
    requires
        call_ensures(parse_kernel, (data,), file),
    ensures
        match elf_file(data@) {
            Some((entry, segments)) => {
                &&& file is Ok
                &&& file->Ok_0.entry == entry
                &&& match segments {
                    Some(table) => file->Ok_0.segments is Some && file->Ok_0.segments->Some_0@
                        == table,
                    None => file->Ok_0.segments is None,
                }
            },
            None => file is Err && file->Err_0 is ElfParse,
        },
{
}

/// Whether `chosen` are the elements of `all` at the positions `at`, in ascending order, and these
/// are the positions of the segments of type 1.
pub open spec fn picks_loadable(
    all: Seq<ProgramHeader>,
    chosen: Seq<ProgramHeader>,
    at: Seq<int>,
) -> bool {
    &&& at.len() == chosen.len()
    &&& forall|i: int|
        0 <= i < at.len() ==> 0 <= #[trigger] at[i] < all.len() && chosen[i] == all[at[i]]
            && all[at[i]].p_type == 1
    &&& forall|i: int, j: int| 0 <= i < j < at.len() ==> #[trigger] at[i] < #[trigger] at[j]
    &&& forall|k: int|
        0 <= k < all.len() && (#[trigger] all[k]).p_type == 1 ==> exists|i: int|
            0 <= i < at.len() && #[trigger] at[i] == k
}

proof fn lemma_filter_picks(all: Seq<ProgramHeader>, wanted: spec_fn(ProgramHeader) -> bool) -> (at:
    Seq<int>)
    requires
        forall|segment: ProgramHeader| #[trigger] wanted(segment) <==> segment.p_type == 1,
    ensures
        picks_loadable(all, all.filter(wanted), at),
    decreases all.len(),
{
    reveal(Seq::filter);
    if all.len() == 0 {
        Seq::empty()
    } else {
        let before = all.drop_last();
        let at = lemma_filter_picks(before, wanted);
        let n = all.len() - 1;
        let chosen = before.filter(wanted);
        assert forall|k: int| 0 <= k < n implies before[k] == #[trigger] all[k] by {}
        let result = if wanted(all.last()) {
            at.push(n)
        } else {
            at
        };
        let filtered = all.filter(wanted);
        assert(filtered == if wanted(all.last()) {
            chosen.push(all.last())
        } else {
            chosen
        });
        assert forall|i: int| 0 <= i < result.len() implies 0 <= #[trigger] result[i] < all.len()
            && filtered[i] == all[result[i]] && all[result[i]].p_type == 1 by {
            if i < at.len() {
                assert(result[i] == at[i]);
                assert(before[at[i]] == all[at[i]]);
                assert(filtered[i] == chosen[i]);
            }
        }
        assert forall|i: int, j: int| 0 <= i < j < result.len() implies #[trigger] result[i]
            < #[trigger] result[j] by {
            assert(result[i] == at[i]);
            if j < at.len() {
                assert(result[j] == at[j]);
            }
        }
        assert forall|k: int| 0 <= k < all.len() && (#[trigger] all[k]).p_type == 1 implies exists|
            i: int,
        | 0 <= i < result.len() && #[trigger] result[i] == k by {
            if k < n {
                assert(before[k].p_type == 1);
                let i = choose|i: int| 0 <= i < at.len() && #[trigger] at[i] == k;
                assert(result[i] == k);
            } else {
                assert(wanted(all.last()));
                assert(result[at.len() as int] == k);
            }
        }
        result
    }
}

/// The segments that are loaded are those of type 1: each one of them, in the order of the file,
/// and no other. A file without a table of segments is refused.
pub proof fn law_load_segments(
    file: &ElfFile,
    segments: Result<Vec<ProgramHeader>, LoaderError>,
)
    requires
        call_ensures(load_segments, (file,), segments),
    ensures
        file.segments is None <==> segments is Err,
        segments matches Err(e) ==> e is InvalidKernelElf,
        segments matches Ok(chosen) ==> {
            let all = file.segments->Some_0@;
            &&& forall|i: int| 0 <= i < chosen@.len() ==> (#[trigger] chosen@[i]).p_type == 1
            &&& forall|k: int|
                0 <= k < all.len() && (#[trigger] all[k]).p_type == 1 ==> chosen@.contains(all[k])
            &&& exists|at: Seq<int>| #[trigger] picks_loadable(all, chosen@, at)
        },
{
    if let Ok(chosen) = segments {
        let all = file.segments->Some_0@;
        let at = lemma_filter_picks(all, |segment: ProgramHeader| is_load_segment(segment));
        assert(picks_loadable(all, chosen@, at));
        assert forall|i: int| 0 <= i < chosen@.len() implies (#[trigger] chosen@[i]).p_type
            == 1 by {
            assert(chosen@[i] == all[at[i]]);
        }
        assert forall|k: int|
            0 <= k < all.len() && (#[trigger] all[k]).p_type == 1 implies chosen@.contains(
            all[k],
        ) by {
            let i = choose|i: int| 0 <= i < at.len() && #[trigger] at[i] == k;
            assert(chosen@[i] == all[k]);
        }
    }
}

/// The pages of a segment are just those that its addresses lie in: the first one holds its first
/// address, and there are just enough for its size in memory.
pub open spec fn just_holds(placement: SegmentPlacement, segment: ProgramHeader) -> bool {
    &&& placement.vaddr_page_start % 4096 == 0
    &&& placement.page_offset < 4096
    &&& placement.vaddr_page_start + placement.page_offset == segment.p_vaddr
    &&& placement.n_pages * 4096 >= placement.page_offset + segment.p_memsz
    &&& placement.n_pages > 0 ==> (placement.n_pages - 1) * 4096 < placement.page_offset
        + segment.p_memsz
}

proof fn lemma_just_holds(placement: SegmentPlacement, segment: ProgramHeader)
    requires
        places(placement, segment),
    ensures
        just_holds(placement, segment),
{
    lemma_ceil(
        segment.p_memsz + segment.p_vaddr % 4096,
        4096,
        placement.n_pages as int,
    );
}

/// A segment is placed in the pages that its addresses lie in.
pub proof fn law_place_segment(segment: &ProgramHeader, placement: SegmentPlacement)
    requires
        call_ensures(place_segment, (segment,), placement),
    ensures
        just_holds(placement, *segment),
{
    lemma_just_holds(placement, *segment);
}

/// Each segment of the kernel is placed in the pages that its addresses lie in.
pub proof fn law_place_kernel(segments: &[ProgramHeader], placements: Vec<SegmentPlacement>)
    requires
        call_ensures(place_kernel, (segments,), placements),
    ensures
        placements@.len() == segments@.len(),
        forall|i: int|
            0 <= i < segments@.len() ==> just_holds(placements@[i], #[trigger] segments@[i]),
{
    assert forall|i: int| 0 <= i < segments@.len() implies just_holds(
        placements@[i],
        #[trigger] segments@[i],
    ) by {
        lemma_just_holds(placements@[i], segments@[i]);
    }
}

/// A segment can be placed if and only if the start of its first page is a virtual address, and
/// the number of bytes from there to its end is a number of 64 bits.
pub proof fn law_can_place_segment(segment: &ProgramHeader, r: bool)
    requires
        call_ensures(can_place_segment, (segment,), r),
    ensures
        r <==> ({
            let start = segment.p_vaddr - segment.p_vaddr % 4096;
            &&& start < 0x8000_0000_0000 || start >= 0xFFFF_8000_0000_0000
            &&& segment.p_vaddr % 4096 + segment.p_memsz <= u64::MAX
        }),
{
}

/// The pages of a segment are in the range of the kernel if and only if each of their addresses
/// is.
pub proof fn law_segment_in_kernel_range(placement: &SegmentPlacement, r: bool)
    requires
        call_ensures(segment_in_kernel_range, (placement,), r),
    ensures
        r <==> 0xFFFF_FFFF_8000_0000 <= placement.vaddr_page_start && placement.vaddr_page_start
            + placement.n_pages * 4096 <= 0xFFFF_FFFF_9000_0000,
{
}

/// A segment can be copied if and only if the file holds all of its bytes, and the pages hold all
/// of its bytes, those in the file and those in memory.
pub proof fn law_can_load_segment(segment: &ProgramHeader, kernel: u64, pages: u64, r: bool)
    requires
        call_ensures(can_load_segment, (segment, kernel, pages), r),
    ensures
        r <==> ({
            &&& segment.p_offset + segment.p_filesz <= kernel
            &&& segment.p_vaddr % 4096 + segment.p_filesz <= pages
            &&& segment.p_vaddr % 4096 + segment.p_memsz <= pages
        }),
{
}

/// A segment that is loaded has its bytes in the file at its place in the first page and after it.
/// The rest of its size in memory is zero. All other bytes of the pages stay as they were.
pub proof fn law_load_segment(pages: &mut [u8], kernel: &[u8], segment: &ProgramHeader)
    requires
        call_ensures(load_segment, (pages, kernel, segment), ()),
        segment.p_offset + segment.p_filesz <= kernel@.len(),
        segment.p_vaddr % 4096 + segment.p_filesz <= old(pages)@.len(),
        segment.p_vaddr % 4096 + segment.p_memsz <= old(pages)@.len(),
    ensures
        final(pages)@.len() == old(pages)@.len(),
        forall|k: int|
            0 <= k < segment.p_filesz ==> final(pages)@[#[trigger] (segment.p_vaddr % 4096 + k)]
                == kernel@[segment.p_offset + k],
        forall|k: int|
            segment.p_filesz <= k < segment.p_memsz ==> final(pages)@[#[trigger] (segment.p_vaddr
                % 4096 + k)] == 0,
        forall|i: int|
            0 <= i < old(pages)@.len() && (i < segment.p_vaddr % 4096 || (i >= segment.p_vaddr
                % 4096 + segment.p_filesz && i >= segment.p_vaddr % 4096 + segment.p_memsz))
                ==> #[trigger] final(pages)@[i] == old(pages)@[i],
{
    assert forall|k: int| 0 <= k < segment.p_filesz implies final(pages)@[#[trigger] (
    segment.p_vaddr % 4096 + k)] == kernel@[segment.p_offset + k] by {
        let i = segment.p_vaddr % 4096 + k;
        assert(final(pages)@[i] == final(pages)@[i]);
        assert(i - segment.p_vaddr % 4096 == k);
    }
    assert forall|k: int| segment.p_filesz <= k < segment.p_memsz implies final(pages)@[#[trigger] (segment.p_vaddr % 4096 + k)] == 0 by {
        let i = segment.p_vaddr % 4096 + k;
        assert(final(pages)@[i] == final(pages)@[i]);
        assert(i - segment.p_vaddr % 4096 == k);
    }
}

/// The trampoline is copied to the start of its page. The rest of the page stays as it was.
pub proof fn law_load_trampoline(page: &mut [u8], trampoline: &[u8])
    requires
        call_ensures(load_trampoline, (page, trampoline), ()),
        trampoline@.len() <= old(page)@.len(),
    ensures
        final(page)@.len() == old(page)@.len(),
        forall|i: int| 0 <= i < trampoline@.len() ==> final(page)@[i] == #[trigger] trampoline@[i],
        forall|i: int|
            trampoline@.len() <= i < old(page)@.len() ==> final(page)@[i] == #[trigger] old(page)@[i],
{
    assert forall|i: int| 0 <= i < trampoline@.len() implies final(page)@[i]
        == #[trigger] trampoline@[i] by {
        assert(final(page)@[i] == final(page)@[i]);
    }
    assert forall|i: int| trampoline@.len() <= i < old(page)@.len() implies final(page)@[i]
        == #[trigger] old(page)@[i] by {
        assert(final(page)@[i] == final(page)@[i]);
    }
}

/// Whether there is a page to map, and it or its frame does not start at a multiple of the size of
/// a page.
pub open spec fn starts_inside_page(placement: SegmentPlacement, allocated_pages: u64) -> bool {
    placement.n_pages > 0 && !(placement.vaddr_page_start % 4096 == 0 && allocated_pages % 4096
        == 0)
}

/// Whether the pages of a segment are mapped, one by one, to the frames from `allocated_pages` on,
/// to be read and executed, in every address space.
pub open spec fn maps_code(
    range: MappingRange,
    placement: SegmentPlacement,
    allocated_pages: u64,
) -> bool {
    &&& range.count == placement.n_pages
    &&& range.virt_start == placement.vaddr_page_start
    &&& range.phys_start == allocated_pages
    &&& range.flags.present && !range.flags.writable && range.flags.global
        && !range.flags.no_execute
}

/// Whether a segment can be mapped: its pages are in the range of the kernel, and its frames
/// exist, as far as it is not refused before they are looked at.
pub proof fn law_can_map_segment(placement: &SegmentPlacement, allocated_pages: u64, r: bool)
    requires
        call_ensures(can_map_segment, (placement, allocated_pages), r),
    ensures
        r <==> ({
            &&& 0xFFFF_FFFF_8000_0000 <= placement.vaddr_page_start
            &&& placement.vaddr_page_start + placement.n_pages * 4096 <= 0xFFFF_FFFF_9000_0000
            &&& {
                ||| placement.n_pages == 0
                ||| placement.vaddr_page_start % 4096 != 0
                ||| allocated_pages < 0x10_0000_0000_0000 && allocated_pages % 4096 != 0
                ||| allocated_pages + (placement.n_pages - 1) * 4096 < 0x10_0000_0000_0000
            }
        }),
{
}

/// A segment is mapped to its frames, unless its first page or frame is not aligned.
pub proof fn law_segment_mappings(
    placement: &SegmentPlacement,
    allocated_pages: u64,
    range: Result<MappingRange, LoaderError>,
)
    requires
        call_ensures(segment_mappings, (placement, allocated_pages), range),
    ensures
        range is Err <==> starts_inside_page(*placement, allocated_pages),
        range matches Err(e) ==> e is AddressNotAligned,
        range matches Ok(r) ==> maps_code(r, *placement, allocated_pages),
{
}

/// Each segment of the kernel is mapped to its frames, unless one of them has a first page or
/// frame that is not aligned.
pub proof fn law_map_kernel(
    placements: &[SegmentPlacement],
    allocated_pages: &[u64],
    ranges: Result<Vec<MappingRange>, LoaderError>,
)
    requires
        call_ensures(map_kernel, (placements, allocated_pages), ranges),
        placements@.len() == allocated_pages@.len(),
    ensures
        ranges is Err <==> exists|i: int|
            0 <= i < placements@.len() && starts_inside_page(
                #[trigger] placements@[i],
                allocated_pages@[i],
            ),
        ranges matches Err(e) ==> e is AddressNotAligned,
        ranges matches Ok(r) ==> {
            &&& r@.len() == placements@.len()
            &&& forall|i: int|
                0 <= i < placements@.len() ==> maps_code(
                    r@[i],
                    #[trigger] placements@[i],
                    allocated_pages@[i],
                )
        },
{
    let n = placements@.len() as int;
    if exists|i: int|
        0 <= i < n && starts_inside_page(#[trigger] placements@[i], allocated_pages@[i]) {
        let i = choose|i: int|
            0 <= i < n && starts_inside_page(#[trigger] placements@[i], allocated_pages@[i]);
        assert(misaligned(placements@[i], allocated_pages@[i]));
        assert(!all_aligned(placements@, allocated_pages@, n));
    }
    if !all_aligned(placements@, allocated_pages@, n) {
        let i = choose|i: int|
            0 <= i < n && misaligned(#[trigger] placements@[i], allocated_pages@[i]);
        assert(starts_inside_page(placements@[i], allocated_pages@[i]));
    }
    if let Ok(r) = ranges {
        assert forall|i: int| 0 <= i < n implies maps_code(
            r@[i],
            #[trigger] placements@[i],
            allocated_pages@[i],
        ) by {
            assert(r@[i].wf());
        }
    }
}

/// The stack is one page, the second one of its region, and can be written and not executed. It
/// starts at the end of that page. A frame that is not aligned is refused.
pub proof fn law_kernel_stack(
    frame_addr: u64,
    stack: Result<(MappingRange, u64), LoaderError>,
)
    requires
        call_ensures(kernel_stack, (frame_addr,), stack),
    ensures
        stack is Ok <==> frame_addr % 4096 == 0,
        stack matches Err(e) ==> e is AddressNotAligned,
        stack matches Ok((range, rsp)) ==> {
            &&& range.virt_start == 0xFFFF_FFFF_9000_1000
            &&& range.phys_start == frame_addr
            &&& range.count == 1
            &&& range.flags.present && range.flags.writable && !range.flags.global
                && range.flags.no_execute
            &&& rsp == range.virt_start + 4096
        },
{
}

/// Whether a page can be read and executed, and not written, in one address space.
pub open spec fn shared_with_loader(flags: MappingFlags) -> bool {
    flags.present && !flags.writable && !flags.global && !flags.no_execute
}

/// A single page is mapped to the frame at the same address. An address that is not aligned is
/// refused.
pub proof fn law_identity_mapping(addr: u64, range: Result<MappingRange, LoaderError>)
    requires
        call_ensures(identity_mapping, (addr,), range),
    ensures
        range is Ok <==> addr % 4096 == 0,
        range matches Err(e) ==> e is AddressNotAligned,
        range matches Ok(r) ==> {
            &&& r.virt_start == addr
            &&& r.phys_start == addr
            &&& r.count == 1
            &&& shared_with_loader(r.flags)
        },
{
}

/// The first page of the bytes from `start` to `end` is the one that holds the first byte, and the
/// last one is the one that holds the last byte. Each is mapped to the frame at the same address.
pub proof fn law_identity_mappings(start: u64, end: u64, range: MappingRange)
    requires
        end > 0,
        call_ensures(identity_mappings, (start, end), range),
    ensures
        range.phys_start == range.virt_start,
        range.virt_start % 4096 == 0,
        range.virt_start <= start < range.virt_start + 4096,
        range.count > 0 ==> range.virt_start + (range.count - 1) * 4096 < end <= range.virt_start
            + range.count * 4096,
        range.count == 0 ==> end <= range.virt_start,
        shared_with_loader(range.flags),
{
}

/// Bytes can be mapped at their own address if and only if the page of the last byte, and the one
/// after it, are in the lower half of the address space, or there is no page to be mapped.
pub proof fn law_can_identity_map(start: u64, end: u64, r: bool)
    requires
        end > 0,
        call_ensures(can_identity_map, (start, end), r),
    ensures
        r <==> ((end - 1) / 4096 < start / 4096 || (end - 1) / 4096 + 1 < 0x8_0000_0000),
{
}

/// Memory of all types is mapped, but for memory that is reserved or not usable, that of the
/// firmware's runtime services, and that of types that a vendor defines.
pub proof fn law_mapped_types(ty: MemoryType, r: bool)
    requires
        call_ensures(is_mapped_type, (ty,), r),
    ensures
        r <==> match ty {
            MemoryType::Reserved => false,
            MemoryType::RuntimeServicesCode => false,
            MemoryType::RuntimeServicesData => false,
            MemoryType::Unusable => false,
            MemoryType::Custom(_) => false,
            _ => true,
        },
{
}

/// Whether the region is of a type that is mapped.
pub open spec fn is_mapped(desc: MemoryDescriptor) -> bool {
    match desc.ty {
        MemoryType::Reserved => false,
        MemoryType::RuntimeServicesCode => false,
        MemoryType::RuntimeServicesData => false,
        MemoryType::Unusable => false,
        MemoryType::Custom(_) => false,
        _ => true,
    }
}

/// The regions that are mapped fit if and only if each of them ends at an address of 64 bits.
pub proof fn law_all_mapped_regions_fit<E: MemoryMap>(memory_map: &E, r: bool)
    requires
        call_ensures(all_mapped_regions_fit::<E>, (memory_map,), r),
    ensures
        r <==> forall|i: int|
            0 <= i < memory_map.descriptors().len() && is_mapped(
                #[trigger] memory_map.descriptors()[i],
            ) ==> memory_map.descriptors()[i].phys_start + memory_map.descriptors()[i].page_count
                * 4096 <= u64::MAX,
{
    let descs = memory_map.descriptors();
    assert forall|i: int| 0 <= i < descs.len() implies is_mapped(#[trigger] descs[i])
        == mapped_type(descs[i].ty) && descs[i].phys_end() == descs[i].phys_start
        + descs[i].page_count * 4096 by {}
    if mapped_regions_fit(descs) {
        assert forall|i: int| 0 <= i < descs.len() && is_mapped(#[trigger] descs[i]) implies
            descs[i].phys_start + descs[i].page_count * 4096 <= u64::MAX by {
            assert(mapped_type(descs[i].ty));
        }
    } else {
        let i = choose|i: int|
            0 <= i < descs.len() && mapped_type((#[trigger] descs[i]).ty) && descs[i].phys_end()
                > u64::MAX;
        assert(is_mapped(descs[i]));
    }
}

proof fn lemma_mapped_limit_reached(descs: Seq<MemoryDescriptor>)
    ensures
        mapped_limit(descs) is None ==> forall|i: int|
            0 <= i < descs.len() ==> !is_mapped(#[trigger] descs[i]),
        mapped_limit(descs) matches Some(limit) ==> {
            &&& forall|i: int|
                0 <= i < descs.len() && is_mapped(#[trigger] descs[i]) ==> descs[i].phys_start
                    + descs[i].page_count * 4096 <= limit
            &&& exists|i: int|
                0 <= i < descs.len() && is_mapped(#[trigger] descs[i]) && descs[i].phys_start
                    + descs[i].page_count * 4096 == limit
        },
    decreases descs.len(),
{
    if descs.len() > 0 {
        let before = descs.drop_last();
        lemma_mapped_limit_reached(before);
        let n = descs.len() - 1;
        assert(descs.last() == descs[n]);
        assert(is_mapped(descs[n]) == mapped_type(descs[n].ty));
        assert forall|i: int| 0 <= i < n implies before[i] == #[trigger] descs[i] by {}
        if let Some(limit) = mapped_limit(before) {
            let i = choose|i: int|
                0 <= i < before.len() && is_mapped(#[trigger] before[i]) && before[i].phys_start
                    + before[i].page_count * 4096 == limit;
            assert(is_mapped(descs[i]));
        }
    }
}

/// The limit of physical memory is the end of a region that is mapped, and no such region ends
/// above it. There is one if and only if a region is mapped.
pub proof fn law_max_phys_addr<E: MemoryMap>(memory_map: &E, limit: Result<u64, LoaderError>)
    requires
        call_ensures(max_phys_addr::<E>, (memory_map,), limit),
    ensures
        limit is Err <==> forall|i: int|
            0 <= i < memory_map.descriptors().len() ==> !is_mapped(
                #[trigger] memory_map.descriptors()[i],
            ),
        limit matches Err(e) ==> e is InvalidMemoryMap,
        limit matches Ok(addr) ==> {
            let descs = memory_map.descriptors();
            &&& forall|i: int|
                0 <= i < descs.len() && is_mapped(#[trigger] descs[i]) ==> descs[i].phys_start
                    + descs[i].page_count * 4096 <= addr
            &&& exists|i: int|
                0 <= i < descs.len() && is_mapped(#[trigger] descs[i]) && descs[i].phys_start
                    + descs[i].page_count * 4096 == addr
        },
{
    lemma_mapped_limit_reached(memory_map.descriptors());
}

/// Physical memory fits if and only if it ends, where it is mapped, below the kernel executable.
pub proof fn law_physical_memory_fits(limit: u64, r: bool)
    requires
        call_ensures(physical_memory_fits, (limit,), r),
    ensures
        r <==> 0xFFFF_8800_0000_0000 + limit <= 0xFFFF_FFFF_8000_0000,
{
}

/// Physical memory is mapped from its first byte on, with just enough pages to reach the limit, to
/// be read, written and executed, in every address space.
pub proof fn law_physical_memory_mappings(limit: u64, range: MappingRange)
    requires
        limit > 0,
        call_ensures(physical_memory_mappings, (limit,), range),
    ensures
        range.virt_start == 0xFFFF_8800_0000_0000,
        range.phys_start == 0,
        range.count > 0,
        (range.count - 1) * 4096 < limit <= range.count * 4096,
        range.flags.present && range.flags.writable && range.flags.global
            && !range.flags.no_execute,
{
    lemma_ceil(limit as int, 4096, range.count as int);
}

/// The pages for some bytes are just enough for them.
pub proof fn law_pages_for(size: u64, pages: u64)
    requires
        call_ensures(pages_for, (size,), pages),
    ensures
        pages * 4096 >= size,
        pages > 0 ==> (pages - 1) * 4096 < size,
{
    lemma_ceil(size as int, 4096, pages as int);
}

/// The mappings of a range are one page and one frame apart, in step.
pub proof fn law_mapping_get(range: &MappingRange, i: u64, mapping: Mapping)
    requires
        call_ensures(MappingRange::get, (range, i), mapping),
    ensures
        mapping.page == range.virt_start + 4096 * i,
        mapping.frame == range.phys_start + 4096 * i,
        mapping.flags.present == range.flags.present,
        mapping.flags.writable == range.flags.writable,
        mapping.flags.global == range.flags.global,
        mapping.flags.no_execute == range.flags.no_execute,
{
}

} // verus!
