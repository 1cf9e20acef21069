//! What the functions of the memory manager do, in terms of the memory map and the words of
//! memory.

use core::ops::Range;

use vstd::prelude::*;

use crate::bits::bit;
use crate::memory::{LinearMemory, MemOp, SharedMemory, Words};
use crate::memory_map::{MemoryDescriptor, MemoryMap, MemoryType};
use crate::phys_alloc::{
    addr_limit, all_regions_fit, are_runs, bitmap_region, bitmap_words, ceil_div, div_ceil,
    find_region, finds_zero, first_fit, has_room_for_bitmap, in_regions, is_run, is_usable,
    op_takes, page_inside, page_limit, physical_page_count, regions_fit, take_lowest_bit, usable,
    usable_page, PageAllocation, PhysicalMemoryManager,
};

verus! {

/// Whether the bit of page `page` is set in a bitmap at the address `bitmap_ptr`, in a window that
/// holds `words` and is mapped at `base`. The least significant bit of the first word is that of
/// page 0.
pub open spec fn page_bit(words: Words, base: u64, bitmap_ptr: u64, page: int) -> bool {
    (words[(bitmap_ptr - base) / 8 + page / 64] >> ((page % 64) as u64)) & 1 == 1
}

/// Whether page `page` lies in one of the regions.
pub open spec fn listed(regions: Seq<Range<u64>>, page: int) -> bool {
    exists|i: int| 0 <= i < regions.len() && (#[trigger] regions[i]).start <= page < regions[i].end
}

/// Whether the regions, in ascending order and with a gap between any two, hold exactly the pages
/// below the number of pages whose bit is set.
pub open spec fn lists_pages<M: LinearMemory>(
    regions: Seq<Range<u64>>,
    pmm: &PhysicalMemoryManager,
    mem: &M,
) -> bool {
    &&& forall|i: int|
        0 <= i < regions.len() ==> (#[trigger] regions[i]).start < regions[i].end
            <= pmm.page_count
    &&& forall|i: int, j: int|
        0 <= i < j < regions.len() ==> (#[trigger] regions[i]).end < (#[trigger] regions[j]).start
    &&& forall|p: int|
        0 <= p < pmm.page_count ==> #[trigger] page_bit(
            mem.words(),
            mem.base(),
            pmm.bitmap_ptr,
            p,
        ) == listed(regions, p)
}

/// The runs of available pages list the pages.
pub(crate) proof fn lemma_runs_list_pages<M: LinearMemory>(
    regions: Seq<Range<u64>>,
    pmm: &PhysicalMemoryManager,
    mem: &M,
)
    requires
        are_runs(regions, pmm.availability(mem), pmm.page_count as int),
    ensures
        lists_pages(regions, pmm, mem),
{
    let free = pmm.availability(mem);
    let count = pmm.page_count as int;
    assert forall|i: int| 0 <= i < regions.len() implies (#[trigger] regions[i]).start
        < regions[i].end <= pmm.page_count by {
        assert(is_run(regions[i], free, count));
    }
    assert forall|p: int| 0 <= p < pmm.page_count implies #[trigger] page_bit(
        mem.words(),
        mem.base(),
        pmm.bitmap_ptr,
        p,
    ) == listed(regions, p) by {
        assert(free(p) == page_bit(mem.words(), mem.base(), pmm.bitmap_ptr, p));
        if free(p) {
            assert(in_regions(regions, p));
            let i = choose|i: int|
                0 <= i < regions.len() && (#[trigger] regions[i]).start <= p < regions[i].end;
            assert(regions[i].start <= p);
        }
        if listed(regions, p) {
            let i = choose|i: int|
                0 <= i < regions.len() && (#[trigger] regions[i]).start <= p < regions[i].end;
            assert(is_run(regions[i], free, count));
        }
    }
}

/// The regions that are given hold exactly the available pages.
pub proof fn law_available_regions<M: LinearMemory>(
    pmm: &PhysicalMemoryManager,
    mem: &M,
    regions: Vec<Range<u64>>,
)
    requires
        call_ensures(PhysicalMemoryManager::available_regions::<M>, (pmm, mem), regions),
    ensures
        lists_pages(regions@, pmm, mem),
{
    lemma_runs_list_pages(regions@, pmm, mem);
}

/// A quotient that is rounded up is the least one whose product is not below the dividend.
pub proof fn law_div_ceil(n: u64, d: u64, q: u64)
    requires
        d > 0,
        call_ensures(div_ceil, (n, d), q),
    ensures
        q * d >= n,
        q > 0 ==> (q - 1) * d < n,
{
    lemma_ceil(n as int, d as int, q as int);
}

/// A quotient that is rounded up is the least one whose product is not below the dividend.
pub(crate) proof fn lemma_ceil(n: int, d: int, q: int)
    requires
        n >= 0,
        d > 0,
        q == ceil_div(n, d),
    ensures
        q >= 0,
        q * d >= n,
        q > 0 ==> (q - 1) * d < n,
        n > 0 ==> q > 0,
{
    let m = n + d - 1;
    vstd::arithmetic::div_mod::lemma_fundamental_div_mod(m, d);
    let r = m % d;
    assert(q >= 0 && q * d >= n && (q > 0 ==> (q - 1) * d < n) && (n > 0 ==> q > 0))
        by (nonlinear_arith)
        requires
            n >= 0,
            d > 0,
            m == n + d - 1,
            m == d * q + r,
            0 <= r < d,
    ;
}

/// The memory that the kernel can use is that of these three types.
pub proof fn law_usable_types(ty: MemoryType, r: bool)
    requires
        call_ensures(is_usable, (ty,), r),
    ensures
        r <==> (ty is Conventional || ty is BootServicesCode || ty is BootServicesData),
{
}

/// The end of a region of memory that the kernel can use. The end of any other region counts as 0.
pub open spec fn kernel_memory_end(desc: MemoryDescriptor) -> int {
    match desc.ty {
        MemoryType::Conventional => desc.phys_start + desc.page_count * 4096,
        MemoryType::BootServicesCode => desc.phys_start + desc.page_count * 4096,
        MemoryType::BootServicesData => desc.phys_start + desc.page_count * 4096,
        _ => 0,
    }
}

/// Whether `count` pages are just enough to reach the end of each region that the kernel can use.
pub open spec fn just_covers(descs: Seq<MemoryDescriptor>, count: int) -> bool {
    &&& count >= 0
    &&& forall|i: int|
        0 <= i < descs.len() ==> kernel_memory_end(#[trigger] descs[i]) <= count * 4096
    &&& count > 0 ==> exists|i: int|
        0 <= i < descs.len() && kernel_memory_end(#[trigger] descs[i]) > (count - 1) * 4096
}

/// The limit of the usable regions is reached by one of them.
proof fn lemma_limit_reached(descs: Seq<MemoryDescriptor>)
    ensures
        addr_limit(descs) >= 0,
        forall|i: int|
            0 <= i < descs.len() ==> kernel_memory_end(#[trigger] descs[i]) <= addr_limit(descs),
        addr_limit(descs) > 0 ==> exists|i: int|
            0 <= i < descs.len() && kernel_memory_end(#[trigger] descs[i]) == addr_limit(descs),
    decreases descs.len(),
{
    if descs.len() > 0 {
        let before = descs.drop_last();
        lemma_limit_reached(before);
        assert(descs.last() == descs[descs.len() - 1]);
        assert forall|i: int| 0 <= i < before.len() implies before[i] == #[trigger] descs[i] by {}
        if addr_limit(before) > 0 {
            let i = choose|i: int|
                0 <= i < before.len() && kernel_memory_end(#[trigger] before[i]) == addr_limit(
                    before,
                );
            assert(kernel_memory_end(descs[i]) == addr_limit(before));
        }
    }
}

proof fn lemma_just_covers(descs: Seq<MemoryDescriptor>)
    ensures
        just_covers(descs, page_limit(descs)),
{
    let limit = addr_limit(descs);
    let count = page_limit(descs);
    lemma_limit_reached(descs);
    lemma_ceil(limit, 4096, count);
    if count > 0 {
        assert(limit > 0) by {
            if limit == 0 {
                assert(count == (0int + 4096 - 1) / 4096);
            }
        }
        let i = choose|i: int|
            0 <= i < descs.len() && kernel_memory_end(#[trigger] descs[i]) == limit;
        assert(kernel_memory_end(descs[i]) > (count - 1) * 4096);
    }
}

/// The number of pages is just enough to reach the end of each region that the kernel can use.
pub proof fn law_physical_page_count<E: MemoryMap>(memory_map: &E, count: u64)
    requires
        call_ensures(physical_page_count::<E>, (memory_map,), count),
    ensures
        just_covers(memory_map.descriptors(), count as int),
{
    lemma_just_covers(memory_map.descriptors());
}

/// Whether the region at position `i` is the first one that the kernel can use and that has room
/// for `bytes` bytes.
pub open spec fn first_room(descs: Seq<MemoryDescriptor>, i: int, bytes: int) -> bool {
    &&& 0 <= i < descs.len()
    &&& has_room(descs[i], bytes)
    &&& forall|j: int| 0 <= j < i ==> !has_room(#[trigger] descs[j], bytes)
}

/// Whether the kernel can use a region, and it has room for `bytes` bytes.
pub open spec fn has_room(desc: MemoryDescriptor, bytes: int) -> bool {
    &&& desc.ty is Conventional || desc.ty is BootServicesCode || desc.ty is BootServicesData
    &&& desc.page_count * 4096 >= bytes
}

proof fn lemma_first_room(descs: Seq<MemoryDescriptor>, bytes: int)
    ensures
        match first_fit(descs, bytes) {
            Some(desc) => exists|i: int| #[trigger]
                first_room(descs, i, bytes) && descs[i] == desc,
            None => forall|i: int| 0 <= i < descs.len() ==> !has_room(#[trigger] descs[i], bytes),
        },
    decreases descs.len(),
{
    if descs.len() > 0 {
        let before = descs.drop_last();
        lemma_first_room(before, bytes);
        assert(descs.last() == descs[descs.len() - 1]);
        assert forall|i: int| 0 <= i < before.len() implies before[i] == #[trigger] descs[i] by {}
        match first_fit(before, bytes) {
            Some(desc) => {
                let i = choose|i: int| #[trigger]
                    first_room(before, i, bytes) && before[i] == desc;
                assert(first_room(descs, i, bytes) && descs[i] == desc);
            },
            None => {
                if has_room(descs.last(), bytes) {
                    assert(first_room(descs, descs.len() - 1, bytes));
                }
            },
        }
    }
}

/// The region that is found is the first one that the kernel can use and that has room. If none is
/// found, there is no such region.
pub proof fn law_find_region<E: MemoryMap>(
    memory_map: &E,
    bytes: u64,
    region: Option<MemoryDescriptor>,
)
    requires
        call_ensures(find_region::<E>, (memory_map, bytes), region),
    ensures
        match region {
            Some(desc) => exists|i: int| #[trigger]
                first_room(memory_map.descriptors(), i, bytes as int)
                    && memory_map.descriptors()[i] == desc,
            None => forall|i: int|
                0 <= i < memory_map.descriptors().len() ==> !has_room(
                    #[trigger] memory_map.descriptors()[i],
                    bytes as int,
                ),
        },
{
    lemma_first_room(memory_map.descriptors(), bytes as int);
}

/// The regions that the kernel can use are looked at, and all of them: whether they end at
/// addresses of 64 bits.
pub proof fn law_all_regions_fit<E: MemoryMap>(memory_map: &E, r: bool)
    requires
        call_ensures(all_regions_fit::<E>, (memory_map,), r),
    ensures
        r <==> forall|i: int|
            0 <= i < memory_map.descriptors().len() ==> kernel_memory_end(
                #[trigger] memory_map.descriptors()[i],
            ) <= u64::MAX,
{
    lemma_regions_fit(memory_map.descriptors());
}

/// The regions fit if and only if each of them ends at an address of 64 bits.
pub(crate) proof fn lemma_regions_fit(descs: Seq<MemoryDescriptor>)
    ensures
        regions_fit(descs) <==> forall|i: int|
            0 <= i < descs.len() ==> kernel_memory_end(#[trigger] descs[i]) <= u64::MAX,
{
    if regions_fit(descs) {
        assert forall|i: int| 0 <= i < descs.len() implies kernel_memory_end(#[trigger] descs[i])
            <= u64::MAX by {
            assert(usable(descs[i].ty) ==> descs[i].phys_end() <= u64::MAX);
        }
    }
    if forall|i: int| 0 <= i < descs.len() ==> kernel_memory_end(#[trigger] descs[i]) <= u64::MAX {
        assert forall|i: int| 0 <= i < descs.len() && #[trigger] usable(descs[i].ty) implies
            descs[i].phys_end() <= u64::MAX by {
            assert(kernel_memory_end(descs[i]) <= u64::MAX);
        }
    }
}

/// Whether `words` words are just enough for a bit for each of `count` pages.
pub open spec fn just_enough_words(count: int, words: int) -> bool {
    &&& words >= 0
    &&& words * 64 >= count
    &&& words > 0 ==> (words - 1) * 64 < count
}

/// There is room for the bitmap if and only if the first region that the kernel can use and that
/// is large enough starts at a word that the window holds, and so do all words of the bitmap.
pub proof fn law_has_room_for_bitmap<E: MemoryMap>(
    memory_map: &E,
    physical_offset: u64,
    words: u64,
    r: bool,
    count: int,
    size: int,
    i: int,
)
    requires
        call_ensures(has_room_for_bitmap::<E>, (memory_map, physical_offset, words), r),
        forall|k: int|
            0 <= k < memory_map.descriptors().len() ==> kernel_memory_end(
                #[trigger] memory_map.descriptors()[k],
            ) <= u64::MAX,
        just_covers(memory_map.descriptors(), count),
        just_enough_words(count, size),
        first_room(memory_map.descriptors(), i, 8 * size),
    ensures
        r <==> ({
            let start = memory_map.descriptors()[i].phys_start;
            &&& start < 0x10_0000_0000_0000
            &&& start % 8 == 0
            &&& start + 8 * size <= 8 * words
            &&& physical_offset + start <= u64::MAX
            &&& physical_offset + start + 8 * size <= u64::MAX + 1
        }),
{
    let descs = memory_map.descriptors();
    lemma_regions_fit(descs);
    lemma_bitmap_region(descs, count, size, i);
}

/// The place of the bitmap is at the first region that has room.
proof fn lemma_bitmap_region(descs: Seq<MemoryDescriptor>, count: int, size: int, i: int)
    requires
        just_covers(descs, count),
        just_enough_words(count, size),
        first_room(descs, i, 8 * size),
    ensures
        page_limit(descs) == count,
        bitmap_words(page_limit(descs)) == size,
        bitmap_region(descs) == Some(descs[i]),
{
    lemma_just_covers(descs);
    lemma_covers_unique(descs, count, page_limit(descs));
    lemma_ceil(count, 64, bitmap_words(count));
    lemma_first_room(descs, 8 * size);
    if first_fit(descs, 8 * size) is None {
        assert(!has_room(descs[i], 8 * size));
    }
    let k = choose|k: int| #[trigger]
        first_room(descs, k, 8 * size) && descs[k] == first_fit(descs, 8 * size)->Some_0;
    if k < i {
        assert(!has_room(descs[k], 8 * size));
    } else if i < k {
        assert(!has_room(descs[i], 8 * size));
    }
}

/// There is only one number of pages that is just enough.
proof fn lemma_covers_unique(descs: Seq<MemoryDescriptor>, a: int, b: int)
    requires
        just_covers(descs, a),
        just_covers(descs, b),
    ensures
        a == b,
{
    if a < b {
        let i = choose|i: int|
            0 <= i < descs.len() && kernel_memory_end(#[trigger] descs[i]) > (b - 1) * 4096;
        assert(kernel_memory_end(descs[i]) <= a * 4096);
    } else if b < a {
        let i = choose|i: int|
            0 <= i < descs.len() && kernel_memory_end(#[trigger] descs[i]) > (a - 1) * 4096;
        assert(kernel_memory_end(descs[i]) <= b * 4096);
    }
}

/// Whether page `page` lies as a whole in a region of a type that the kernel can use:
/// conventional memory, or the code or data of boot services.
pub open spec fn in_kernel_memory(descs: Seq<MemoryDescriptor>, page: int) -> bool {
    exists|i: int|
        {
            &&& 0 <= i < descs.len()
            &&& (#[trigger] descs[i]).ty is Conventional || descs[i].ty is BootServicesCode
                || descs[i].ty is BootServicesData
            &&& descs[i].phys_start <= page * 4096
            &&& (page + 1) * 4096 <= descs[i].phys_start + descs[i].page_count * 4096
        }
}

proof fn lemma_usable_page(descs: Seq<MemoryDescriptor>, page: int)
    ensures
        usable_page(descs, page) == in_kernel_memory(descs, page),
{
    if usable_page(descs, page) {
        let i = choose|i: int|
            0 <= i < descs.len() && #[trigger] usable(descs[i].ty)
                && page_inside(descs[i], page);
        assert(descs[i].phys_start <= page * 4096);
        assert((page + 1) * 4096 <= descs[i].phys_start + descs[i].page_count * 4096);
    }
    if in_kernel_memory(descs, page) {
        let i = choose|i: int|
            {
                &&& 0 <= i < descs.len()
                &&& (#[trigger] descs[i]).ty is Conventional || descs[i].ty is BootServicesCode
                    || descs[i].ty is BootServicesData
                &&& descs[i].phys_start <= page * 4096
                &&& (page + 1) * 4096 <= descs[i].phys_start + descs[i].page_count * 4096
            };
        assert(usable(descs[i].ty));
        assert(page_inside(descs[i], page));
    }
}

/// Setting the manager up puts the bitmap at the start of the first region that the kernel can use
/// and that is large enough. After that, a page is available if and only if it lies as a whole in
/// a region whose type is `Conventional`, `BootServicesCode` or `BootServicesData`, and holds no
/// part of the bitmap. Memory outside of the bitmap is not written.
pub proof fn law_init<M: LinearMemory, E: MemoryMap>(
    mem: &mut M,
    memory_map: &E,
    physical_offset: u64,
    manager: PhysicalMemoryManager,
    size: int,
)
    requires
        call_ensures(
            PhysicalMemoryManager::init::<M, E>,
            (mem, memory_map, physical_offset),
            manager,
        ),
        PhysicalMemoryManager::can_init(old(mem), memory_map.descriptors(), physical_offset),
        just_enough_words(manager.page_count as int, size),
    ensures
        manager.physical_offset == physical_offset,
        just_covers(memory_map.descriptors(), manager.page_count as int),
        exists|i: int| #[trigger]
            first_room(memory_map.descriptors(), i, 8 * size) && manager.bitmap_ptr
                == physical_offset + memory_map.descriptors()[i].phys_start,
        final(mem).base() == old(mem).base(),
        final(mem).words().len() == old(mem).words().len(),
        forall|p: int|
            0 <= p < 64 * size ==> #[trigger] page_bit(
                final(mem).words(),
                final(mem).base(),
                manager.bitmap_ptr,
                p,
            ) == (in_kernel_memory(memory_map.descriptors(), p) && !(p * 4096
                < manager.bitmap_ptr - physical_offset + 8 * size && manager.bitmap_ptr
                - physical_offset < (p + 1) * 4096)),
        forall|w: int|
            0 <= w < old(mem).words().len() && !((manager.bitmap_ptr - old(mem).base()) / 8 <= w
                < (manager.bitmap_ptr - old(mem).base()) / 8 + size)
                ==> #[trigger] final(mem).words()[w] == old(mem).words()[w],
{
    let descs = memory_map.descriptors();
    lemma_just_covers(descs);
    lemma_ceil(manager.page_count as int, 64, manager.word_count());
    lemma_first_room(descs, 8 * size);
    let start = bitmap_region(descs)->Some_0.phys_start as int;
    assert forall|p: int| 0 <= p < 64 * size implies #[trigger] page_bit(
        final(mem).words(),
        final(mem).base(),
        manager.bitmap_ptr,
        p,
    ) == (in_kernel_memory(descs, p) && !(p * 4096 < manager.bitmap_ptr - physical_offset + 8
        * size && manager.bitmap_ptr - physical_offset < (p + 1) * 4096)) by {
        lemma_usable_page(descs, p);
        assert(manager.available(final(mem), p) == page_bit(
            final(mem).words(),
            final(mem).base(),
            manager.bitmap_ptr,
            p,
        ));
        lemma_ceil(start + 8 * size, 4096, ceil_div(start + 8 * size, 4096));
    }
    assert forall|w: int|
        0 <= w < old(mem).words().len() && !((manager.bitmap_ptr - old(mem).base()) / 8 <= w < (
        manager.bitmap_ptr - old(mem).base()) / 8 + size) implies #[trigger] final(mem).words()[w]
        == old(mem).words()[w] by {
        assert(!manager.holds_word(old(mem), w));
    }
}

/// A manager can be set up if the window starts at the first byte of physical memory, the regions
/// that the kernel can use end at addresses of 64 bits, and the first one of them that is large
/// enough for the bitmap lies in the window.
pub proof fn law_init_possible<M: LinearMemory>(
    mem: &M,
    descs: Seq<MemoryDescriptor>,
    physical_offset: u64,
    count: int,
    size: int,
    i: int,
)
    requires
        mem.base() == physical_offset,
        forall|k: int|
            0 <= k < descs.len() ==> kernel_memory_end(#[trigger] descs[k]) <= u64::MAX,
        just_covers(descs, count),
        just_enough_words(count, size),
        first_room(descs, i, 8 * size),
        descs[i].phys_start % 8 == 0,
        descs[i].phys_start < 0x10_0000_0000_0000,
        descs[i].phys_start + 8 * size <= 8 * mem.words().len(),
        physical_offset + descs[i].phys_start <= u64::MAX,
        physical_offset + descs[i].phys_start + 8 * size <= u64::MAX + 1,
    ensures
        PhysicalMemoryManager::can_init(mem, descs, physical_offset),
{
    lemma_regions_fit(descs);
    lemma_bitmap_region(descs, count, size, i);
}

/// Whether nothing but the `size` words at the address `ptr` differs between two windows.
pub open spec fn differs_only_at<M: LinearMemory>(before: &M, after: &M, ptr: u64, size: int) -> bool {
    &&& after.base() == before.base()
    &&& after.words().len() == before.words().len()
    &&& forall|w: int|
        0 <= w < before.words().len() && !((ptr - before.base()) / 8 <= w < (ptr - before.base())
            / 8 + size) ==> #[trigger] after.words()[w] == before.words()[w]
}

/// Whether the bit of page `page` is set in the bitmap of a manager.
pub open spec fn page_free<M: LinearMemory>(
    pmm: &PhysicalMemoryManager,
    mem: &M,
    page: int,
) -> bool {
    page_bit(mem.words(), mem.base(), pmm.bitmap_ptr, page)
}

/// An allocation takes the page with the lowest index of those whose bit is set. It clears the bit
/// of that page, and changes no other bit. If there is no page, no bit is set, and memory is left
/// as it was.
pub proof fn law_allocate_page<M: LinearMemory>(
    pmm: &PhysicalMemoryManager,
    mem: &mut M,
    page: Option<PageAllocation>,
    size: int,
)
    requires
        call_ensures(PhysicalMemoryManager::allocate_page::<M>, (pmm, mem), page),
        just_enough_words(pmm.page_count as int, size),
    ensures
        differs_only_at(old(mem), final(mem), pmm.bitmap_ptr, size),
        page matches Some(allocation) ==> {
            &&& allocation.physical_offset == pmm.physical_offset
            &&& allocation.index < 64 * size
            &&& page_free(pmm, old(mem), allocation.index as int)
            &&& !page_free(pmm, final(mem), allocation.index as int)
            &&& forall|p: int|
                0 <= p < allocation.index ==> !#[trigger] page_free(pmm, old(mem), p)
            &&& forall|p: int|
                0 <= p < 64 * size && p != allocation.index ==> #[trigger] page_free(
                    pmm,
                    final(mem),
                    p,
                ) == page_free(pmm, old(mem), p)
        },
        page is None ==> {
            &&& forall|p: int| 0 <= p < 64 * size ==> !#[trigger] page_free(pmm, old(mem), p)
            &&& final(mem).words() == old(mem).words()
        },
{
    lemma_ceil(pmm.page_count as int, 64, pmm.word_count());
    lemma_page_free(pmm, old(mem));
    lemma_page_free(pmm, final(mem));
    lemma_outside_bitmap(pmm, old(mem), final(mem), size);
}

/// What changes in the bitmap only changes in its words only.
pub(crate) proof fn lemma_outside_bitmap<M: LinearMemory>(
    pmm: &PhysicalMemoryManager,
    before: &M,
    after: &M,
    size: int,
)
    requires
        size == pmm.word_count(),
        after.base() == before.base(),
        after.words().len() == before.words().len(),
        forall|i: int|
            0 <= i < before.words().len() && !pmm.holds_word(before, i)
                ==> #[trigger] after.words()[i] == before.words()[i],
    ensures
        differs_only_at(before, after, pmm.bitmap_ptr, size),
{
    assert forall|w: int|
        0 <= w < before.words().len() && !((pmm.bitmap_ptr - before.base()) / 8 <= w < (
        pmm.bitmap_ptr - before.base()) / 8 + size) implies #[trigger] after.words()[w]
        == before.words()[w] by {
        assert(!pmm.holds_word(before, w));
    }
}

/// A page is available if and only if its bit is set.
pub(crate) proof fn lemma_page_free<M: LinearMemory>(pmm: &PhysicalMemoryManager, mem: &M)
    ensures
        forall|p: int| #[trigger] pmm.available(mem, p) == page_free(pmm, mem, p),
        forall|p: int| #[trigger] page_free(pmm, mem, p) == pmm.available(mem, p),
{
}

/// Freeing a page sets its bit, and changes nothing else.
pub proof fn law_free_page<M: LinearMemory>(
    pmm: &PhysicalMemoryManager,
    mem: &mut M,
    page_index: u64,
    size: int,
)
    requires
        call_ensures(PhysicalMemoryManager::free_page::<M>, (pmm, mem, page_index), ()),
        just_enough_words(pmm.page_count as int, size),
    ensures
        differs_only_at(old(mem), final(mem), pmm.bitmap_ptr, size),
        page_free(pmm, final(mem), page_index as int),
        forall|p: int|
            0 <= p < 64 * size && p != page_index ==> #[trigger] page_free(pmm, final(mem), p)
                == page_free(pmm, old(mem), p),
{
    lemma_ceil(pmm.page_count as int, 64, pmm.word_count());
    lemma_page_free(pmm, old(mem));
    lemma_page_free(pmm, final(mem));
    lemma_outside_bitmap(pmm, old(mem), final(mem), size);
}

/// A page is available if and only if its bit is set.
pub proof fn law_is_available<M: LinearMemory>(
    pmm: &PhysicalMemoryManager,
    mem: &M,
    page_index: u64,
    r: bool,
)
    requires
        call_ensures(PhysicalMemoryManager::is_available::<M>, (pmm, mem, page_index), r),
    ensures
        r <==> page_bit(mem.words(), mem.base(), pmm.bitmap_ptr, page_index as int),
{
}

/// The bit that is taken is the lowest one that is set, and no other bit changes. A bit is taken
/// from every word but zero.
pub proof fn law_take_lowest_bit(word: u64, taken: Option<(u64, u32)>)
    requires
        call_ensures(take_lowest_bit, (word,), taken),
    ensures
        taken is Some <==> word != 0,
        taken matches Some((rest, position)) ==> {
            &&& position < 64
            &&& (word >> (position as u64)) & 1 == 1
            &&& (rest >> (position as u64)) & 1 == 0
            &&& forall|k: int|
                0 <= k < position ==> (#[trigger] (word >> (k as u64))) & 1 == 0
            &&& forall|k: int|
                0 <= k < 64 && k != position ==> (#[trigger] (rest >> (k as u64))) & 1 == (word
                    >> (k as u64)) & 1
        },
{
    if let Some((rest, position)) = taken {
        lemma_two_values(word, position as int);
        lemma_two_values(rest, position as int);
        assert(bit(rest, position as int) == (bit(word, position as int) && position != position));
        assert forall|k: int| 0 <= k < position implies (#[trigger] (word >> (k as u64))) & 1
            == 0 by {
            assert(!bit(word, k));
            lemma_two_values(word, k);
        }
        assert forall|k: int| 0 <= k < 64 && k != position implies (#[trigger] (rest >> (
        k as u64))) & 1 == (word >> (k as u64)) & 1 by {
            assert(bit(rest, k) == (bit(word, k) && k != position));
            lemma_two_values(word, k);
            lemma_two_values(rest, k);
        }
    }
}

proof fn lemma_two_values(word: u64, k: int)
    ensures
        (word >> (k as u64)) & 1 == 0 || (word >> (k as u64)) & 1 == 1,
{
    let rest = word >> (k as u64);
    assert(rest & 1 == 0 || rest & 1 == 1) by (bit_vector);
}

/// Page 0 starts at the first byte of physical memory, and each page has 4096 bytes.
pub proof fn law_frame(page: &PageAllocation, start: u64)
    requires
        call_ensures(PageAllocation::frame, (page,), start),
    ensures
        start == page.index * 4096,
{
}

/// A page is mapped as far from the start of the window as it is from the start of physical
/// memory.
pub proof fn law_as_ptr(page: &PageAllocation, start: u64, addr: u64)
    requires
        call_ensures(PageAllocation::frame, (page,), start),
        call_ensures(PageAllocation::as_ptr, (page,), addr),
    ensures
        addr - page.physical_offset == start,
        addr - page.physical_offset == page.index * 4096,
{
}

/// Whether an operation leaves memory as it was: it reads, or it is an exchange that did not find
/// what it looked for.
pub open spec fn only_looks(op: MemOp) -> bool {
    op is Load || (op matches MemOp::Exchange { current, found, .. } && found != current)
}

/// Whether one of the operations from position `from` on has found the word at position `w` to be
/// zero.
pub open spec fn saw_zero(ops: Seq<MemOp>, from: int, w: int) -> bool {
    exists|i: int|
        from <= i < ops.len() && match #[trigger] ops[i] {
            MemOp::Load { index, found } => index == w && found == 0,
            MemOp::Exchange { index, found, .. } => index == w && found == 0,
            MemOp::SetBits { index, found, .. } => index == w && found == 0,
        }
}

/// An allocation that others run beside does operations that only look at memory, and then, if it
/// gives a page, one exchange that succeeds: it replaces the word that holds the bit of the page,
/// the lowest bit set there, by the word without that bit. Each word before it was found to be
/// zero. If there is no page, then each word of the bitmap was found to be zero.
pub proof fn law_allocate_shared_page<S: SharedMemory>(
    pmm: &PhysicalMemoryManager,
    mem: &mut S,
    page: Option<PageAllocation>,
    size: int,
)
    requires
        call_ensures(PhysicalMemoryManager::allocate_shared_page::<S>, (pmm, mem), page),
        just_enough_words(pmm.page_count as int, size),
    ensures
        ({
            let before = old(mem).seen().record;
            let after = final(mem).seen().record;
            let first = (pmm.bitmap_ptr - old(mem).seen().base) / 8;
            &&& before.len() <= after.len()
            &&& forall|i: int| 0 <= i < before.len() ==> #[trigger] after[i] == before[i]
            &&& match page {
                Some(allocation) => {
                    &&& allocation.physical_offset == pmm.physical_offset
                    &&& allocation.index < 64 * size
                    &&& before.len() < after.len()
                    &&& forall|i: int|
                        before.len() <= i < after.len() - 1 ==> only_looks(#[trigger] after[i])
                    &&& after.last() matches MemOp::Exchange { index, current, new, found } && {
                        &&& index == first + allocation.index as int / 64
                        &&& found == current
                        &&& forall|k: int|
                            0 <= k < 64 ==> (#[trigger] (new >> (k as u64))) & 1 == if k
                                <= allocation.index % 64 {
                                0
                            } else {
                                (current >> (k as u64)) & 1
                            }
                        &&& forall|k: int|
                            0 <= k <= allocation.index % 64 ==> (#[trigger] (current >> (
                            k as u64))) & 1 == if k == allocation.index % 64 {
                                1u64
                            } else {
                                0
                            }
                    }
                    &&& forall|w: int|
                        first <= w < first + allocation.index as int / 64 ==> #[trigger] saw_zero(
                            after,
                            before.len() as int,
                            w,
                        )
                },
                None => {
                    &&& forall|i: int|
                        before.len() <= i < after.len() ==> only_looks(#[trigger] after[i])
                    &&& forall|w: int|
                        first <= w < first + size ==> #[trigger] saw_zero(
                            after,
                            before.len() as int,
                            w,
                        )
                },
            }
        }),
{
    lemma_ceil(pmm.page_count as int, 64, pmm.word_count());
    let before = old(mem).seen().record;
    let after = final(mem).seen().record;
    let ops = after.skip(before.len() as int);
    let first = (pmm.bitmap_ptr - old(mem).seen().base) / 8;
    assert forall|i: int| 0 <= i < before.len() implies #[trigger] after[i] == before[i] by {
        assert(after.take(before.len() as int)[i] == after[i]);
    }
    assert forall|i: int| before.len() <= i < after.len() && ops[i - before.len()].quiet() implies
        only_looks(#[trigger] after[i]) by {
        assert(ops[i - before.len()] == after[i]);
    }
    assert forall|w: int| finds_zero(ops, w) implies #[trigger] saw_zero(
        after,
        before.len() as int,
        w,
    ) by {
        let i = choose|i: int|
            0 <= i < ops.len() && (#[trigger] ops[i]).index() == w && ops[i].found() == 0;
        assert(ops[i] == after[i + before.len()]);
    }
    if let Some(allocation) = page {
        let p = allocation.index as int;
        assert(op_takes(ops.last(), first, p));
        assert(ops.last() == after.last());
        if let MemOp::Exchange { index, current, new, found } = after.last() {
            assert forall|k: int| 0 <= k < 64 implies (#[trigger] (new >> (k as u64))) & 1 == if k
                <= p % 64 {
                0
            } else {
                (current >> (k as u64)) & 1
            } by {
                assert(bit(new, k) == (bit(current, k) && k != p % 64));
                if k < p % 64 {
                    assert(!bit(current, k));
                }
                lemma_two_values(new, k);
                lemma_two_values(current, k);
            }
            assert forall|k: int| 0 <= k <= p % 64 implies (#[trigger] (current >> (k as u64))) & 1
                == if k == p % 64 {
                1u64
            } else {
                0
            } by {
                if k < p % 64 {
                    assert(!bit(current, k));
                }
                lemma_two_values(current, k);
            }
        }
    }
}

/// Freeing a page that others use memory beside is one operation, which sets one bit: that of the
/// page.
pub proof fn law_free_shared_page<S: SharedMemory>(
    pmm: &PhysicalMemoryManager,
    mem: &mut S,
    page_index: u64,
)
    requires
        call_ensures(PhysicalMemoryManager::free_shared_page::<S>, (pmm, mem, page_index), ()),
    ensures
        ({
            let before = old(mem).seen().record;
            let after = final(mem).seen().record;
            &&& after.len() == before.len() + 1
            &&& forall|i: int| 0 <= i < before.len() ==> #[trigger] after[i] == before[i]
            &&& after.last() matches MemOp::SetBits { index, mask, .. } && {
                &&& index == (pmm.bitmap_ptr - old(mem).seen().base) / 8 + page_index as int / 64
                &&& mask == 1u64 << ((page_index % 64) as u64)
            }
        }),
{
    let before = old(mem).seen().record;
    let after = final(mem).seen().record;
    assert forall|i: int| 0 <= i < before.len() implies #[trigger] after[i] == before[i] by {
        assert(after.drop_last()[i] == after[i]);
    }
}

} // verus!
