//! Physical memory allocator. Allocates pages of physical memory.

use core::ops::Range;

use vstd::prelude::*;

use crate::addr::{canonical, frame_from_start_address, phys_new, physical, virt_add};
use crate::bits::{
    bit, lemma_bit_clear, lemma_bit_mask, lemma_bit_set, lemma_bit_zero, lemma_lowest_bit,
};
use crate::memory::{word_index, LinearMemory, MemLog, MemOp, SharedMemory, Words};
use crate::memory_map::{MemoryDescriptor, MemoryMap, MemoryType, FIRMWARE_PAGE_SIZE};
use crate::text::{append_decimal, append_hexadecimal, decimal, hexadecimal};
use crate::PAGE_SIZE;

verus! {

/// `n / d`, rounded up.
pub open spec fn ceil_div(n: int, d: int) -> int {
    (n + d - 1) / d
}

/// `n / d`, rounded up.
pub fn div_ceil(n: u64, d: u64) -> (q: u64)
    requires
        d > 0,
    ensures
        q == ceil_div(n as int, d as int),
{
    let q: u64 = n / d;
    let r: u64 = n % d;
    proof {
        vstd::arithmetic::div_mod::lemma_fundamental_div_mod(n as int, d as int);
        if r == 0 {
            vstd::arithmetic::div_mod::lemma_fundamental_div_mod_converse(
                n + d - 1,
                d as int,
                q as int,
                d - 1,
            );
        } else {
            assert(d * (q + 1) == d * q + d) by (nonlinear_arith);
            vstd::arithmetic::div_mod::lemma_fundamental_div_mod_converse(
                n + d - 1,
                d as int,
                q + 1,
                r - 1,
            );
            assert(q < n) by (nonlinear_arith)
                requires
                    n == d * q + r,
                    r > 0,
                    r < d,
                    q >= 0,
            ;
        }
    }
    if r == 0 {
        q
    } else {
        q + 1
    }
}

/// Whether memory of this type is free for the kernel to use. The boot services have been left
/// by the time the kernel runs.
pub open spec fn usable(ty: MemoryType) -> bool {
    ty == MemoryType::Conventional || ty == MemoryType::BootServicesCode || ty
        == MemoryType::BootServicesData
}

/// Whether memory of this type is free for the kernel to use.
pub fn is_usable(ty: MemoryType) -> (r: bool)
    ensures
        r == usable(ty),
{
    ty == MemoryType::Conventional || ty == MemoryType::BootServicesCode || ty
        == MemoryType::BootServicesData
}

/// The first physical address after all of the usable regions, or 0 if there are none.
pub open spec fn addr_limit(descs: Seq<MemoryDescriptor>) -> int
    decreases descs.len(),
{
    if descs.len() == 0 {
        0
    } else {
        let before = addr_limit(descs.drop_last());
        if usable(descs.last().ty) && descs.last().phys_end() > before {
            descs.last().phys_end()
        } else {
            before
        }
    }
}

/// The number of pages that it takes to cover all of the usable regions.
pub open spec fn page_limit(descs: Seq<MemoryDescriptor>) -> int {
    ceil_div(addr_limit(descs), PAGE_SIZE as int)
}

/// The number of words in a bitmap for `pages` pages.
pub open spec fn bitmap_words(pages: int) -> int {
    ceil_div(pages, 64)
}

/// The first of the usable regions that has room for `bytes` bytes.
pub open spec fn first_fit(descs: Seq<MemoryDescriptor>, bytes: int) -> Option<MemoryDescriptor>
    decreases descs.len(),
{
    if descs.len() == 0 {
        None
    } else {
        match first_fit(descs.drop_last(), bytes) {
            Some(desc) => Some(desc),
            None => if usable(descs.last().ty) && descs.last().byte_count() >= bytes {
                Some(descs.last())
            } else {
                None
            },
        }
    }
}

/// The region that the bitmap is put in.
pub open spec fn bitmap_region(descs: Seq<MemoryDescriptor>) -> Option<MemoryDescriptor> {
    first_fit(descs, 8 * bitmap_words(page_limit(descs)))
}

/// Whether page `page` lies in one of the usable regions, as a whole.
pub open spec fn usable_page(descs: Seq<MemoryDescriptor>, page: int) -> bool {
    exists|i: int|
        0 <= i < descs.len() && #[trigger] usable(descs[i].ty) && page_inside(descs[i], page)
}

/// Whether page `page` lies in the region, as a whole.
pub open spec fn page_inside(desc: MemoryDescriptor, page: int) -> bool {
    desc.phys_start <= page * PAGE_SIZE && (page + 1) * PAGE_SIZE <= desc.phys_end()
}

/// Whether page `page` overlaps the `bytes` bytes at `start`, or holds `start`.
pub open spec fn page_touched(start: int, bytes: int, page: int) -> bool {
    start / (PAGE_SIZE as int) <= page < ceil_div(start + bytes, PAGE_SIZE as int)
}

/// Whether the bit of page `page` is set in the bitmap that starts at word `first`.
pub open spec fn bitmap_bit(words: Seq<u64>, first: int, page: int) -> bool {
    bit(words[first + page / 64], page % 64)
}

/// Replacing the word that holds the bit of `page` changes the bits of that word only.
proof fn lemma_word_update(words: Seq<u64>, first: int, page: int, word: u64)
    requires
        0 <= page,
        0 <= first,
        first + page / 64 < words.len(),
    ensures
        forall|p: int|
            0 <= p && first + p / 64 < words.len() ==> #[trigger] bitmap_bit(
                words.update(first + page / 64, word),
                first,
                p,
            ) == if p / 64 == page / 64 {
                bit(word, p % 64)
            } else {
                bitmap_bit(words, first, p)
            },
{
}

/// Every usable region ends at an address that fits in 64 bits.
pub open spec fn regions_fit(descs: Seq<MemoryDescriptor>) -> bool {
    forall|i: int|
        0 <= i < descs.len() && #[trigger] usable(descs[i].ty) ==> descs[i].phys_end() <= u64::MAX
}

/// The address limit is at least 0, and the end of a usable region is never above it.
pub(crate) proof fn lemma_addr_limit(descs: Seq<MemoryDescriptor>)
    requires
        regions_fit(descs),
    ensures
        0 <= addr_limit(descs) <= u64::MAX,
        forall|i: int|
            0 <= i < descs.len() && #[trigger] usable(descs[i].ty) ==> descs[i].phys_end()
                <= addr_limit(descs),
    decreases descs.len(),
{
    if descs.len() > 0 {
        let before = descs.drop_last();
        assert forall|i: int| 0 <= i < before.len() && #[trigger] usable(before[i].ty) implies
            before[i].phys_end() <= u64::MAX by {
            assert(usable(descs[i].ty));
        }
        lemma_addr_limit(before);
        assert(usable(descs.last().ty) ==> usable(descs[descs.len() - 1].ty));
        assert forall|i: int| 0 <= i < descs.len() && #[trigger] usable(descs[i].ty) implies
            descs[i].phys_end() <= addr_limit(descs) by {
            if i < before.len() {
                assert(usable(before[i].ty));
            }
        }
    }
}

/// The region that was found is one of the usable regions, and has the room.
proof fn lemma_first_fit(descs: Seq<MemoryDescriptor>, bytes: int)
    ensures
        first_fit(descs, bytes) matches Some(desc) ==> {
            &&& usable(desc.ty)
            &&& desc.byte_count() >= bytes
            &&& exists|i: int| 0 <= i < descs.len() && #[trigger] descs[i] == desc
        },
    decreases descs.len(),
{
    if descs.len() > 0 {
        let before = descs.drop_last();
        lemma_first_fit(before, bytes);
        match first_fit(before, bytes) {
            Some(desc) => {
                let i = choose|i: int| 0 <= i < before.len() && #[trigger] before[i] == desc;
                assert(descs[i] == desc);
            },
            None => {
                assert(descs[descs.len() - 1] == descs.last());
            },
        }
    }
}

/// The number of pages that it takes to cover all of the usable regions of a memory map.
pub fn physical_page_count<E: MemoryMap>(memory_map: &E) -> (count: u64)
    requires
        regions_fit(memory_map.descriptors()),
    ensures
        count == page_limit(memory_map.descriptors()),
{
    let ghost descs = memory_map.descriptors();
    let mut limit: u64 = 0;
    let mut i: usize = 0;
    let n: usize = memory_map.entry_count();
    while i < n
        invariant
            descs == memory_map.descriptors(),
            regions_fit(descs),
            n == descs.len(),
            i <= n,
            limit == addr_limit(descs.take(i as int)),
        decreases n - i,
    {
        let desc = memory_map.entry(i);
        proof {
            assert(descs.take(i + 1).drop_last() =~= descs.take(i as int));
            assert(descs.take(i + 1).last() == desc);
            assert(usable(descs[i as int].ty) ==> desc.phys_end() <= u64::MAX);
        }
        if is_usable(desc.ty) {
            let phys_end: u64 = desc.phys_start + desc.page_count * FIRMWARE_PAGE_SIZE;
            if phys_end > limit {
                limit = phys_end;
            }
        }
        i = i + 1;
    }
    assert(descs.take(n as int) =~= descs);
    div_ceil(limit, PAGE_SIZE)
}

/// The first usable region of a memory map that has room for `bytes` bytes. This doesn't merge
/// adjacent regions.
pub fn find_region<E: MemoryMap>(memory_map: &E, bytes: u64) -> (region: Option<MemoryDescriptor>)
    requires
        regions_fit(memory_map.descriptors()),
    ensures
        region == first_fit(memory_map.descriptors(), bytes as int),
{
    let ghost descs = memory_map.descriptors();
    let mut i: usize = 0;
    let n: usize = memory_map.entry_count();
    while i < n
        invariant
            descs == memory_map.descriptors(),
            regions_fit(descs),
            n == descs.len(),
            i <= n,
            first_fit(descs.take(i as int), bytes as int) is None,
        decreases n - i,
    {
        let desc = memory_map.entry(i);
        proof {
            assert(descs.take(i + 1).drop_last() =~= descs.take(i as int));
            assert(descs.take(i + 1).last() == desc);
            assert(usable(descs[i as int].ty) ==> desc.phys_end() <= u64::MAX);
        }
        if is_usable(desc.ty) && desc.page_count * FIRMWARE_PAGE_SIZE >= bytes {
            proof {
                lemma_first_fit_prefix(descs, bytes as int, i + 1);
            }
            return Some(desc);
        }
        i = i + 1;
    }
    assert(descs.take(n as int) =~= descs);
    None
}

/// A region that is found in the first descriptors is found in all of them.
proof fn lemma_first_fit_prefix(descs: Seq<MemoryDescriptor>, bytes: int, n: int)
    requires
        0 <= n <= descs.len(),
        first_fit(descs.take(n), bytes) is Some,
    ensures
        first_fit(descs, bytes) == first_fit(descs.take(n), bytes),
    decreases descs.len(),
{
    if n == descs.len() {
        assert(descs.take(n) =~= descs);
    } else {
        assert(descs.drop_last().take(n) =~= descs.take(n));
        lemma_first_fit_prefix(descs.drop_last(), bytes, n);
    }
}

/// Whether every usable region ends at an address that fits in 64 bits.
pub fn all_regions_fit<E: MemoryMap>(memory_map: &E) -> (r: bool)
    ensures
        r == regions_fit(memory_map.descriptors()),
{
    let ghost descs = memory_map.descriptors();
    let mut i: usize = 0;
    let n: usize = memory_map.entry_count();
    while i < n
        invariant
            descs == memory_map.descriptors(),
            n == descs.len(),
            i <= n,
            forall|k: int|
                0 <= k < i && #[trigger] usable(descs[k].ty) ==> descs[k].phys_end() <= u64::MAX,
        decreases n - i,
    {
        let desc = memory_map.entry(i);
        if is_usable(desc.ty) && desc.page_count > (u64::MAX - desc.phys_start)
            / FIRMWARE_PAGE_SIZE {
            assert(usable(descs[i as int].ty) && descs[i as int].phys_end() > u64::MAX);
            return false;
        }
        i = i + 1;
    }
    true
}

/// Whether there is a place for the bitmap of the physical memory that `descs` describes, in a
/// window of `words` words that is mapped at `physical_offset`.
pub open spec fn bitmap_fits(
    descs: Seq<MemoryDescriptor>,
    physical_offset: u64,
    words: int,
) -> bool {
    &&& regions_fit(descs)
    &&& bitmap_region(descs) matches Some(region) && {
        &&& physical(region.phys_start as int)
        &&& region.phys_start % 8 == 0
        &&& region.phys_start + 8 * bitmap_words(page_limit(descs)) <= 8 * words
        &&& physical_offset + region.phys_start <= u64::MAX
        &&& physical_offset + region.phys_start + 8 * bitmap_words(page_limit(descs)) <= u64::MAX
            + 1
    }
}

/// Whether there is a place for the bitmap of the physical memory that a memory map describes,
/// in a window of `words` words that is mapped at `physical_offset`.
pub fn has_room_for_bitmap<E: MemoryMap>(memory_map: &E, physical_offset: u64, words: u64) -> (r:
    bool)
    ensures
        r == bitmap_fits(memory_map.descriptors(), physical_offset, words as int),
{
    let ghost descs = memory_map.descriptors();
    if !all_regions_fit(memory_map) {
        return false;
    }
    proof {
        lemma_addr_limit(descs);
        lemma_first_fit(descs, 8 * bitmap_words(page_limit(descs)));
    }
    let size_bytes: u64 = div_ceil(physical_page_count(memory_map), 64) * 8;
    match find_region(memory_map, size_bytes) {
        None => false,
        Some(region) => {
            let start: u64 = region.phys_start;
            start < 0x10_0000_0000_0000 && start % 8 == 0 && (start + size_bytes) / 8 <= words
                && start <= u64::MAX - physical_offset && (size_bytes == 0 || size_bytes - 1
                <= u64::MAX - (physical_offset + start))
        },
    }
}

/// Writes zero to `count` words from `addr` on.
fn zero_words<M: LinearMemory>(mem: &mut M, addr: u64, count: u64)
    requires
        old(mem).base() <= addr,
        (addr - old(mem).base()) % 8 == 0,
        word_index(old(mem).base(), addr as int) + count <= old(mem).words().len(),
        addr + 8 * count <= u64::MAX + 1,
    ensures
        final(mem).base() == old(mem).base(),
        final(mem).words().len() == old(mem).words().len(),
        forall|i: int|
            0 <= i < old(mem).words().len() ==> #[trigger] final(mem).words()[i] == if word_index(
                old(mem).base(),
                addr as int,
            ) <= i < word_index(old(mem).base(), addr as int) + count {
                0
            } else {
                old(mem).words()[i]
            },
{
    let ghost first = word_index(old(mem).base(), addr as int);
    let mut k: u64 = 0;
    while k < count
        invariant
            k <= count,
            mem.base() == old(mem).base(),
            mem.words().len() == old(mem).words().len(),
            mem.base() <= addr,
            (addr - mem.base()) % 8 == 0,
            first == word_index(mem.base(), addr as int),
            first + count <= mem.words().len(),
            addr + 8 * count <= u64::MAX + 1,
            forall|i: int|
                0 <= i < old(mem).words().len() ==> #[trigger] mem.words()[i] == if first <= i
                    < first + k {
                    0
                } else {
                    old(mem).words()[i]
                },
        decreases count - k,
    {
        mem.write(addr + 8 * k, 0);
        k = k + 1;
    }
}

/// The pages that lie in a region as a whole are those from its start, rounded up, to its end,
/// rounded down.
proof fn lemma_page_inside(desc: MemoryDescriptor, page: int)
    ensures
        page_inside(desc, page) == (ceil_div(desc.phys_start as int, PAGE_SIZE as int) <= page
            < desc.phys_end() / (PAGE_SIZE as int)),
{
}

/// The usable pages of one more descriptor.
proof fn lemma_usable_page_step(descs: Seq<MemoryDescriptor>, n: int)
    requires
        0 <= n < descs.len(),
    ensures
        forall|p: int| #[trigger]
            usable_page(descs.take(n + 1), p) == (usable_page(descs.take(n), p) || (usable(
                descs[n].ty,
            ) && page_inside(descs[n], p))),
{
    let shorter = descs.take(n);
    let longer = descs.take(n + 1);
    assert forall|p: int| #[trigger]
        usable_page(longer, p) == (usable_page(shorter, p) || (usable(descs[n].ty) && page_inside(
            descs[n],
            p,
        ))) by {
        if usable_page(shorter, p) {
            let i = choose|i: int|
                0 <= i < shorter.len() && #[trigger] usable(shorter[i].ty) && page_inside(
                    shorter[i],
                    p,
                );
            assert(usable(longer[i].ty) && page_inside(longer[i], p));
        }
        if usable(descs[n].ty) && page_inside(descs[n], p) {
            assert(usable(longer[n].ty) && page_inside(longer[n], p));
        }
        if usable_page(longer, p) {
            let i = choose|i: int|
                0 <= i < longer.len() && #[trigger] usable(longer[i].ty) && page_inside(
                    longer[i],
                    p,
                );
            if i < n {
                assert(usable(shorter[i].ty) && page_inside(shorter[i], p));
            }
        }
    }
}

/// Whether `position` is the position of the lowest set bit of `word`, and `rest` is the word
/// without that bit.
pub open spec fn without_lowest(word: u64, rest: u64, position: int) -> bool {
    &&& 0 <= position < 64
    &&& bit(word, position)
    &&& forall|k: int| 0 <= k < position ==> !#[trigger] bit(word, k)
    &&& forall|k: int| 0 <= k < 64 ==> #[trigger] bit(rest, k) == (bit(word, k) && k != position)
}

/// Takes the lowest set bit out of a word: gives back the word without that bit, and the bit's
/// position.
pub fn take_lowest_bit(word: u64) -> (taken: Option<(u64, u32)>)
    ensures
        taken is None <==> word == 0,
        taken matches Some((rest, position)) ==> without_lowest(word, rest, position as int),
{
    if word == 0 {
        return None;
    }
    let position: u32 = word.trailing_zeros();
    proof {
        lemma_lowest_bit(word);
    }
    let rest: u64 = word & !(1u64 << (position as u64));
    proof {
        assert forall|k: int| 0 <= k < 64 implies #[trigger] bit(rest, k) == (bit(word, k) && k
            != position) by {
            lemma_bit_clear(word, position as int, k);
        }
    }
    Some((rest, position))
}

/// Whether an operation takes page `page` out of the available ones, in a bitmap that starts at
/// word `first`: it exchanges the word that holds the bit of the page for the same word without
/// that bit, which is its lowest set bit.
pub open spec fn op_takes(op: MemOp, first: int, page: int) -> bool {
    op matches MemOp::Exchange { index, current, new, found } && {
        &&& found == current
        &&& index == first + page / 64
        &&& without_lowest(current, new, page % 64)
    }
}

/// Whether an operation makes page `page` available: it sets the bit of the page.
pub open spec fn op_frees(op: MemOp, first: int, page: int) -> bool {
    op matches MemOp::SetBits { index, mask, .. } && {
        &&& index == first + page / 64
        &&& mask == 1u64 << ((page % 64) as u64)
    }
}

/// Whether one of the operations has found the word at position `index` to be zero.
pub open spec fn finds_zero(ops: MemLog, index: int) -> bool {
    exists|i: int|
        0 <= i < ops.len() && (#[trigger] ops[i]).index() == index && ops[i].found() == 0
}

/// Whether `ops` are the operations of a call that allocates a page, and returns `page`, in a
/// bitmap of `count` words from position `first` on. The last operation takes the page, and the
/// others change nothing. Each word before the one of the page has been found to be zero. If
/// there is no page, no operation changes anything, and each word of the bitmap has been found
/// to be zero.
pub open spec fn page_call(ops: MemLog, first: int, count: int, page: Option<u64>) -> bool {
    match page {
        Some(index) => {
            &&& ops.len() > 0
            &&& index as int / 64 < count
            &&& op_takes(ops.last(), first, index as int)
            &&& forall|i: int| 0 <= i < ops.len() - 1 ==> (#[trigger] ops[i]).quiet()
            &&& forall|w: int|
                first <= w < first + index as int / 64 ==> #[trigger] finds_zero(ops, w)
        },
        None => {
            &&& forall|i: int| 0 <= i < ops.len() ==> (#[trigger] ops[i]).quiet()
            &&& forall|w: int| first <= w < first + count ==> #[trigger] finds_zero(ops, w)
        },
    }
}

/// Whether `ops` are the operations of a call that frees page `page`: there is one, which sets the
/// bit of the page.
pub open spec fn free_call(ops: MemLog, first: int, page: int) -> bool {
    ops.len() == 1 && op_frees(ops[0], first, page)
}

/// Whether each of the operations has found what a window holds that holds `words`.
pub open spec fn finds(words: Words, ops: MemLog) -> bool {
    forall|i: int|
        0 <= i < ops.len() ==> (#[trigger] ops[i]).found() == words[ops[i].index()]
}

/// What has been found to be zero stays so found.
proof fn lemma_finds_zero(ops: MemLog, op: MemOp, first: int, end: int)
    requires
        forall|w: int| first <= w < end ==> #[trigger] finds_zero(ops, w),
    ensures
        forall|w: int| first <= w < end ==> #[trigger] finds_zero(ops.push(op), w),
{
    assert forall|w: int| first <= w < end implies #[trigger] finds_zero(ops.push(op), w) by {
        assert(finds_zero(ops, w));
        let i = choose|i: int|
            0 <= i < ops.len() && (#[trigger] ops[i]).index() == w && ops[i].found() == 0;
        assert(ops.push(op)[i] == ops[i]);
    }
}

/// Whether `region` is a run of free pages, among `count` pages, that cannot be extended.
pub open spec fn is_run(region: Range<u64>, free: spec_fn(int) -> bool, count: int) -> bool {
    &&& region.start < region.end <= count
    &&& forall|p: int| region.start <= p < region.end ==> #[trigger] free(p)
    &&& region.start == 0 || !free(region.start - 1)
    &&& region.end == count || !free(region.end as int)
}

/// Whether `regions` are all the runs of free pages among `count` pages, in ascending order.
pub open spec fn are_runs(
    regions: Seq<Range<u64>>,
    free: spec_fn(int) -> bool,
    count: int,
) -> bool {
    &&& forall|i: int| 0 <= i < regions.len() ==> is_run(#[trigger] regions[i], free, count)
    &&& forall|i: int, j: int|
        0 <= i < j < regions.len() ==> (#[trigger] regions[i]).end < (#[trigger] regions[j]).start
    &&& forall|p: int| 0 <= p < count && #[trigger] free(p) ==> in_regions(regions, p)
}

/// Whether page `page` lies in one of the regions.
pub open spec fn in_regions(regions: Seq<Range<u64>>, page: int) -> bool {
    exists|i: int| 0 <= i < regions.len() && (#[trigger] regions[i]).start <= page < regions[i].end
}

/// One line for each region: its physical addresses, and the number of its pages.
pub open spec fn regions_text(regions: Seq<Range<u64>>) -> Seq<char>
    decreases regions.len(),
{
    if regions.len() == 0 {
        "Available Memory Regions:\n"@
    } else {
        let region = regions.last();
        regions_text(regions.drop_last()) + hexadecimal(region.start * PAGE_SIZE) + ".."@
            + hexadecimal(region.end * PAGE_SIZE) + ": "@ + decimal(region.end - region.start)
            + " pages\n"@
    }
}

/// The line that tells how many pages there are, and how large a bitmap for them is.
pub open spec fn page_count_text(pages: int) -> Seq<char> {
    let bytes = 8 * bitmap_words(pages);
    "Physical page count: "@ + decimal(pages) + ", Bitmap size: "@ + decimal(bytes)
        + " bytes in "@ + decimal(ceil_div(bytes, PAGE_SIZE as int)) + " pages\n"@
}

/// Tells how many pages there are, and how large a bitmap for them is.
pub fn page_count_line(page_count: u64) -> (text: String)
    ensures
        text@ == page_count_text(page_count as int),
{
    let bitmap_size_words: u64 = div_ceil(page_count, 64);
    let bitmap_size_bytes: u64 = bitmap_size_words * 8;
    let mut text: String = String::new();
    text.append("Physical page count: ");
    append_decimal(&mut text, page_count);
    text.append(", Bitmap size: ");
    append_decimal(&mut text, bitmap_size_bytes);
    text.append(" bytes in ");
    append_decimal(&mut text, div_ceil(bitmap_size_bytes, PAGE_SIZE));
    text.append(" pages\n");
    assert(text@ =~= page_count_text(page_count as int));
    text
}

/// A page of physical memory that has been handed out.
#[derive(Debug, PartialEq, Eq, Structural)]
pub struct PageAllocation {
    /// The index of the page in physical memory.
    pub index: u64,
    /// The offset into virtual memory where the whole of physical memory is mapped
    pub physical_offset: u64,
}

impl PageAllocation {
    /// Whether the page exists, and is mapped at an address that a pointer can hold.
    pub open spec fn mapped(&self) -> bool {
        &&& physical(self.index * PAGE_SIZE)
        &&& canonical(self.physical_offset as int)
        &&& canonical(self.physical_offset + self.index * PAGE_SIZE)
        &&& self.physical_offset + self.index * PAGE_SIZE != 0
    }

    fn new(index: u64, physical_offset: u64) -> (page: Self)
        ensures
            page.index == index,
            page.physical_offset == physical_offset,
    {
        Self { index, physical_offset }
    }

    /// The physical address of the page.
    pub fn frame(&self) -> (start: u64)
        requires
            physical(self.index * PAGE_SIZE),
        ensures
            start == self.index * PAGE_SIZE,
    {
        frame_from_start_address(phys_new(self.index * PAGE_SIZE)).unwrap()
    }

    /// The virtual address of the page.
    pub fn as_ptr(&self) -> (addr: u64)
        requires
            self.mapped(),
        ensures
            addr == self.physical_offset + self.index * PAGE_SIZE,
            addr != 0,
    {
        virt_add(self.physical_offset, self.frame())
    }
}

/// The index of the page that was handed out, if there is one.
pub open spec fn index_of(page: Option<PageAllocation>) -> Option<u64> {
    match page {
        Some(allocation) => Some(allocation.index),
        None => None,
    }
}

/// An allocator for pages of physical memory. It uses a bitmap to store which
/// pages are allocated, where 1 in the bitmap means free. The bitmap is
/// operated on in 64-bit words, where the least significant bit denotes the
/// availability of the lowest-index page in that range.
///
/// The bitmap lies in the memory that it describes, so each operation takes that memory.
pub struct PhysicalMemoryManager {
    /// The location of the bitmap in virtual memory
    pub bitmap_ptr: u64,
    /// The offset into virtual memory where the whole of physical memory is mapped
    pub physical_offset: u64,
    /// The number of physical pages managed by this bitmap. Note this is _not_
    /// the number of pages the bitmap takes up in memory.
    pub page_count: u64,
}

impl PhysicalMemoryManager {
    /// The number of words in the bitmap.
    pub open spec fn word_count(&self) -> int {
        bitmap_words(self.page_count as int)
    }

    /// The number of bits in the bitmap. The last word can hold more bits than there are pages.
    pub open spec fn bit_count(&self) -> int {
        64 * self.word_count()
    }

    /// The position of the first word of the bitmap in memory.
    pub open spec fn first_word<M: LinearMemory>(&self, mem: &M) -> int {
        word_index(mem.base(), self.bitmap_ptr as int)
    }

    /// Whether the bitmap lies in `mem`.
    pub open spec fn wf<M: LinearMemory>(&self, mem: &M) -> bool {
        self.lies_in(mem.base(), mem.words().len())
    }

    /// Whether the bitmap lies in a window of `len` words that is mapped at `base`.
    pub open spec fn lies_in(&self, base: u64, len: nat) -> bool {
        &&& self.page_count <= 0x10_0000_0000_0000
        &&& base <= self.bitmap_ptr
        &&& (self.bitmap_ptr - base) % 8 == 0
        &&& word_index(base, self.bitmap_ptr as int) + self.word_count() <= len
        &&& self.bitmap_ptr + 8 * self.word_count() <= u64::MAX + 1
    }

    /// Whether page `page` can be allocated.
    pub open spec fn available<M: LinearMemory>(&self, mem: &M, page: int) -> bool {
        bitmap_bit(mem.words(), self.first_word(mem), page)
    }

    /// Whether page `page` becomes available, and nothing else changes in the bitmap.
    pub open spec fn frees<M: LinearMemory>(&self, mem: &M, page: int, after: &M) -> bool {
        &&& 0 <= page < self.bit_count()
        &&& forall|p: int|
            0 <= p < self.bit_count() ==> #[trigger] self.available(after, p) == (self.available(
                mem,
                p,
            ) || p == page)
    }

    /// Whether page `page`, which was available, is allocated, and nothing else changes in the
    /// bitmap.
    pub open spec fn takes<M: LinearMemory>(&self, mem: &M, page: int, after: &M) -> bool {
        &&& 0 <= page < self.bit_count()
        &&& self.available(mem, page)
        &&& forall|p: int|
            0 <= p < self.bit_count() ==> #[trigger] self.available(after, p) == (self.available(
                mem,
                p,
            ) && p != page)
    }

    /// What allocating a page does. The page is the available one with the lowest index. If no
    /// page is available, there is none, and nothing changes.
    pub open spec fn allocates_page<M: LinearMemory>(
        &self,
        mem: &M,
        page: Option<u64>,
        after: &M,
    ) -> bool {
        match page {
            Some(index) => {
                &&& self.takes(mem, index as int, after)
                &&& forall|p: int| 0 <= p < index ==> !#[trigger] self.available(mem, p)
            },
            None => {
                &&& forall|p: int|
                    0 <= p < self.bit_count() ==> !#[trigger] self.available(mem, p)
                &&& after.words() == mem.words()
            },
        }
    }

    /// Whether the word at position `index` of memory belongs to the bitmap.
    pub open spec fn holds_word<M: LinearMemory>(&self, mem: &M, index: int) -> bool {
        self.first_word(mem) <= index < self.first_word(mem) + self.word_count()
    }

    /// Whether a manager can be set up for the physical memory that `descs` describes: there is
    /// a place for the bitmap, and `mem` covers it.
    pub open spec fn can_init<M: LinearMemory>(
        mem: &M,
        descs: Seq<MemoryDescriptor>,
        physical_offset: u64,
    ) -> bool {
        &&& mem.base() == physical_offset
        &&& bitmap_fits(descs, physical_offset, mem.words().len() as int)
    }

    /// Sets the manager up: puts a bitmap into the first usable region that has room for it,
    /// and makes all of the usable pages available, but for those that the bitmap is in.
    #[verifier::rlimit(40)]
    pub fn init<M: LinearMemory, E: MemoryMap>(
        mem: &mut M,
        memory_map: &E,
        physical_offset: u64,
    ) -> (manager: Self)
        requires
            Self::can_init(old(mem), memory_map.descriptors(), physical_offset),
        ensures
            manager.wf(final(mem)),
            manager.physical_offset == physical_offset,
            manager.page_count == page_limit(memory_map.descriptors()),
            manager.bitmap_ptr == physical_offset + bitmap_region(
                memory_map.descriptors(),
            )->Some_0.phys_start,
            final(mem).base() == old(mem).base(),
            final(mem).words().len() == old(mem).words().len(),
            forall|p: int|
                0 <= p < manager.bit_count() ==> #[trigger] manager.available(final(mem), p) == (
                usable_page(memory_map.descriptors(), p) && !page_touched(
                    bitmap_region(memory_map.descriptors())->Some_0.phys_start as int,
                    8 * manager.word_count(),
                    p,
                )),
            forall|i: int|
                0 <= i < old(mem).words().len() && !manager.holds_word(old(mem), i)
                    ==> #[trigger] final(mem).words()[i] == old(mem).words()[i],
    {
        let ghost descs = memory_map.descriptors();
        proof {
            lemma_addr_limit(descs);
            lemma_first_fit(descs, 8 * bitmap_words(page_limit(descs)));
        }
        let page_count: u64 = physical_page_count(memory_map);
        let bitmap_size_words: u64 = div_ceil(page_count, 64);
        // We always address the bitmap in 64-bit words, so we have to
        // allocate enough to accomodate for this
        let bitmap_size_bytes: u64 = bitmap_size_words * 8;

        // Find somewhere to put the bitmap pages. The regions will naturally
        // get merged once we add them to the bitmap.
        let region = find_region(memory_map, bitmap_size_bytes).unwrap();
        let bitmap_address: u64 = phys_new(region.phys_start);

        // The page indices that are taken by the bitmap itself
        let bitmap_page_start: u64 = bitmap_address / PAGE_SIZE;
        let bitmap_page_end: u64 = div_ceil(bitmap_address + bitmap_size_bytes, PAGE_SIZE);

        // The location of the bitmap in virtual memory
        let bitmap_ptr: u64 = physical_offset + bitmap_address;

        // Zero out the bitmap. Zero here means not available, and available
        // regions will be explicitly added.
        zero_words(mem, bitmap_ptr, bitmap_size_words);

        let manager = Self { bitmap_ptr, physical_offset, page_count };

        proof {
            assert forall|p: int| 0 <= p < manager.bit_count() implies !#[trigger]
            manager.available(mem, p) by {
                lemma_bit_zero(p % 64);
            }
        }

        let mut i: usize = 0;
        let n: usize = memory_map.entry_count();
        while i < n
            invariant
                descs == memory_map.descriptors(),
                n == descs.len(),
                i <= n,
                regions_fit(descs),
                manager.wf(mem),
                manager.page_count == page_limit(descs),
                mem.base() == old(mem).base(),
                mem.words().len() == old(mem).words().len(),
                bitmap_page_start == bitmap_address / PAGE_SIZE,
                bitmap_page_end == ceil_div(bitmap_address + bitmap_size_bytes, PAGE_SIZE as int),
                forall|p: int|
                    0 <= p < manager.bit_count() ==> #[trigger] manager.available(mem, p) == (
                    usable_page(descs.take(i as int), p) && !page_touched(
                        bitmap_address as int,
                        bitmap_size_bytes as int,
                        p,
                    )),
                forall|j: int|
                    0 <= j < old(mem).words().len() && !manager.holds_word(old(mem), j)
                        ==> #[trigger] mem.words()[j] == old(mem).words()[j],
            decreases n - i,
        {
            let desc = memory_map.entry(i);
            let ghost before = *mem;
            proof {
                lemma_addr_limit(descs);
                lemma_usable_page_step(descs, i as int);
                assert(usable(descs[i as int].ty) ==> desc.phys_end() <= addr_limit(descs));
            }
            if is_usable(desc.ty) {
                // Firmware pages are always 4KiB, regardless of the kernel's page size
                let phys_end: u64 = desc.phys_start + desc.page_count * FIRMWARE_PAGE_SIZE;

                // The range of indices of kernel-sized page in this region.
                let page_start: u64 = div_ceil(desc.phys_start, PAGE_SIZE);
                let page_end: u64 = phys_end / PAGE_SIZE;

                let mut page_index: u64 = page_start;
                while page_index < page_end
                    invariant
                        page_start <= page_index,
                        page_index <= page_end || page_index == page_start,
                        page_end <= manager.page_count,
                        manager.wf(mem),
                        mem.base() == old(mem).base(),
                        mem.words().len() == old(mem).words().len(),
                        mem.base() == before.base(),
                        mem.words().len() == before.words().len(),
                        bitmap_page_start == bitmap_address / PAGE_SIZE,
                        bitmap_page_end == ceil_div(
                            bitmap_address + bitmap_size_bytes,
                            PAGE_SIZE as int,
                        ),
                        forall|p: int|
                            0 <= p < manager.bit_count() ==> #[trigger] manager.available(mem, p)
                                == (manager.available(&before, p) || (page_start <= p < page_index
                                && !page_touched(
                                bitmap_address as int,
                                bitmap_size_bytes as int,
                                p,
                            ))),
                        forall|j: int|
                            0 <= j < old(mem).words().len() && !manager.holds_word(old(mem), j)
                                ==> #[trigger] mem.words()[j] == old(mem).words()[j],
                    decreases page_end - page_index,
                {
                    if !(bitmap_page_start <= page_index && page_index < bitmap_page_end) {
                        manager.free_page(mem, page_index);
                    }
                    page_index = page_index + 1;
                }
                proof {
                    assert forall|p: int| 0 <= p < manager.bit_count() implies page_inside(desc, p)
                        == (page_start <= p < page_end) by {
                        lemma_page_inside(desc, p);
                    }
                }
            }
            i = i + 1;
        }
        assert(descs.take(n as int) =~= descs);
        manager
    }

    /// Tells where the bitmap is.
    pub fn bitmap_line(&self) -> (text: String)
        requires
            self.physical_offset <= self.bitmap_ptr,
        ensures
            text@ == "Bitmap at "@ + hexadecimal(self.bitmap_ptr - self.physical_offset)
                + " in physical memory and "@ + hexadecimal(self.bitmap_ptr as int)
                + " in virtual memory\n"@,
    {
        let mut text: String = String::new();
        text.append("Bitmap at ");
        append_hexadecimal(&mut text, self.bitmap_ptr - self.physical_offset);
        text.append(" in physical memory and ");
        append_hexadecimal(&mut text, self.bitmap_ptr);
        text.append(" in virtual memory\n");
        assert(text@ =~= "Bitmap at "@ + hexadecimal(self.bitmap_ptr - self.physical_offset)
            + " in physical memory and "@ + hexadecimal(self.bitmap_ptr as int)
            + " in virtual memory\n"@);
        text
    }

    /// Returns the address of the word containing the bit for a certain page, plus a mask for
    /// the bit
    fn get_word(&self, page_index: u64) -> (word: (u64, u64))
        requires
            page_index < self.bit_count(),
            self.bitmap_ptr + 8 * self.word_count() <= u64::MAX + 1,
        ensures
            word.0 == self.bitmap_ptr + 8 * (page_index as int / 64),
            word.1 == 1u64 << ((page_index % 64) as u64),
    {
        let word_offset: u64 = page_index / 64;
        let bit_offset: u64 = page_index % 64;
        let mask: u64 = 1u64 << bit_offset;
        (self.bitmap_ptr + word_offset * 8, mask)
    }

    /// Makes a page available.
    pub fn free_page<M: LinearMemory>(&self, mem: &mut M, page_index: u64)
        requires
            self.wf(old(mem)),
            page_index < self.bit_count(),
        ensures
            self.wf(final(mem)),
            final(mem).base() == old(mem).base(),
            final(mem).words().len() == old(mem).words().len(),
            self.frees(old(mem), page_index as int, final(mem)),
            forall|i: int|
                0 <= i < old(mem).words().len() && !self.holds_word(old(mem), i)
                    ==> #[trigger] final(mem).words()[i] == old(mem).words()[i],
    {
        self.free_shared_page(mem, page_index);
        proof {
            let word = mem.log().last().found();
            let mask = 1u64 << ((page_index as int % 64) as u64);
            lemma_word_update(
                old(mem).words(),
                self.first_word(old(mem)),
                page_index as int,
                word | mask,
            );
            assert forall|p: int| 0 <= p < self.bit_count() implies #[trigger] self.available(
                mem,
                p,
            ) == (self.available(old(mem), p) || p == page_index) by {
                lemma_bit_set(word, page_index as int % 64, p % 64);
            }
        }
    }

    /// Whether a page can be allocated.
    pub fn is_available<M: LinearMemory>(&self, mem: &M, page_index: u64) -> (r: bool)
        requires
            self.wf(mem),
            page_index < self.bit_count(),
        ensures
            r == self.available(mem, page_index as int),
    {
        let (addr, mask) = self.get_word(page_index);
        let word: u64 = mem.read(addr);
        proof {
            lemma_bit_mask(word, page_index as int % 64);
        }
        word & mask != 0
    }

    /// Exchanging a word of the bitmap for the same word without its lowest set bit allocates the
    /// page of that bit, and no other, whatever the rest of the bitmap holds at that moment.
    pub proof fn law_exchange_takes_page<M: LinearMemory>(
        &self,
        mem: &M,
        after: &M,
        index: int,
        rest: u64,
        position: int,
    )
        requires
            self.wf(mem),
            0 <= index < self.word_count(),
            without_lowest(mem.words()[self.first_word(mem) + index], rest, position),
            after.base() == mem.base(),
            after.words() == mem.words().update(self.first_word(mem) + index, rest),
        ensures
            self.takes(mem, 64 * index + position, after),
    {
        let page = 64 * index + position;
        let word = mem.words()[self.first_word(mem) + index];
        assert(page / 64 == index && page % 64 == position);
        lemma_word_update(mem.words(), self.first_word(mem), page, rest);
        assert forall|p: int| 0 <= p < self.bit_count() implies #[trigger] self.available(after, p)
            == (self.available(mem, p) && p != page) by {
            if p / 64 == index {
                assert(bit(rest, p % 64) == (bit(word, p % 64) && p % 64 != position));
            }
        }
    }

    /// Makes a page available, in memory that others use too.
    pub fn free_shared_page<S: SharedMemory>(&self, mem: &mut S, page_index: u64)
        requires
            self.lies_in(old(mem).seen().base, old(mem).seen().len),
            page_index < self.bit_count(),
        ensures
            final(mem).seen().base == old(mem).seen().base,
            final(mem).seen().len == old(mem).seen().len,
            final(mem).seen().alone == old(mem).seen().alone,
            final(mem).seen().record.len() == old(mem).seen().record.len() + 1,
            final(mem).seen().record.drop_last() == old(mem).seen().record,
            op_frees(
                final(mem).seen().record.last(),
                word_index(old(mem).seen().base, self.bitmap_ptr as int),
                page_index as int,
            ),
            old(mem).seen().alone ==> {
                let op = final(mem).seen().record.last();
                &&& op.found() == old(mem).seen().words[op.index()]
                &&& final(mem).seen().words == op.applied(old(mem).seen().words)
                &&& final(mem).seen().words.len() == old(mem).seen().words.len()
            },
    {
        let (addr, mask) = self.get_word(page_index);
        let ghost index = word_index(mem.seen().base, addr as int);
        assert(index == word_index(mem.seen().base, self.bitmap_ptr as int) + page_index / 64);
        let ghost before = mem.seen().record;
        let word: u64 = mem.set_shared(addr, mask);
        assert(mem.seen().record.drop_last() =~= before);
    }

    /// Allocates a single physical page of memory that others use too, and may allocate pages of
    /// at the same time. Returns `None` if each word of the bitmap was found to be zero.
    #[verifier::rlimit(80)]
    pub fn allocate_shared_page<S: SharedMemory>(&self, mem: &mut S) -> (page: Option<
        PageAllocation,
    >)
        requires
            self.lies_in(old(mem).seen().base, old(mem).seen().len),
        ensures
            final(mem).seen().base == old(mem).seen().base,
            final(mem).seen().len == old(mem).seen().len,
            final(mem).seen().alone == old(mem).seen().alone,
            final(mem).seen().record.len() >= old(mem).seen().record.len(),
            final(mem).seen().record.take(old(mem).seen().record.len() as int) == old(mem).seen().record,
            page_call(
                final(mem).seen().record.skip(old(mem).seen().record.len() as int),
                word_index(old(mem).seen().base, self.bitmap_ptr as int),
                self.word_count(),
                index_of(page),
            ),
            page matches Some(allocation) ==> allocation.physical_offset == self.physical_offset,
            old(mem).seen().alone ==> {
                let ops = final(mem).seen().record.skip(old(mem).seen().record.len() as int);
                &&& finds(old(mem).seen().words, ops)
                &&& final(mem).seen().words == if page is Some {
                    ops.last().applied(old(mem).seen().words)
                } else {
                    old(mem).seen().words
                }
                &&& final(mem).seen().words.len() == old(mem).seen().words.len()
            },
    {
        // The page index that the current bitmap word starts at
        let mut idx_start: u64 = 0;
        let ghost base = mem.seen().base;
        let ghost first = word_index(base, self.bitmap_ptr as int);
        let ghost before = mem.seen().record;
        let ghost words = mem.seen().words;
        let ghost alone = mem.seen().alone;
        let ghost mut ops: MemLog = Seq::empty();
        assert(mem.seen().record =~= before + ops);

        while idx_start < self.page_count
            invariant
                mem.seen().base == base,
                mem.seen().len == old(mem).seen().len,
                mem.seen().alone == alone,
                alone == old(mem).seen().alone,
                before == old(mem).seen().record,
                words == old(mem).seen().words,
                base == old(mem).seen().base,
                first == word_index(base, self.bitmap_ptr as int),
                self.lies_in(base, mem.seen().len),
                mem.seen().record == before + ops,
                forall|i: int| 0 <= i < ops.len() ==> (#[trigger] ops[i]).quiet(),
                alone ==> mem.seen().words == words && finds(words, ops),
                idx_start % 64 == 0,
                idx_start <= self.bit_count(),
                forall|w: int|
                    first <= w < first + idx_start / 64 ==> #[trigger] finds_zero(ops, w),
            decreases self.bit_count() - idx_start,
        {
            let addr: u64 = self.bitmap_ptr + idx_start / 64 * 8;
            let ghost index = word_index(base, addr as int);
            assert(index == first + idx_start as int / 64);
            let mut prev: u64 = mem.load_shared(addr);
            proof {
                let op = MemOp::Load { index, found: prev };
                lemma_finds_zero(ops, op, first, index);
                assert(mem.seen().record =~= before + ops.push(op));
                ops = ops.push(op);
            }

            loop
                invariant
                    mem.seen().base == base,
                    mem.seen().len == old(mem).seen().len,
                    mem.seen().alone == alone,
                    alone == old(mem).seen().alone,
                    before == old(mem).seen().record,
                    words == old(mem).seen().words,
                    base == old(mem).seen().base,
                    first == word_index(base, self.bitmap_ptr as int),
                    self.lies_in(base, mem.seen().len),
                    mem.seen().record == before + ops,
                    forall|i: int| 0 <= i < ops.len() ==> (#[trigger] ops[i]).quiet(),
                    alone ==> mem.seen().words == words && finds(words, ops),
                    idx_start % 64 == 0,
                    idx_start < self.page_count,
                    addr == self.bitmap_ptr + idx_start / 64 * 8,
                    index == word_index(base, addr as int),
                    index == first + idx_start as int / 64,
                    forall|w: int| first <= w < index ==> #[trigger] finds_zero(ops, w),
                    ops.len() > 0,
                    ops.last().index() == index,
                    ops.last().found() == prev,
                    ops.last().left() == prev,
                ensures
                    prev == 0,
                decreases mem.seen().pending,
            {
                assert(mem.seen().record.last() == ops.last());
                match take_lowest_bit(prev) {
                    // No pages are available in this word
                    None => {
                        break ;
                    },
                    Some((next, position)) => {
                        let result = mem.exchange_shared(addr, prev, next);
                        let ghost found = match result {
                            Ok(word) => word,
                            Err(word) => word,
                        };
                        let ghost op = MemOp::Exchange { index, current: prev, new: next, found };
                        proof {
                            lemma_finds_zero(ops, op, first, index);
                            assert(mem.seen().record =~= before + ops.push(op));
                        }
                        match result {
                            Ok(_) => {
                                let page_index: u64 = idx_start + position as u64;
                                proof {
                                    let own = ops.push(op);
                                    assert(page_index as int / 64 == idx_start as int / 64);
                                    assert(page_index as int % 64 == position);
                                    assert(mem.seen().record.skip(before.len() as int) =~= own);
                                    assert(mem.seen().record.take(before.len() as int) =~= before);
                                    assert(op_takes(own.last(), first, page_index as int));
                                    assert(page_call(
                                        own,
                                        first,
                                        self.word_count(),
                                        Some(page_index),
                                    ));
                                }
                                return Some(PageAllocation::new(page_index, self.physical_offset));
                            },
                            Err(next_prev) => {
                                proof {
                                    ops = ops.push(op);
                                }
                                prev = next_prev;
                            },
                        }
                    },
                }
            }

            proof {
                assert(ops[ops.len() - 1].index() == index && ops[ops.len() - 1].found() == 0);
                assert(finds_zero(ops, index));
            }
            idx_start = idx_start + 64;
        }

        proof {
            assert(mem.seen().record.skip(before.len() as int) =~= ops);
            assert(mem.seen().record.take(before.len() as int) =~= before);
        }
        None
    }

    /// Allocates a single physical page: the available page with the lowest index. Returns
    /// `None` if no page is available.
    #[verifier::rlimit(40)]
    pub fn allocate_page<M: LinearMemory>(&self, mem: &mut M) -> (page: Option<PageAllocation>)
        requires
            self.wf(old(mem)),
        ensures
            self.wf(final(mem)),
            final(mem).base() == old(mem).base(),
            final(mem).words().len() == old(mem).words().len(),
            self.allocates_page(old(mem), index_of(page), final(mem)),
            page matches Some(allocation) ==> allocation.physical_offset == self.physical_offset,
            forall|i: int|
                0 <= i < old(mem).words().len() && !self.holds_word(old(mem), i)
                    ==> #[trigger] final(mem).words()[i] == old(mem).words()[i],
    {
        let page = self.allocate_shared_page(mem);
        proof {
            let first = self.first_word(old(mem));
            let before = old(mem).words();
            let ops = mem.log().skip(old(mem).log().len() as int);
            let full = match index_of(page) {
                Some(index) => index as int / 64,
                None => self.word_count(),
            };
            assert forall|p: int| 0 <= p < 64 * full implies !#[trigger] self.available(
                old(mem),
                p,
            ) by {
                let w = first + p / 64;
                assert(finds_zero(ops, w));
                let i = choose|i: int|
                    0 <= i < ops.len() && (#[trigger] ops[i]).index() == w && ops[i].found() == 0;
                assert(before[w] == 0);
                lemma_bit_zero(p % 64);
            }
            if let Some(index) = index_of(page) {
                let index = index as int;
                let op = ops.last();
                assert(op_takes(op, first, index));
                assert(op == ops[ops.len() - 1]);
                self.law_exchange_takes_page(old(mem), mem, index / 64, op.left(), index % 64);
                assert forall|p: int| 0 <= p < index implies !#[trigger] self.available(
                    old(mem),
                    p,
                ) by {
                    if p >= 64 * full {
                        assert(!bit(before[first + full], p % 64));
                    }
                }
            }
        }
        page
    }

    /// Which pages can be allocated.
    pub open spec fn availability<M: LinearMemory>(&self, mem: &M) -> spec_fn(int) -> bool {
        |page: int| self.available(mem, page)
    }

    /// The runs of available pages, in ascending order.
    #[verifier::rlimit(40)]
    pub fn available_regions<M: LinearMemory>(&self, mem: &M) -> (regions: Vec<Range<u64>>)
        requires
            self.wf(mem),
        ensures
            are_runs(regions@, self.availability(mem), self.page_count as int),
    {
        let ghost free = self.availability(mem);
        let mut regions: Vec<Range<u64>> = Vec::new();
        let mut i: u64 = 0;

        while i < self.page_count
            invariant
                self.wf(mem),
                free == self.availability(mem),
                i <= self.page_count,
                i == 0 || i == self.page_count || !free(i - 1) || !free(i as int),
                forall|k: int|
                    0 <= k < regions@.len() ==> {
                        &&& is_run(#[trigger] regions@[k], free, self.page_count as int)
                        &&& regions@[k].end <= i
                    },
                forall|k: int, m: int|
                    0 <= k < m < regions@.len() ==> (#[trigger] regions@[k]).end < (
                    #[trigger] regions@[m]).start,
                forall|p: int| 0 <= p < i && #[trigger] free(p) ==> in_regions(regions@, p),
            decreases self.page_count - i,
        {
            if !self.is_available(mem, i) {
                assert(!free(i as int));
                i = i + 1;
            } else {
                let start: u64 = i;
                assert(free(start as int));
                while i < self.page_count && self.is_available(mem, i)
                    invariant
                        self.wf(mem),
                        free == self.availability(mem),
                        start <= i <= self.page_count,
                        forall|p: int| start <= p < i ==> #[trigger] free(p),
                    ensures
                        start <= i <= self.page_count,
                        forall|p: int| start <= p < i ==> #[trigger] free(p),
                        i == self.page_count || !free(i as int),
                    decreases self.page_count - i,
                {
                    assert(free(i as int));
                    i = i + 1;
                }
                let ghost before = regions@;
                regions.push(start..i);
                proof {
                    assert(regions@ == before.push(start..i));
                    assert(forall|k: int| 0 <= k < before.len() ==> regions@[k] == before[k]);
                    assert(is_run(regions@[before.len() as int], free, self.page_count as int));
                    assert forall|p: int| 0 <= p < i && #[trigger] free(p) implies in_regions(
                        regions@,
                        p,
                    ) by {
                        if p < start {
                            assert(in_regions(before, p));
                            let k = choose|k: int|
                                0 <= k < before.len() && (#[trigger] before[k]).start <= p
                                    < before[k].end;
                            assert(regions@[k].start <= p < regions@[k].end);
                        } else {
                            assert(regions@[before.len() as int].start <= p);
                        }
                    }
                }
            }
        }

        regions
    }

    /// The available regions, as text. The end of the last one has to fit in 64 bits.
    pub fn fmt<M: LinearMemory>(&self, mem: &M) -> (text: String)
        requires
            self.wf(mem),
            self.page_count * PAGE_SIZE > u64::MAX ==> !self.available(mem, self.page_count - 1),
        ensures
            exists|regions: Seq<Range<u64>>|
                are_runs(regions, self.availability(mem), self.page_count as int) && text@
                    == #[trigger] regions_text(regions),
    {
        let regions = self.available_regions(mem);
        let mut text: String = String::new();
        text.append("Available Memory Regions:\n");
        let mut i: usize = 0;
        proof {
            assert(text@ =~= regions_text(regions@.take(0)));
        }
        while i < regions.len()
            invariant
                self.wf(mem),
                self.page_count * PAGE_SIZE > u64::MAX ==> !self.available(
                    mem,
                    self.page_count - 1,
                ),
                are_runs(regions@, self.availability(mem), self.page_count as int),
                i <= regions.len(),
                text@ == regions_text(regions@.take(i as int)),
            decreases regions.len() - i,
        {
            let start: u64 = regions[i].start;
            let end: u64 = regions[i].end;
            proof {
                assert(is_run(regions@[i as int], self.availability(mem), self.page_count as int));
                assert((self.availability(mem))(end - 1));
                assert(regions@.take(i + 1).drop_last() =~= regions@.take(i as int));
                assert(regions@.take(i + 1).last() == regions@[i as int]);
            }
            append_hexadecimal(&mut text, start * PAGE_SIZE);
            text.append("..");
            append_hexadecimal(&mut text, end * PAGE_SIZE);
            text.append(": ");
            append_decimal(&mut text, end - start);
            text.append(" pages\n");
            i = i + 1;
        }
        proof {
            assert(regions@.take(i as int) =~= regions@);
        }
        text
    }
}

} // verus!
