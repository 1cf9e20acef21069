//! What the functions of the dynamic allocator do, in terms of sizes and alignments, and of the
//! addresses and words of memory.

use vstd::arithmetic::power2::{lemma_pow2_strictly_increases, lemma_pow2_unfold, pow2};
use vstd::prelude::*;

use crate::dynamic_alloc::DynamicAllocator;
use crate::freelist::{
    block_at, exhausted, holds_link, is_lowest, lemma_lowest_exists, page_blocks, page_ready,
    page_start, pages_ready, starts_block, word_in_page, Freelist,
};
use crate::heap::{
    apart, block_in_use, lemma_block_in_page, lemma_same_class_apart, list_ok,
};
use crate::layout::{
    class_of, class_size, lemma_class_of, lemma_class_size, lemma_class_unique, Layout, LayoutError,
};
use crate::manager_laws::{
    just_enough_words, lemma_ceil, lemma_page_free, page_free,
};
use crate::memory::{word_index, LinearMemory};
use crate::phys_alloc::PhysicalMemoryManager;

verus! {

/// A layout is made of every alignment that is a power of two, and every size that is at most the
/// greatest signed number when it is rounded up to a multiple of the alignment. It has that size
/// and that alignment.
pub proof fn law_from_size_align(size: u64, align: u64, layout: Result<Layout, LayoutError>)
    requires
        call_ensures(Layout::from_size_align, (size, align), layout),
    ensures
        layout is Ok <==> (exists|k: nat| align == #[trigger] pow2(k)) && size + align - 1
            <= 0x7FFF_FFFF_FFFF_FFFF,
        forall|l: Layout, s: u64|
            layout == Ok::<Layout, LayoutError>(l) && #[trigger] call_ensures(
                Layout::size,
                (&l,),
                s,
            ) ==> s == size,
        forall|l: Layout, a: u64|
            layout == Ok::<Layout, LayoutError>(l) && #[trigger] call_ensures(
                Layout::align,
                (&l,),
                a,
            ) ==> a == align,
{
}

/// Whether a layout has this size and this alignment.
pub open spec fn has_size_align(layout: Layout, size: u64, align: u64) -> bool {
    call_ensures(Layout::size, (&layout,), size) && call_ensures(Layout::align, (&layout,), align)
}

/// The size of the blocks of a class: 8 bytes, and twice as much for each further class.
pub open spec fn bytes_of_class(c: int) -> int {
    8 * (pow2(c as nat) as int)
}

/// Whether the blocks of class `c` are the smallest ones that are as large as the size and as
/// large as the alignment.
pub open spec fn smallest_class(size: u64, align: u64, c: int) -> bool {
    &&& c >= 0
    &&& size <= bytes_of_class(c)
    &&& align <= bytes_of_class(c)
    &&& c > 0 ==> size > bytes_of_class(c - 1) || align > bytes_of_class(c - 1)
}

proof fn lemma_bytes_of_class(c: int)
    requires
        c >= 0,
    ensures
        bytes_of_class(c) == class_size(c),
{
    lemma_pow2_unfold((c + 3) as nat);
    lemma_pow2_unfold((c + 2) as nat);
    lemma_pow2_unfold((c + 1) as nat);
}

proof fn lemma_layout_class(layout: Layout, size: u64, align: u64)
    requires
        has_size_align(layout, size, align),
    ensures
        smallest_class(size, align, class_of(layout.need())),
        class_of(layout.need()) < 10 <==> size <= 4096 && align <= 4096,
{
    let c = class_of(layout.need());
    lemma_class_of(layout.need());
    lemma_bytes_of_class(c);
    if c > 0 {
        lemma_bytes_of_class(c - 1);
    }
    crate::heap_laws::law_largest_allocation(layout.need());
}

proof fn lemma_smallest_class_unique(layout: Layout, size: u64, align: u64, c: int)
    requires
        has_size_align(layout, size, align),
        smallest_class(size, align, c),
    ensures
        class_of(layout.need()) == c,
        c < 10 <==> size <= 4096 && align <= 4096,
{
    lemma_bytes_of_class(c);
    if c > 0 {
        lemma_bytes_of_class(c - 1);
    }
    lemma_class_unique(layout.need(), c);
    lemma_layout_class(layout, size, align);
}

/// The class of a layout is the smallest one whose blocks are as large as its size and as large as
/// its alignment. It is one of the ten classes that there are if and only if neither of them is
/// more than 4096.
pub proof fn law_freelist_index(layout: Layout, size: u64, align: u64, index: usize)
    requires
        call_ensures(Layout::size, (&layout,), size),
        call_ensures(Layout::align, (&layout,), align),
        call_ensures(DynamicAllocator::freelist_index, (layout,), index),
    ensures
        size <= 8 * pow2(index as nat),
        align <= 8 * pow2(index as nat),
        index > 0 ==> size > 8 * pow2((index - 1) as nat) || align > 8 * pow2((index - 1) as nat),
        index < 10 <==> size <= 4096 && align <= 4096,
{
    lemma_layout_class(layout, size, align);
}

/// A layout that is as large and as aligned as another one has the same class or a larger one.
pub proof fn law_freelist_index_ascends(
    small: Layout,
    large: Layout,
    size: u64,
    align: u64,
    larger_size: u64,
    larger_align: u64,
    i: usize,
    j: usize,
)
    requires
        has_size_align(small, size, align),
        has_size_align(large, larger_size, larger_align),
        size <= larger_size,
        align <= larger_align,
        call_ensures(DynamicAllocator::freelist_index, (small,), i),
        call_ensures(DynamicAllocator::freelist_index, (large,), j),
    ensures
        i <= j,
{
    lemma_layout_class(small, size, align);
    lemma_layout_class(large, larger_size, larger_align);
    if j < i && j < i - 1 {
        lemma_pow2_strictly_increases(j as nat, (i - 1) as nat);
    }
}

/// A new allocator has ten lists without blocks, none of them locked. The blocks of the first one
/// have 8 bytes, and those of each further one twice as many.
pub proof fn law_new_allocator<'a>(
    pmm: &'a PhysicalMemoryManager,
    allocator: DynamicAllocator<'a>,
)
    requires
        call_ensures(DynamicAllocator::<'a>::new, (pmm,), allocator),
    ensures
        *allocator.pmm == *pmm,
        forall|c: int|
            0 <= c < 10 ==> {
                &&& !(#[trigger] allocator.freelists@[c]).locked()
                &&& allocator.freelists@[c]@.head is None
                &&& allocator.freelists@[c]@.blocks@.len() == 0
                &&& allocator.freelists@[c]@.block_size == 8 * pow2(c as nat)
            },
        allocator.freelists@[0]@.block_size == 8,
        allocator.freelists@[9]@.block_size == 4096,
{
    assert forall|c: int| 0 <= c < 10 implies {
        &&& !(#[trigger] allocator.freelists@[c]).locked()
        &&& allocator.freelists@[c]@.head is None
        &&& allocator.freelists@[c]@.blocks@.len() == 0
        &&& allocator.freelists@[c]@.block_size == 8 * pow2(c as nat)
    } by {
        lemma_bytes_of_class(c);
    }
    vstd::arithmetic::power2::lemma2_to64();
    assert(!allocator.freelists@[0].locked());
    assert(!allocator.freelists@[9].locked());
}

/// The free blocks of class `c`, from the first to the last.
pub open spec fn list_of(allocator: &DynamicAllocator, c: int) -> Seq<u64> {
    allocator.freelists@[c]@.blocks@
}

/// Whether the list of each class but `c` is as it was.
pub open spec fn other_lists_same(
    before: &DynamicAllocator,
    after: &DynamicAllocator,
    c: int,
) -> bool {
    forall|d: int|
        0 <= d < 10 && d != c ==> #[trigger] list_of(after, d) == list_of(before, d)
}

/// The free blocks of an allocator that is in order are linked up in memory: the head of each list
/// is its first block, and the first word of each block is the address of the next one, or 0.
pub proof fn law_lists_in_memory<M: LinearMemory>(
    allocator: &DynamicAllocator,
    mem: &M,
    c: int,
    i: int,
)
    requires
        allocator.wf(mem),
        0 <= c < 10,
        0 <= i < list_of(allocator, c).len(),
    ensures
        allocator.freelists@[c]@.head == Some(list_of(allocator, c)[0]),
        ({
            let list = list_of(allocator, c);
            mem.words()[(list[i] - mem.base()) / 8] == if i + 1 < list.len() {
                list[i + 1]
            } else {
                0
            }
        }),
{
    assert(list_ok(allocator.pmm, allocator.state()[c], mem, c));
    assert(allocator.state()[c].blocks@[i] != 0);
}

/// A list without a head has no blocks.
pub proof fn law_empty_list<M: LinearMemory>(allocator: &DynamicAllocator, mem: &M, c: int)
    requires
        allocator.wf(mem),
        0 <= c < 10,
    ensures
        allocator.freelists@[c]@.head is None <==> list_of(allocator, c).len() == 0,
{
    assert(list_ok(allocator.pmm, allocator.state()[c], mem, c));
}

/// Whether `block` is the address of a block of class `c` of a page that is not available, and
/// that block overlaps no free block.
pub open spec fn taken_block<M: LinearMemory>(
    allocator: &DynamicAllocator,
    mem: &M,
    block: u64,
    c: int,
) -> bool {
    &&& block != 0
    &&& mem.base() <= block
    &&& (block - mem.base()) % bytes_of_class(c) == 0
    &&& (block - mem.base()) / 4096 * 4096 + 4096 <= 8 * mem.words().len()
    &&& block - mem.base() + bytes_of_class(c) <= (block - mem.base()) / 4096 * 4096 + 4096
    &&& !page_free(allocator.pmm, mem, (block - mem.base()) / 4096)
    &&& forall|d: int, j: int|
        0 <= d < 10 && 0 <= j < list_of(allocator, d).len() ==> {
            ||| block + bytes_of_class(c) <= #[trigger] list_of(allocator, d)[j]
            ||| list_of(allocator, d)[j] + bytes_of_class(d) <= block
        }
}

/// Whether the blocks of class `c` of page `page` are linked up from the last to the first, in
/// their first words, and all other words of the page are as they were.
pub open spec fn page_linked<M: LinearMemory>(before: &M, after: &M, page: int, c: int) -> bool {
    let start = before.base() + page * 4096;
    &&& forall|j: int|
        0 <= j && (j + 1) * bytes_of_class(c) <= 4096 ==> after.words()[(page * 4096 + #[trigger] (j
            * bytes_of_class(c))) / 8] == if j == 0 {
            0
        } else {
            start + (j - 1) * bytes_of_class(c)
        }
    &&& forall|w: int|
        page * 512 <= w < page * 512 + 512 && (8 * w) % bytes_of_class(c) != 0
            ==> #[trigger] after.words()[w] == before.words()[w]
}

/// Whether `page` is the page with the lowest index of those whose bit is set.
pub open spec fn lowest_free<M: LinearMemory>(
    pmm: &PhysicalMemoryManager,
    mem: &M,
    page: int,
    size: int,
) -> bool {
    &&& 0 <= page < 64 * size
    &&& page_free(pmm, mem, page)
    &&& forall|p: int| 0 <= p < page ==> !#[trigger] page_free(pmm, mem, p)
}

/// Whether an allocation for class `c` gives `block`, where the bitmap has `size` words. It gives
/// the first free block of the class. If there is none, it splits up the page with the lowest
/// index, and gives the last block of that page.
pub open spec fn gives_block<M: LinearMemory>(
    before: &DynamicAllocator,
    mem: &M,
    after: &DynamicAllocator,
    mem_after: &M,
    c: int,
    size: int,
    block: Option<u64>,
) -> bool {
    &&& *after.pmm == *before.pmm
    &&& mem_after.base() == mem.base()
    &&& mem_after.words().len() == mem.words().len()
    &&& other_lists_same(before, after, c)
    &&& block is None <==> list_of(before, c).len() == 0 && forall|p: int|
        0 <= p < 64 * size ==> !#[trigger] page_free(before.pmm, mem, p)
    &&& block is None ==> list_of(after, c) == list_of(before, c) && mem_after.words()
        == mem.words()
    &&& block matches Some(addr) ==> taken_block(after, mem_after, addr, c)
    &&& list_of(before, c).len() > 0 ==> {
        &&& block == Some(list_of(before, c)[0])
        &&& list_of(after, c).len() == list_of(before, c).len() - 1
        &&& forall|k: int|
            0 <= k < list_of(after, c).len() ==> #[trigger] list_of(after, c)[k] == list_of(
                before,
                c,
            )[k + 1]
        &&& mem_after.words() == mem.words()
    }
    &&& forall|page: int|
        list_of(before, c).len() == 0 && #[trigger] lowest_free(before.pmm, mem, page, size) ==> {
            &&& splits_page(mem, mem_after, before.pmm, page, c, size)
            &&& block is Some
            &&& block->Some_0 == mem.base() + page * 4096 + 4096 - bytes_of_class(c)
            &&& (list_of(after, c).len() + 1) * bytes_of_class(c) == 4096
            &&& forall|k: int|
                0 <= k < list_of(after, c).len() ==> #[trigger] list_of(after, c)[k] == mem.base()
                    + page * 4096 + 4096 - (k + 2) * bytes_of_class(c)
        }
}

/// Whether page `page` is taken and split up, and nothing else changes in memory.
pub open spec fn splits_page<M: LinearMemory>(
    mem: &M,
    after: &M,
    pmm: &PhysicalMemoryManager,
    page: int,
    c: int,
    size: int,
) -> bool {
    &&& forall|p: int|
        0 <= p < 64 * size ==> #[trigger] page_free(pmm, after, p) == (page_free(pmm, mem, p) && p
            != page)
    &&& page_linked(mem, after, page, c)
    &&& forall|w: int|
        0 <= w < mem.words().len() && !((pmm.bitmap_ptr - mem.base()) / 8 <= w < (pmm.bitmap_ptr
            - mem.base()) / 8 + size) && !(page * 512 <= w < page * 512 + 512)
            ==> #[trigger] after.words()[w] == mem.words()[w]
}

proof fn lemma_taken_block<M: LinearMemory>(
    allocator: &DynamicAllocator,
    mem: &M,
    block: u64,
    c: int,
)
    requires
        allocator.wf(mem),
        0 <= c < 10,
        block != 0,
        allocator.in_use(mem, block as int, c),
    ensures
        taken_block(allocator, mem, block, c),
{
    lemma_bytes_of_class(c);
    lemma_block_in_page(allocator.pmm, mem, block as int, c);
    assert forall|d: int, j: int| 0 <= d < 10 && 0 <= j < list_of(allocator, d).len() implies {
        ||| block + bytes_of_class(c) <= #[trigger] list_of(allocator, d)[j]
        ||| list_of(allocator, d)[j] + bytes_of_class(d) <= block
    } by {
        lemma_bytes_of_class(d);
        let other = list_of(allocator, d)[j];
        assert(allocator.state()[d].blocks@[j] == other);
        if d == c {
            assert(list_ok(allocator.pmm, allocator.state()[c], mem, c));
            assert(allocator.state()[c].blocks@.contains(other));
            lemma_same_class_apart(allocator.pmm, mem, block as int, other as int, c);
        }
    }
    lemma_page_free(allocator.pmm, mem);
}

/// The blocks of a page, one by one.
proof fn lemma_split<M: LinearMemory>(
    pmm: &PhysicalMemoryManager,
    mem: &M,
    after: &M,
    page: int,
    c: int,
)
    requires
        0 <= c < 10,
        0 <= page,
        0 < page_start(mem, page),
        page_start(mem, page) + 4096 <= u64::MAX,
        page * 512 + 512 <= mem.words().len(),
        after.base() == mem.base(),
        ({
            let blocks = page_blocks(page_start(mem, page), class_size(c));
            &&& forall|k: int|
                0 <= k < blocks.len() ==> #[trigger] holds_link(
                    after.words(),
                    mem.base(),
                    blocks,
                    k,
                )
            &&& forall|w: int|
                0 <= w < mem.words().len() && word_in_page(w, page) && !starts_block(
                    mem.base(),
                    blocks,
                    w,
                ) ==> #[trigger] after.words()[w] == mem.words()[w]
        }),
    ensures
        page_linked(mem, after, page, c),
        ({
            let blocks = page_blocks(page_start(mem, page), class_size(c));
            &&& blocks.len() > 0
            &&& blocks.len() * bytes_of_class(c) == 4096
            &&& forall|k: int|
                0 <= k < blocks.len() ==> #[trigger] blocks[k] == mem.base() + page * 4096 + 4096
                    - (k + 1) * bytes_of_class(c)
        }),
{
    let size = class_size(c);
    let start = page_start(mem, page);
    let blocks = page_blocks(start, size);
    let n = blocks.len() as int;
    lemma_bytes_of_class(c);
    lemma_class_size(c);
    vstd::arithmetic::div_mod::lemma_fundamental_div_mod(4096, size);
    assert(n * size == 4096) by (nonlinear_arith)
        requires
            4096 == size * n + 0,
    ;
    assert(n > 0) by (nonlinear_arith)
        requires
            n * size == 4096,
            size >= 8,
    ;
    assert forall|k: int| 0 <= k < n implies #[trigger] blocks[k] == start + 4096 - (k + 1)
        * size by {
        assert(0 <= (k + 1) * size <= 4096) by (nonlinear_arith)
            requires
                0 <= k < n,
                n * size == 4096,
                size >= 8,
        ;
    }
    assert forall|j: int| 0 <= j && (j + 1) * bytes_of_class(c) <= 4096 implies after.words()[(page
        * 4096 + #[trigger] (j * bytes_of_class(c))) / 8] == if j == 0 {
        0
    } else {
        start + (j - 1) * bytes_of_class(c)
    } by {
        let k = n - 1 - j;
        assert(0 <= k) by (nonlinear_arith)
            requires
                k == n - 1 - j,
                (j + 1) * size <= 4096,
                n * size == 4096,
                size >= 8,
        ;
        assert((k + 1) * size == 4096 - j * size && (k + 2) * size == 4096 - (j - 1) * size)
            by (nonlinear_arith)
            requires
                k == n - 1 - j,
                n * size == 4096,
        ;
        assert(blocks[k] == start + j * size);
        assert(holds_link(after.words(), mem.base(), blocks, k));
        if j > 0 {
            assert(block_at(blocks, k + 1) == Some(blocks[k + 1]));
            assert(blocks[k + 1] == start + 4096 - (k + 2) * size);
        }
    }
    assert forall|w: int|
        page * 512 <= w < page * 512 + 512 && (8 * w) % bytes_of_class(c) != 0 implies
        #[trigger] after.words()[w] == mem.words()[w] by {
        assert(word_in_page(w, page));
        if starts_block(mem.base(), blocks, w) {
            let k = choose|k: int|
                0 <= k < blocks.len() && word_index(mem.base(), #[trigger] blocks[k] as int) == w;
            let m = n - 1 - k;
            assert(4096 - (k + 1) * size == m * size) by (nonlinear_arith)
                requires
                    m == n - 1 - k,
                    n * size == 4096,
            ;
            assert(blocks[k] - mem.base() == page * 4096 + m * size);
            assert((m * size) % 8 == 0) by {
                vstd::arithmetic::div_mod::lemma_fundamental_div_mod(size, 8);
                let q = size / 8;
                assert(m * size == 8 * (m * q)) by (nonlinear_arith)
                    requires
                        size == 8 * q + 0,
                ;
            }
            assert(8 * w == page * 4096 + m * size);
            let total = page * n + m;
            assert(8 * w == total * size + 0) by (nonlinear_arith)
                requires
                    8 * w == page * 4096 + m * size,
                    total == page * n + m,
                    n * size == 4096,
            ;
            vstd::arithmetic::div_mod::lemma_fundamental_div_mod_converse(8 * w, size, total, 0);
        }
    }
}

#[verifier::rlimit(60)]
proof fn lemma_gives_block<M: LinearMemory>(
    before: &DynamicAllocator,
    mem: &M,
    after: &DynamicAllocator,
    mem_after: &M,
    layout: Layout,
    c: int,
    size: int,
    block: Option<u64>,
)
    requires
        before.wf(mem),
        after.wf(mem_after),
        c == class_of(layout.need()),
        0 <= c < 10,
        just_enough_words(before.pmm.page_count as int, size),
        before.allocates(mem, after, mem_after, layout, block),
        block matches Some(addr) ==> addr != 0 && after.in_use(mem_after, addr as int, c),
    ensures
        gives_block(before, mem, after, mem_after, c, size, block),
{
    let pmm = before.pmm;
    lemma_ceil(pmm.page_count as int, 64, pmm.word_count());
    lemma_page_free(pmm, mem);
    lemma_page_free(pmm, mem_after);
    assert(size == pmm.word_count());
    assert(list_of(before, c) == before.free_blocks(c));
    assert(list_of(after, c) == after.free_blocks(c));
    assert forall|d: int| 0 <= d < 10 && d != c implies #[trigger] list_of(after, d) == list_of(
        before,
        d,
    ) by {
        assert(after.free_blocks(d) == before.free_blocks(d));
    }
    if let Some(addr) = block {
        lemma_taken_block(after, mem_after, addr, c);
    }
    if list_of(before, c).len() == 0 {
        if exhausted(pmm, mem) {
            assert forall|p: int| 0 <= p < 64 * size implies !#[trigger] page_free(pmm, mem, p) by {
                assert(!pmm.available(mem, p));
            }
        } else {
            let page = lemma_lowest_exists(pmm, mem);
            assert(page_free(pmm, mem, page));
            lemma_page_given(before, mem, after, mem_after, layout, c, size, block, page);
        }
        assert forall|page: int| #[trigger] lowest_free(pmm, mem, page, size) implies {
            &&& splits_page(mem, mem_after, pmm, page, c, size)
            &&& block is Some
            &&& block->Some_0 == mem.base() + page * 4096 + 4096 - bytes_of_class(c)
            &&& (list_of(after, c).len() + 1) * bytes_of_class(c) == 4096
            &&& forall|k: int|
                0 <= k < list_of(after, c).len() ==> #[trigger] list_of(after, c)[k] == mem.base()
                    + page * 4096 + 4096 - (k + 2) * bytes_of_class(c)
        } by {
            assert(pmm.available(mem, page));
            assert forall|p: int| 0 <= p < page implies !#[trigger] pmm.available(mem, p) by {
                assert(!page_free(pmm, mem, p));
            }
            lemma_page_given(before, mem, after, mem_after, layout, c, size, block, page);
        }
    }
}

#[verifier::rlimit(40)]
proof fn lemma_page_given<M: LinearMemory>(
    before: &DynamicAllocator,
    mem: &M,
    after: &DynamicAllocator,
    mem_after: &M,
    layout: Layout,
    c: int,
    size: int,
    block: Option<u64>,
    page: int,
)
    requires
        before.wf(mem),
        c == class_of(layout.need()),
        0 <= c < 10,
        size == before.pmm.word_count(),
        before.allocates(mem, after, mem_after, layout, block),
        list_of(before, c).len() == 0,
        is_lowest(before.pmm, mem, page),
    ensures
        splits_page(mem, mem_after, before.pmm, page, c, size),
        block is Some,
        block->Some_0 == mem.base() + page * 4096 + 4096 - bytes_of_class(c),
        (list_of(after, c).len() + 1) * bytes_of_class(c) == 4096,
        forall|k: int|
            0 <= k < list_of(after, c).len() ==> #[trigger] list_of(after, c)[k] == mem.base()
                + page * 4096 + 4096 - (k + 2) * bytes_of_class(c),
{
    let pmm = before.pmm;
    let blocks = page_blocks(page_start(mem, page), class_size(c));
    assert(pmm.available(mem, page));
    assert(!exhausted(pmm, mem));
    assert(before.free_blocks(c).len() == 0);
    assert(list_of(after, c) == after.free_blocks(c));
    assert(page_ready(pmm, mem, page));
    lemma_split(pmm, mem, mem_after, page, c);
    lemma_page_free(pmm, mem);
    lemma_page_free(pmm, mem_after);
    let bytes = bytes_of_class(c);
    assert(blocks[0] == mem.base() + page * 4096 + 4096 - (0 + 1) * bytes);
    assert((0 + 1) * bytes == bytes) by (nonlinear_arith);
    assert forall|k: int| 0 <= k < list_of(after, c).len() implies #[trigger] list_of(after, c)[k]
        == mem.base() + page * 4096 + 4096 - (k + 2) * bytes_of_class(c) by {
        assert(list_of(after, c)[k] == blocks[k + 1]);
        assert(blocks[k + 1] == mem.base() + page * 4096 + 4096 - (k + 1 + 1) * bytes_of_class(c));
    }
    assert forall|w: int|
        0 <= w < mem.words().len() && !((pmm.bitmap_ptr - mem.base()) / 8 <= w < (pmm.bitmap_ptr
            - mem.base()) / 8 + size) && !(page * 512 <= w < page * 512 + 512) implies
        #[trigger] mem_after.words()[w] == mem.words()[w] by {
        assert(!pmm.holds_word(mem, w));
        assert(!word_in_page(w, page));
    }
}

/// A layout with a size and an alignment of at most 4096 is given a block of the smallest class
/// that is as large as both, whenever there is a free block of that class or a page is available.
/// The block is aligned as the layout asks, in a window that starts at a page.
pub proof fn law_allocate<'a, M: LinearMemory>(
    allocator: &mut DynamicAllocator<'a>,
    mem: &mut M,
    layout: Layout,
    block: Option<u64>,
    size: u64,
    align: u64,
    c: int,
    words: int,
)
    requires
        old(allocator).wf(old(mem)),
        call_ensures(DynamicAllocator::<'a>::allocate::<M>, (allocator, mem, layout), block),
        has_size_align(layout, size, align),
        size <= 4096,
        align <= 4096,
        smallest_class(size, align, c),
        just_enough_words(old(allocator).pmm.page_count as int, words),
    ensures
        gives_block(old(allocator), old(mem), final(allocator), final(mem), c, words, block),
        old(mem).base() % 4096 == 0 && block is Some ==> block->Some_0 % align == 0,
{
    lemma_smallest_class_unique(layout, size, align, c);
    lemma_gives_block(
        old(allocator),
        old(mem),
        final(allocator),
        final(mem),
        layout,
        c,
        words,
        block,
    );
}

/// No block is given for a layout with a size or an alignment of more than 4096, and nothing
/// changes.
pub proof fn law_allocate_large<'a, M: LinearMemory>(
    allocator: &mut DynamicAllocator<'a>,
    mem: &mut M,
    layout: Layout,
    block: Option<u64>,
    size: u64,
    align: u64,
)
    requires
        call_ensures(DynamicAllocator::<'a>::allocate::<M>, (allocator, mem, layout), block),
        has_size_align(layout, size, align),
        size > 4096 || align > 4096,
    ensures
        block is None,
        final(mem).base() == old(mem).base(),
        final(mem).words() == old(mem).words(),
        *final(allocator).pmm == *old(allocator).pmm,
        forall|d: int|
            0 <= d < 10 ==> #[trigger] list_of(final(allocator), d) == list_of(old(allocator), d),
{
    lemma_layout_class(layout, size, align);
    assert forall|d: int| 0 <= d < 10 implies #[trigger] list_of(final(allocator), d) == list_of(
        old(allocator),
        d,
    ) by {
        assert(final(allocator).free_blocks(d) == old(allocator).free_blocks(d));
    }
}

/// What the allocation of a block gives is its address, and 0 stands for none.
pub proof fn law_global_alloc<'a, M: LinearMemory>(
    allocator: &mut DynamicAllocator<'a>,
    mem: &mut M,
    layout: Layout,
    addr: u64,
    size: u64,
    align: u64,
    c: int,
    words: int,
)
    requires
        old(allocator).wf(old(mem)),
        call_ensures(DynamicAllocator::<'a>::global_alloc::<M>, (allocator, mem, layout), addr),
        has_size_align(layout, size, align),
        size <= 4096,
        align <= 4096,
        smallest_class(size, align, c),
        just_enough_words(old(allocator).pmm.page_count as int, words),
    ensures
        gives_block(
            old(allocator),
            old(mem),
            final(allocator),
            final(mem),
            c,
            words,
            if addr == 0 {
                None
            } else {
                Some(addr)
            },
        ),
        old(mem).base() % 4096 == 0 ==> addr % align == 0,
{
    lemma_smallest_class_unique(layout, size, align, c);
    lemma_gives_block(
        old(allocator),
        old(mem),
        final(allocator),
        final(mem),
        layout,
        c,
        words,
        if addr == 0 {
            None
        } else {
            Some(addr)
        },
    );
}

/// No block is given for a layout with a size or an alignment of more than 4096, and nothing
/// changes.
pub proof fn law_global_alloc_large<'a, M: LinearMemory>(
    allocator: &mut DynamicAllocator<'a>,
    mem: &mut M,
    layout: Layout,
    addr: u64,
    size: u64,
    align: u64,
)
    requires
        call_ensures(DynamicAllocator::<'a>::global_alloc::<M>, (allocator, mem, layout), addr),
        has_size_align(layout, size, align),
        size > 4096 || align > 4096,
    ensures
        addr == 0,
        final(mem).base() == old(mem).base(),
        final(mem).words() == old(mem).words(),
        *final(allocator).pmm == *old(allocator).pmm,
        forall|d: int|
            0 <= d < 10 ==> #[trigger] list_of(final(allocator), d) == list_of(old(allocator), d),
{
    lemma_layout_class(layout, size, align);
    assert forall|d: int| 0 <= d < 10 implies #[trigger] list_of(final(allocator), d) == list_of(
        old(allocator),
        d,
    ) by {
        assert(final(allocator).free_blocks(d) == old(allocator).free_blocks(d));
    }
}

/// Whether a block of class `c` is put in front of the free blocks: its first word is the address
/// of the block that was the first one, or 0, and nothing else changes in memory.
pub open spec fn takes_back<M: LinearMemory>(
    before: &DynamicAllocator,
    mem: &M,
    after: &DynamicAllocator,
    mem_after: &M,
    c: int,
    block: u64,
) -> bool {
    &&& *after.pmm == *before.pmm
    &&& mem_after.base() == mem.base()
    &&& mem_after.words().len() == mem.words().len()
    &&& other_lists_same(before, after, c)
    &&& list_of(after, c).len() == list_of(before, c).len() + 1
    &&& list_of(after, c)[0] == block
    &&& forall|k: int|
        0 <= k < list_of(before, c).len() ==> list_of(after, c)[k + 1] == #[trigger] list_of(
            before,
            c,
        )[k]
    &&& mem_after.words()[(block - mem.base()) / 8] == if list_of(before, c).len() > 0 {
        list_of(before, c)[0]
    } else {
        0
    }
    &&& forall|w: int|
        0 <= w < mem.words().len() && w != (block - mem.base()) / 8
            ==> #[trigger] mem_after.words()[w] == mem.words()[w]
}

proof fn lemma_takes_back<M: LinearMemory>(
    before: &DynamicAllocator,
    mem: &M,
    after: &DynamicAllocator,
    mem_after: &M,
    c: int,
    block: u64,
)
    requires
        0 <= c < 10,
        mem.base() <= block,
        (block - mem.base()) / 8 < mem.words().len(),
        before.deallocates(mem, after, mem_after, block, c),
    ensures
        takes_back(before, mem, after, mem_after, c, block),
{
    assert(list_of(before, c) == before.free_blocks(c));
    assert(list_of(after, c) == after.free_blocks(c));
    assert forall|d: int| 0 <= d < 10 && d != c implies #[trigger] list_of(after, d) == list_of(
        before,
        d,
    ) by {
        assert(after.free_blocks(d) == before.free_blocks(d));
    }
    assert(0 <= (block - mem.base()) / 8);
}

/// A block that is given back becomes the first free block of the smallest class that is as large
/// as the size and the alignment of its layout.
pub proof fn law_deallocate<'a, M: LinearMemory>(
    allocator: &mut DynamicAllocator<'a>,
    mem: &mut M,
    block: u64,
    layout: Layout,
    size: u64,
    align: u64,
    c: int,
)
    requires
        call_ensures(
            DynamicAllocator::<'a>::deallocate::<M>,
            (allocator, mem, block, layout),
            (),
        ),
        has_size_align(layout, size, align),
        size <= 4096,
        align <= 4096,
        smallest_class(size, align, c),
        old(mem).base() <= block,
        (block - old(mem).base()) / 8 < old(mem).words().len(),
    ensures
        takes_back(old(allocator), old(mem), final(allocator), final(mem), c, block),
        final(allocator).wf(final(mem)),
{
    lemma_smallest_class_unique(layout, size, align, c);
    lemma_takes_back(old(allocator), old(mem), final(allocator), final(mem), c, block);
}

/// A block that is given back becomes the first free block of the smallest class that is as large
/// as the size and the alignment of its layout. If the address is 0, nothing changes.
pub proof fn law_global_dealloc<'a, M: LinearMemory>(
    allocator: &mut DynamicAllocator<'a>,
    mem: &mut M,
    block: u64,
    layout: Layout,
    size: u64,
    align: u64,
    c: int,
)
    requires
        call_ensures(
            DynamicAllocator::<'a>::global_dealloc::<M>,
            (allocator, mem, block, layout),
            (),
        ),
        has_size_align(layout, size, align),
        size <= 4096,
        align <= 4096,
        smallest_class(size, align, c),
        block != 0 ==> old(mem).base() <= block && (block - old(mem).base()) / 8 < old(mem).words().len(),
    ensures
        block != 0 ==> takes_back(
            old(allocator),
            old(mem),
            final(allocator),
            final(mem),
            c,
            block,
        ),
        block == 0 ==> *final(allocator) == *old(allocator) && *final(mem) == *old(mem),
{
    lemma_smallest_class_unique(layout, size, align, c);
    if block != 0 {
        lemma_takes_back(old(allocator), old(mem), final(allocator), final(mem), c, block);
    }
}

/// A block that was given can be given back, for every layout of the same class: that it is taken
/// is all that is asked.
pub proof fn law_deallocate_accepts<'a, M: LinearMemory>(
    allocator: &mut DynamicAllocator<'a>,
    mem: &mut M,
    block: u64,
    layout: Layout,
    size: u64,
    align: u64,
    c: int,
    words: int,
)
    requires
        old(allocator).wf(old(mem)),
        has_size_align(layout, size, align),
        size <= 4096,
        align <= 4096,
        smallest_class(size, align, c),
        taken_block(old(allocator), old(mem), block, c),
        just_enough_words(old(allocator).pmm.page_count as int, words),
        (block - old(mem).base()) / 4096 < 64 * words,
        page_ready(old(allocator).pmm, old(mem), (block - old(mem).base()) / 4096),
    ensures
        call_requires(
            DynamicAllocator::<'a>::deallocate::<M>,
            (allocator, mem, block, layout),
        ),
        call_requires(
            DynamicAllocator::<'a>::global_dealloc::<M>,
            (allocator, mem, block, layout),
        ),
        call_requires(DynamicAllocator::<'a>::allocate::<M>, (allocator, mem, layout)),
        call_requires(DynamicAllocator::<'a>::global_alloc::<M>, (allocator, mem, layout)),
{
    let pmm = old(allocator).pmm;
    lemma_smallest_class_unique(layout, size, align, c);
    lemma_ceil(pmm.page_count as int, 64, pmm.word_count());
    lemma_page_free(pmm, old(mem));
    lemma_bytes_of_class(c);
    lemma_class_size(c);
    let state = old(allocator).state();
    assert forall|d: int, j: int|
        0 <= d < state.len() && 0 <= j < state[d].blocks@.len() implies apart(
        block as int,
        class_size(c),
        #[trigger] state[d].blocks@[j] as int,
        class_size(d),
    ) by {
        lemma_bytes_of_class(d);
        assert(list_of(old(allocator), d)[j] == state[d].blocks@[j]);
    }
    assert(!state[c].blocks@.contains(block)) by {
        if state[c].blocks@.contains(block) {
            let j = choose|j: int|
                0 <= j < state[c].blocks@.len() && state[c].blocks@[j] == block;
            assert(apart(block as int, class_size(c), state[c].blocks@[j] as int, class_size(c)));
        }
    }
    assert(block_in_use(pmm, state, old(mem), block as int, c));
}

/// A block that was given back is the next one that is given, for every layout of its class, and
/// the lists are then as they were before.
pub proof fn law_given_back_is_given_again<'a, M: LinearMemory>(
    start: &DynamicAllocator<'a>,
    start_mem: &M,
    allocator: &mut DynamicAllocator<'a>,
    mem: &mut M,
    layout: Layout,
    block: u64,
    again: Option<u64>,
    size: u64,
    align: u64,
    c: int,
)
    requires
        takes_back(start, start_mem, old(allocator), old(mem), c, block),
        old(allocator).wf(old(mem)),
        call_ensures(DynamicAllocator::<'a>::allocate::<M>, (allocator, mem, layout), again),
        has_size_align(layout, size, align),
        size <= 4096,
        align <= 4096,
        smallest_class(size, align, c),
    ensures
        again == Some(block),
        final(mem).words() == old(mem).words(),
        forall|d: int|
            0 <= d < 10 ==> #[trigger] list_of(final(allocator), d) == list_of(start, d),
{
    lemma_smallest_class_unique(layout, size, align, c);
    assert(old(allocator).free_blocks(c) == list_of(old(allocator), c));
    assert forall|d: int| 0 <= d < 10 implies #[trigger] list_of(final(allocator), d) == list_of(
        start,
        d,
    ) by {
        if d == c {
            assert(final(allocator).free_blocks(c) == list_of(final(allocator), c));
            assert(list_of(final(allocator), c) =~= list_of(start, c)) by {
                assert forall|k: int| 0 <= k < list_of(start, c).len() implies list_of(
                    final(allocator),
                    c,
                )[k] == list_of(start, c)[k] by {
                    assert(list_of(old(allocator), c)[k + 1] == list_of(start, c)[k]);
                }
            }
        } else {
            assert(final(allocator).free_blocks(d) == old(allocator).free_blocks(d));
            assert(list_of(old(allocator), d) == list_of(start, d));
        }
    }
}

/// A new list has no blocks.
pub proof fn law_freelist_new(block_size: u64, list: Freelist)
    requires
        call_ensures(Freelist::new, (block_size,), list),
    ensures
        list.block_size == block_size,
        list.head is None,
        list.blocks@.len() == 0,
{
}

/// A block that is pushed is the head of the list. Its first word is the head that was, or 0, and
/// no other word changes.
pub proof fn law_push_block<M: LinearMemory>(list: &mut Freelist, mem: &mut M, block: u64)
    requires
        call_ensures(Freelist::push_block::<M>, (list, mem, block), ()),
        old(mem).base() <= block,
        (block - old(mem).base()) / 8 < old(mem).words().len(),
    ensures
        final(list).head == Some(block),
        final(list).block_size == old(list).block_size,
        final(list).blocks@.len() == old(list).blocks@.len() + 1,
        final(list).blocks@[0] == block,
        forall|k: int|
            0 <= k < old(list).blocks@.len() ==> final(list).blocks@[k + 1] == #[trigger] old(list).blocks@[k],
        final(mem).base() == old(mem).base(),
        final(mem).words().len() == old(mem).words().len(),
        final(mem).words()[(block - old(mem).base()) / 8] == match old(list).head {
            Some(addr) => addr,
            None => 0,
        },
        forall|w: int|
            0 <= w < old(mem).words().len() && w != (block - old(mem).base()) / 8
                ==> #[trigger] final(mem).words()[w] == old(mem).words()[w],
{
    assert(0 <= (block - old(mem).base()) / 8);
}

/// The block that is popped is the head of the list, and the next head is what its first word
/// holds. There is none if the list has no head.
pub proof fn law_pop_block<M: LinearMemory>(list: &mut Freelist, mem: &M, block: Option<u64>)
    requires
        old(list).linked(mem),
        call_ensures(Freelist::pop_block::<M>, (list, mem), block),
    ensures
        block == old(list).head,
        final(list).block_size == old(list).block_size,
        block matches Some(addr) ==> {
            let next = mem.words()[(addr - mem.base()) / 8];
            final(list).head == if next == 0 {
                None
            } else {
                Some(next)
            }
        },
        block is None ==> final(list).head is None && final(list).blocks@ == old(list).blocks@,
        block is Some ==> {
            &&& final(list).blocks@.len() == old(list).blocks@.len() - 1
            &&& forall|k: int|
                0 <= k < final(list).blocks@.len() ==> #[trigger] final(list).blocks@[k] == old(list).blocks@[k + 1]
        },
{
    if old(list).blocks@.len() > 0 {
        assert(old(list).blocks@[0] != 0);
        if old(list).blocks@.len() > 1 {
            assert(old(list).blocks@[1] != 0);
            assert(final(list).blocks@[0] == old(list).blocks@[1]);
        }
    }
}

/// A list that is linked up in memory has its first block as its head, and each block holds the
/// address of the next one.
pub proof fn law_linked<M: LinearMemory>(list: &Freelist, mem: &M, i: int)
    requires
        list.linked(mem),
        0 <= i < list.blocks@.len(),
    ensures
        list.head == Some(list.blocks@[0]),
        list.blocks@[i] != 0,
        mem.words()[(list.blocks@[i] - mem.base()) / 8] == if i + 1 < list.blocks@.len() {
            list.blocks@[i + 1]
        } else {
            0
        },
        forall|j: int| 0 <= j < i ==> #[trigger] list.blocks@[j] != list.blocks@[i],
{
    assert(list.blocks@[i] != 0);
}

/// A list gets the blocks of the available page with the lowest index, from the last to the first,
/// in front of its own. It fails if and only if no page is available, and changes nothing then.
pub proof fn law_allocate_new_page<M: LinearMemory>(
    list: &mut Freelist,
    pmm: &PhysicalMemoryManager,
    mem: &mut M,
    success: bool,
    words: int,
    page: int,
    count: int,
)
    requires
        pages_ready(pmm, old(mem)),
        call_ensures(Freelist::allocate_new_page::<M>, (list, pmm, mem), success),
        just_enough_words(pmm.page_count as int, words),
        old(list).block_size > 0,
        count * old(list).block_size == 4096,
    ensures
        final(list).block_size == old(list).block_size,
        final(mem).base() == old(mem).base(),
        final(mem).words().len() == old(mem).words().len(),
        success <==> exists|p: int| 0 <= p < 64 * words && #[trigger] page_free(pmm, old(mem), p),
        !success ==> *final(list) == *old(list) && final(mem).words() == old(mem).words(),
        lowest_free(pmm, old(mem), page, words) ==> {
            &&& final(list).blocks@.len() == count + old(list).blocks@.len()
            &&& forall|k: int|
                0 <= k < count ==> #[trigger] final(list).blocks@[k] == old(mem).base() + page
                    * 4096 + 4096 - (k + 1) * old(list).block_size
            &&& forall|k: int|
                0 <= k < old(list).blocks@.len() ==> final(list).blocks@[k + count]
                    == #[trigger] old(list).blocks@[k]
            &&& forall|p: int|
                0 <= p < 64 * words ==> #[trigger] page_free(pmm, final(mem), p) == (page_free(
                    pmm,
                    old(mem),
                    p,
                ) && p != page)
        },
{
    let size = old(list).block_size as int;
    lemma_ceil(pmm.page_count as int, 64, pmm.word_count());
    lemma_page_free(pmm, old(mem));
    lemma_page_free(pmm, final(mem));
    vstd::arithmetic::div_mod::lemma_fundamental_div_mod_converse(4096, size, count, 0);
    if success {
        let p = lemma_lowest_exists(pmm, old(mem));
        assert(page_free(pmm, old(mem), p));
    } else {
        assert forall|p: int| 0 <= p < 64 * words implies !#[trigger] page_free(
            pmm,
            old(mem),
            p,
        ) by {
            assert(!pmm.available(old(mem), p));
        }
    }
    if lowest_free(pmm, old(mem), page, words) {
        assert(pmm.available(old(mem), page));
        assert forall|p: int| 0 <= p < page implies !#[trigger] pmm.available(old(mem), p) by {
            assert(!page_free(pmm, old(mem), p));
        }
        assert(is_lowest(pmm, old(mem), page));
        assert(page_ready(pmm, old(mem), page));
        let blocks = page_blocks(page_start(old(mem), page), size);
        assert(final(list).blocks@ == blocks + old(list).blocks@);
        assert(count > 0) by (nonlinear_arith)
            requires
                count * size == 4096,
                size > 0,
        ;
        assert forall|k: int| 0 <= k < count implies #[trigger] final(list).blocks@[k] == old(mem).base() + page * 4096 + 4096 - (k + 1) * old(list).block_size by {
            assert(0 <= (k + 1) * size <= 4096) by (nonlinear_arith)
                requires
                    0 <= k < count,
                    count * size == 4096,
                    size > 0,
            ;
        }
    }
}

} // verus!
