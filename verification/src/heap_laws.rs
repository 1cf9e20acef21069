//! What holds of the allocation of blocks as a whole.

use vstd::prelude::*;

use crate::dynamic_alloc::DynamicAllocator;
use crate::freelist::{
    exhausted, is_lowest, lemma_lowest_exists, page_blocks, page_ready, page_start, pages_ready,
    word_in_page,
};
use crate::heap::{
    apart, apart_from_others, is_block, lemma_block_in_page, lemma_heap_kept, lemma_is_block_kept,
    lemma_page_blocks, lemma_same_class_apart, list_ok,
};
use crate::layout::{class_of, class_size, lemma_class_of, lemma_class_size, Layout};
use crate::memory::{word_index, LinearMemory};
use crate::phys_alloc::PhysicalMemoryManager;
use crate::PAGE_SIZE;

verus! {

/// Whether `addr` is the address of a byte of the `size` bytes at `start`.
pub open spec fn within(addr: int, start: int, size: int) -> bool {
    start <= addr < start + size
}

/// Whether `addr` is the address of a byte in one of the free blocks.
pub open spec fn in_free_block(allocator: &DynamicAllocator, addr: int) -> bool {
    exists|c: int, i: int|
        0 <= c < 10 && 0 <= i < allocator.free_blocks(c).len() && within(
            addr,
            #[trigger] allocator.free_blocks(c)[i] as int,
            class_size(c),
        )
}

/// Whether `addr` is the address of a byte in one of the available pages.
pub open spec fn in_available_page<M: LinearMemory>(
    pmm: &PhysicalMemoryManager,
    mem: &M,
    addr: int,
) -> bool {
    exists|p: int|
        0 <= p < pmm.bit_count() && #[trigger] pmm.available(mem, p) && within(
            addr,
            page_start(mem, p),
            PAGE_SIZE as int,
        )
}

/// Whether `addr` is the address of a byte that has not been handed out: it lies in a free block
/// or in an available page.
pub open spec fn byte_free<M: LinearMemory>(
    allocator: &DynamicAllocator,
    mem: &M,
    addr: int,
) -> bool {
    in_free_block(allocator, addr) || in_available_page(allocator.pmm, mem, addr)
}

/// A new allocator can work on any memory whose pages are memory that can be used.
pub proof fn law_new_allocator_wf<M: LinearMemory>(allocator: &DynamicAllocator, mem: &M)
    requires
        pages_ready(allocator.pmm, mem),
        forall|c: int|
            0 <= c < 10 ==> {
                &&& !(#[trigger] allocator.freelists@[c]).locked()
                &&& allocator.freelists@[c]@.block_size == class_size(c)
                &&& allocator.freelists@[c]@.head is None
                &&& allocator.freelists@[c]@.blocks@ == Seq::<u64>::empty()
            },
    ensures
        allocator.wf(mem),
{
    assert forall|c: int| 0 <= c < 10 implies list_ok(
        allocator.pmm,
        #[trigger] allocator.state()[c],
        mem,
        c,
    ) by {
        assert(!allocator.freelists@[c].locked());
    }
}

/// The largest allocation is one page.
pub proof fn law_largest_allocation(need: int)
    ensures
        class_of(need) < 10 <==> need <= PAGE_SIZE,
{
    lemma_class_of(need);
    vstd::arithmetic::power2::lemma2_to64();
    let class = class_of(need);
    if class >= 10 && class - 1 > 9 {
        vstd::arithmetic::power2::lemma_pow2_strictly_increases(12, (class + 2) as nat);
    }
    if class < 9 {
        vstd::arithmetic::power2::lemma_pow2_strictly_increases((class + 3) as nat, 12);
    }
}

/// The free blocks of an allocator are in order.
proof fn lemma_free_block<M: LinearMemory>(
    allocator: &DynamicAllocator,
    mem: &M,
    c: int,
    i: int,
)
    requires
        allocator.wf(mem),
        0 <= c < 10,
        0 <= i < allocator.free_blocks(c).len(),
    ensures
        is_block(allocator.pmm, mem, allocator.free_blocks(c)[i] as int, class_size(c)),
        apart_from_others(allocator.state(), allocator.free_blocks(c)[i] as int, c),
        forall|j: int|
            0 <= j < allocator.free_blocks(c).len() && j != i ==> #[trigger] allocator.free_blocks(
                c,
            )[j] != allocator.free_blocks(c)[i],
{
    let list = allocator.state()[c];
    assert(list_ok(allocator.pmm, list, mem, c));
    assert(is_block(allocator.pmm, mem, list.blocks@[i] as int, class_size(c)));
    assert(apart_from_others(
        allocator.state(),
        allocator.state()[c].blocks@[i] as int,
        c,
    ));
}

/// Two different free blocks do not overlap.
pub proof fn law_free_blocks_apart<M: LinearMemory>(
    allocator: &DynamicAllocator,
    mem: &M,
    c: int,
    i: int,
    d: int,
    j: int,
)
    requires
        allocator.wf(mem),
        0 <= c < 10,
        0 <= d < 10,
        0 <= i < allocator.free_blocks(c).len(),
        0 <= j < allocator.free_blocks(d).len(),
        c != d || i != j,
    ensures
        apart(
            allocator.free_blocks(c)[i] as int,
            class_size(c),
            allocator.free_blocks(d)[j] as int,
            class_size(d),
        ),
{
    lemma_free_block(allocator, mem, c, i);
    lemma_free_block(allocator, mem, d, j);
    if c == d {
        assert(allocator.free_blocks(c)[j] != allocator.free_blocks(c)[i]);
        lemma_same_class_apart(
            allocator.pmm,
            mem,
            allocator.free_blocks(c)[i] as int,
            allocator.free_blocks(d)[j] as int,
            c,
        );
    } else {
        assert(apart(
            allocator.free_blocks(c)[i] as int,
            class_size(c),
            allocator.state()[d].blocks@[j] as int,
            class_size(d),
        ));
    }
}

/// A block that is in use overlaps no free block.
proof fn lemma_in_use_apart<M: LinearMemory>(
    allocator: &DynamicAllocator,
    mem: &M,
    block: int,
    class: int,
    d: int,
    j: int,
)
    requires
        allocator.wf(mem),
        allocator.in_use(mem, block, class),
        0 <= d < 10,
        0 <= j < allocator.free_blocks(d).len(),
    ensures
        apart(block, class_size(class), allocator.free_blocks(d)[j] as int, class_size(d)),
{
    lemma_free_block(allocator, mem, d, j);
    if d == class {
        lemma_block_in_page(allocator.pmm, mem, block, class);
        lemma_class_size(class);
        assert(allocator.state()[class].blocks@[j] == allocator.free_blocks(d)[j]);
        if allocator.free_blocks(d)[j] as int == block {
            assert(allocator.state()[class].blocks@.contains(block as u64));
        }
        lemma_same_class_apart(
            allocator.pmm,
            mem,
            block,
            allocator.free_blocks(d)[j] as int,
            class,
        );
    } else {
        assert(apart(
            block,
            class_size(class),
            allocator.state()[d].blocks@[j] as int,
            class_size(d),
        ));
    }
}

/// A block that is not free, made of allocated memory, is clear of the available pages.
proof fn lemma_block_not_in_available_page<M: LinearMemory>(
    pmm: &PhysicalMemoryManager,
    mem: &M,
    block: int,
    class: int,
    page: int,
    addr: int,
)
    requires
        0 <= class < 10,
        is_block(pmm, mem, block, class_size(class)),
        0 <= page < pmm.bit_count(),
        pmm.available(mem, page),
        within(addr, page_start(mem, page), PAGE_SIZE as int),
    ensures
        !within(addr, block, class_size(class)),
{
    lemma_block_in_page(pmm, mem, block, class);
    let own = (block - mem.base()) / (PAGE_SIZE as int);
    assert(own != page);
}

/// Whether the `size` bytes at `block` lie in one of the manager's pages, and that page is
/// allocated.
pub open spec fn in_allocated_page<M: LinearMemory>(
    pmm: &PhysicalMemoryManager,
    mem: &M,
    block: int,
    size: int,
) -> bool {
    exists|page: int|
        0 <= page < pmm.bit_count() && !(#[trigger] pmm.available(mem, page)) && page_start(
            mem,
            page,
        ) <= block && block + size <= page_start(mem, page) + PAGE_SIZE
}

/// Every block, in use or free, lies in one of the manager's pages, and that page is allocated.
pub proof fn law_blocks_lie_in_allocated_pages<M: LinearMemory>(
    allocator: &DynamicAllocator,
    mem: &M,
    block: u64,
    class: int,
)
    requires
        allocator.wf(mem),
        0 <= class < 10,
        allocator.in_use(mem, block as int, class) || allocator.free_blocks(class).contains(block),
    ensures
        in_allocated_page(allocator.pmm, mem, block as int, class_size(class)),
{
    if allocator.free_blocks(class).contains(block) {
        let i = choose|i: int|
            0 <= i < allocator.free_blocks(class).len() && allocator.free_blocks(class)[i]
                == block;
        lemma_free_block(allocator, mem, class, i);
    }
    lemma_block_in_page(allocator.pmm, mem, block as int, class);
    let page = (block - mem.base()) / (PAGE_SIZE as int);
    assert(!allocator.pmm.available(mem, page));
}

/// No byte of a block that is in use is free.
pub proof fn law_block_in_use_not_free<M: LinearMemory>(
    allocator: &DynamicAllocator,
    mem: &M,
    block: int,
    class: int,
    addr: int,
)
    requires
        allocator.wf(mem),
        allocator.in_use(mem, block, class),
        within(addr, block, class_size(class)),
    ensures
        !byte_free(allocator, mem, addr),
{
    if in_free_block(allocator, addr) {
        let (c, i) = choose|c: int, i: int|
            0 <= c < 10 && 0 <= i < allocator.free_blocks(c).len() && within(
                addr,
                #[trigger] allocator.free_blocks(c)[i] as int,
                class_size(c),
            );
        lemma_in_use_apart(allocator, mem, block, class, c, i);
    }
    if in_available_page(allocator.pmm, mem, addr) {
        let p = choose|p: int|
            0 <= p < allocator.pmm.bit_count() && #[trigger] allocator.pmm.available(mem, p)
                && within(addr, page_start(mem, p), PAGE_SIZE as int);
        lemma_block_not_in_available_page(allocator.pmm, mem, block, class, p, addr);
    }
}

/// The blocks that a page is split up into cover the page.
proof fn lemma_page_tiled<M: LinearMemory>(mem: &M, page: int, class: int, addr: int) -> (k: int)
    requires
        0 <= class < 10,
        0 <= page,
        0 < page_start(mem, page),
        page_start(mem, page) + PAGE_SIZE <= u64::MAX,
        within(addr, page_start(mem, page), PAGE_SIZE as int),
    ensures
        0 <= k < page_blocks(page_start(mem, page), class_size(class)).len(),
        within(
            addr,
            page_blocks(page_start(mem, page), class_size(class))[k] as int,
            class_size(class),
        ),
{
    let size = class_size(class);
    let start = page_start(mem, page);
    let blocks = page_blocks(start, size);
    let count = PAGE_SIZE as int / size;
    let from_end = start + PAGE_SIZE - 1 - addr;
    let k = from_end / size;
    lemma_class_size(class);
    lemma_page_blocks(mem, page, class);
    vstd::arithmetic::div_mod::lemma_fundamental_div_mod(PAGE_SIZE as int, size);
    vstd::arithmetic::div_mod::lemma_fundamental_div_mod(from_end, size);
    let rest = from_end % size;
    assert(0 <= k < count && k * size <= from_end < k * size + size && (k + 1) * size == k * size
        + size && (k + 1) * size <= PAGE_SIZE) by (nonlinear_arith)
        requires
            from_end == size * k + rest,
            0 <= rest < size,
            0 <= from_end < PAGE_SIZE,
            PAGE_SIZE == size * count,
    ;
    assert(blocks[k] == (start + PAGE_SIZE - (k + 1) * size) as u64);
    k
}

/// What an allocation from a new page does, for the page that it takes.
pub(crate) proof fn lemma_allocates_page<M: LinearMemory>(
    pre: &DynamicAllocator,
    mem: &M,
    post: &DynamicAllocator,
    after: &M,
    layout: Layout,
    block: u64,
) -> (page: int)
    requires
        pre.wf(mem),
        pre.allocates(mem, post, after, layout, Some(block)),
        pre.free_blocks(class_of(layout.need())).len() == 0,
    ensures
        is_lowest(pre.pmm, mem, page),
        page_ready(pre.pmm, mem, page),
        ({
            let class = class_of(layout.need());
            let blocks = page_blocks(page_start(mem, page), class_size(class));
            &&& 0 <= class < 10
            &&& block == blocks[0]
            &&& post.free_blocks(class) == blocks.drop_first()
            &&& pre.pmm.takes(mem, page, after)
            &&& forall|w: int|
                0 <= w < mem.words().len() && !pre.pmm.holds_word(mem, w) && !word_in_page(w, page)
                    ==> #[trigger] after.words()[w] == mem.words()[w]
        }),
{
    lemma_class_of(layout.need());
    let page = lemma_lowest_exists(pre.pmm, mem);
    assert(is_lowest(pre.pmm, mem, page));
    assert(pre.pmm.available(mem, page));
    page
}

/// What an allocation does to the free bytes, if it takes a free block.
#[verifier::rlimit(40)]
proof fn lemma_pop_takes_block<M: LinearMemory>(
    pre: &DynamicAllocator,
    mem: &M,
    post: &DynamicAllocator,
    after: &M,
    layout: Layout,
    block: u64,
    addr: int,
)
    requires
        pre.wf(mem),
        pre.allocates(mem, post, after, layout, Some(block)),
        pre.free_blocks(class_of(layout.need())).len() > 0,
        within(addr, block as int, class_size(class_of(layout.need()))) ==> !byte_free(
            post,
            after,
            addr,
        ),
    ensures
        within(addr, block as int, class_size(class_of(layout.need()))) ==> byte_free(
            pre,
            mem,
            addr,
        ),
        byte_free(post, after, addr) <==> byte_free(pre, mem, addr) && !within(
            addr,
            block as int,
            class_size(class_of(layout.need())),
        ),
{
    let class = class_of(layout.need());
    let size = class_size(class);
    lemma_class_of(layout.need());
    assert forall|p: int| 0 <= p < pre.pmm.bit_count() implies #[trigger] pre.pmm.available(
        after,
        p,
    ) == pre.pmm.available(mem, p) by {}
    if within(addr, block as int, size) {
        assert(within(addr, pre.free_blocks(class)[0] as int, class_size(class)));
    }
    if in_free_block(post, addr) {
        let (c, i) = choose|c: int, i: int|
            0 <= c < 10 && 0 <= i < post.free_blocks(c).len() && within(
                addr,
                #[trigger] post.free_blocks(c)[i] as int,
                class_size(c),
            );
        let k = if c == class { i + 1 } else { i };
        assert(post.free_blocks(c)[i] == pre.free_blocks(c)[k]);
    }
    if in_free_block(pre, addr) && !within(addr, block as int, size) {
        let (c, i) = choose|c: int, i: int|
            0 <= c < 10 && 0 <= i < pre.free_blocks(c).len() && within(
                addr,
                #[trigger] pre.free_blocks(c)[i] as int,
                class_size(c),
            );
        let k = if c == class { i - 1 } else { i };
        assert(post.free_blocks(c)[k] == pre.free_blocks(c)[i]);
    }
    if in_available_page(pre.pmm, mem, addr) {
        let p = choose|p: int|
            0 <= p < pre.pmm.bit_count() && #[trigger] pre.pmm.available(mem, p) && within(
                addr,
                page_start(mem, p),
                PAGE_SIZE as int,
            );
        assert(post.pmm.available(after, p));
    }
    if in_available_page(post.pmm, after, addr) {
        let p = choose|p: int|
            0 <= p < post.pmm.bit_count() && #[trigger] post.pmm.available(after, p) && within(
                addr,
                page_start(after, p),
                PAGE_SIZE as int,
            );
        assert(pre.pmm.available(mem, p));
    }
}

/// What an allocation does to the free bytes, if it takes a page.
#[verifier::rlimit(40)]
proof fn lemma_page_takes_block<M: LinearMemory>(
    pre: &DynamicAllocator,
    mem: &M,
    post: &DynamicAllocator,
    after: &M,
    layout: Layout,
    block: u64,
    addr: int,
)
    requires
        pre.wf(mem),
        pre.allocates(mem, post, after, layout, Some(block)),
        pre.free_blocks(class_of(layout.need())).len() == 0,
        within(addr, block as int, class_size(class_of(layout.need()))) ==> !byte_free(
            post,
            after,
            addr,
        ),
    ensures
        within(addr, block as int, class_size(class_of(layout.need()))) ==> byte_free(
            pre,
            mem,
            addr,
        ),
        byte_free(post, after, addr) <==> byte_free(pre, mem, addr) && !within(
            addr,
            block as int,
            class_size(class_of(layout.need())),
        ),
{
    let class = class_of(layout.need());
    let size = class_size(class);
    lemma_class_of(layout.need());
    let page = lemma_allocates_page(pre, mem, post, after, layout, block);
    let blocks = page_blocks(page_start(mem, page), size);
    lemma_page_blocks(mem, page, class);
    if within(addr, block as int, size) {
        assert(within(addr, page_start(mem, page), PAGE_SIZE as int));
    }
    if in_free_block(post, addr) {
        let (c, i) = choose|c: int, i: int|
            0 <= c < 10 && 0 <= i < post.free_blocks(c).len() && within(
                addr,
                #[trigger] post.free_blocks(c)[i] as int,
                class_size(c),
            );
        if c == class {
            assert(post.free_blocks(c)[i] == blocks[i + 1]);
            assert(within(addr, page_start(mem, page), PAGE_SIZE as int));
        } else {
            assert(post.free_blocks(c)[i] == pre.free_blocks(c)[i]);
        }
    }
    if in_available_page(post.pmm, after, addr) {
        let p = choose|p: int|
            0 <= p < post.pmm.bit_count() && #[trigger] post.pmm.available(after, p) && within(
                addr,
                page_start(after, p),
                PAGE_SIZE as int,
            );
        assert(pre.pmm.available(mem, p));
    }
    if in_free_block(pre, addr) {
        let (c, i) = choose|c: int, i: int|
            0 <= c < 10 && 0 <= i < pre.free_blocks(c).len() && within(
                addr,
                #[trigger] pre.free_blocks(c)[i] as int,
                class_size(c),
            );
        assert(post.free_blocks(c)[i] == pre.free_blocks(c)[i]);
    }
    if in_available_page(pre.pmm, mem, addr) && !within(addr, block as int, size) {
        let p = choose|p: int|
            0 <= p < pre.pmm.bit_count() && #[trigger] pre.pmm.available(mem, p) && within(
                addr,
                page_start(mem, p),
                PAGE_SIZE as int,
            );
        if p == page {
            let k = lemma_page_tiled(mem, page, class, addr);
            assert(post.free_blocks(class)[k - 1] == blocks[k]);
        } else {
            assert(post.pmm.available(after, p));
        }
    }
}

/// The block that was allocated was free before, as a whole. After the allocation, exactly the
/// bytes are free that were free before and are not part of the block.
pub proof fn law_allocate_takes_block<M: LinearMemory>(
    pre: &DynamicAllocator,
    mem: &M,
    post: &DynamicAllocator,
    after: &M,
    layout: Layout,
    block: u64,
    addr: int,
)
    requires
        pre.wf(mem),
        post.wf(after),
        pre.allocates(mem, post, after, layout, Some(block)),
        post.in_use(after, block as int, class_of(layout.need())),
    ensures
        within(addr, block as int, class_size(class_of(layout.need()))) ==> byte_free(
            pre,
            mem,
            addr,
        ),
        byte_free(post, after, addr) <==> byte_free(pre, mem, addr) && !within(
            addr,
            block as int,
            class_size(class_of(layout.need())),
        ),
{
    let class = class_of(layout.need());
    let size = class_size(class);
    lemma_class_of(layout.need());
    if within(addr, block as int, size) {
        law_block_in_use_not_free(post, after, block as int, class, addr);
    }
    if pre.free_blocks(class).len() > 0 {
        lemma_pop_takes_block(pre, mem, post, after, layout, block, addr);
    } else {
        lemma_page_takes_block(pre, mem, post, after, layout, block, addr);
    }
}

/// If there is no block for a layout, nothing has changed: exactly the same bytes are free.
pub proof fn law_failed_allocate_changes_nothing<M: LinearMemory>(
    pre: &DynamicAllocator,
    mem: &M,
    post: &DynamicAllocator,
    after: &M,
    layout: Layout,
)
    requires
        pre.allocates(mem, post, after, layout, None),
    ensures
        after.words() == mem.words(),
        forall|c: int|
            0 <= c < 10 ==> #[trigger] post.free_blocks(c) == pre.free_blocks(c),
        class_of(layout.need()) >= 10 || (pre.free_blocks(class_of(layout.need())).len() == 0
            && exhausted(pre.pmm, mem)),
{
    let class = class_of(layout.need());
    if class < 10 && pre.free_blocks(class).len() == 0 && !exhausted(pre.pmm, mem) {
        let page = lemma_lowest_exists(pre.pmm, mem);
        assert(is_lowest(pre.pmm, mem, page));
    }
}

/// After a block was given back, exactly the bytes are free that were free before or are part of
/// the block.
pub proof fn law_deallocate_frees_block<M: LinearMemory>(
    pre: &DynamicAllocator,
    mem: &M,
    post: &DynamicAllocator,
    after: &M,
    block: u64,
    class: int,
    addr: int,
)
    requires
        0 <= class < 10,
        pre.deallocates(mem, post, after, block, class),
    ensures
        byte_free(post, after, addr) <==> byte_free(pre, mem, addr) || within(
            addr,
            block as int,
            class_size(class),
        ),
{
    if in_free_block(post, addr) {
        let (c, i) = choose|c: int, i: int|
            0 <= c < 10 && 0 <= i < post.free_blocks(c).len() && within(
                addr,
                #[trigger] post.free_blocks(c)[i] as int,
                class_size(c),
            );
        if c == class {
            if i > 0 {
                assert(post.free_blocks(c)[i] == pre.free_blocks(c)[i - 1]);
            }
        } else {
            assert(post.free_blocks(c)[i] == pre.free_blocks(c)[i]);
        }
    }
    if in_free_block(pre, addr) {
        let (c, i) = choose|c: int, i: int|
            0 <= c < 10 && 0 <= i < pre.free_blocks(c).len() && within(
                addr,
                #[trigger] pre.free_blocks(c)[i] as int,
                class_size(c),
            );
        let k = if c == class { i + 1 } else { i };
        assert(post.free_blocks(c)[k] == pre.free_blocks(c)[i]);
    }
    if within(addr, block as int, class_size(class)) {
        assert(post.free_blocks(class)[0] == block);
    }
    if in_available_page(pre.pmm, mem, addr) {
        let p = choose|p: int|
            0 <= p < pre.pmm.bit_count() && #[trigger] pre.pmm.available(mem, p) && within(
                addr,
                page_start(mem, p),
                PAGE_SIZE as int,
            );
        assert(post.pmm.available(after, p));
    }
    if in_available_page(post.pmm, after, addr) {
        let p = choose|p: int|
            0 <= p < post.pmm.bit_count() && #[trigger] post.pmm.available(after, p) && within(
                addr,
                page_start(after, p),
                PAGE_SIZE as int,
            );
        assert(pre.pmm.available(mem, p));
    }
}

/// A block that was given back is the next one to be allocated for a layout of its size class,
/// and the free blocks are then those of before it was given back.
pub proof fn law_block_given_back_is_next<M: LinearMemory>(
    pre: &DynamicAllocator,
    mem: &M,
    mid: &DynamicAllocator,
    mid_mem: &M,
    post: &DynamicAllocator,
    after: &M,
    block: u64,
    layout: Layout,
    next: Option<u64>,
)
    requires
        class_of(layout.need()) < 10,
        pre.deallocates(mem, mid, mid_mem, block, class_of(layout.need())),
        mid.allocates(mid_mem, post, after, layout, next),
    ensures
        next == Some(block),
        forall|c: int|
            0 <= c < 10 ==> #[trigger] post.free_blocks(c) == pre.free_blocks(c),
        after.words() == mid_mem.words(),
{
    let class = class_of(layout.need());
    assert(mid.free_blocks(class).drop_first() =~= pre.free_blocks(class));
    assert forall|c: int| 0 <= c < 10 implies #[trigger] post.free_blocks(c) == pre.free_blocks(
        c,
    ) by {
        assert(mid.free_blocks(c) == mid.free_blocks(c));
    }
}

/// Pages are only acquired, and never released: a page that is available after an allocation was
/// available before.
pub proof fn law_pages_never_released<M: LinearMemory>(
    pre: &DynamicAllocator,
    mem: &M,
    post: &DynamicAllocator,
    after: &M,
    layout: Layout,
    block: Option<u64>,
    page: int,
)
    requires
        pre.wf(mem),
        pre.allocates(mem, post, after, layout, block),
        0 <= page < pre.pmm.bit_count(),
        pre.pmm.available(after, page),
    ensures
        pre.pmm.available(mem, page),
{
    let class = class_of(layout.need());
    if class < 10 && pre.free_blocks(class).len() == 0 && !exhausted(pre.pmm, mem) {
        let lowest = lemma_lowest_exists(pre.pmm, mem);
        assert(is_lowest(pre.pmm, mem, lowest));
    }
}

/// A block that is in use stays in use when another one is allocated, and the two do not
/// overlap.
#[verifier::rlimit(40)]
pub proof fn law_block_in_use_kept_by_allocate<M: LinearMemory>(
    pre: &DynamicAllocator,
    mem: &M,
    post: &DynamicAllocator,
    after: &M,
    layout: Layout,
    block: u64,
    other: int,
    other_class: int,
)
    requires
        pre.wf(mem),
        post.wf(after),
        pre.allocates(mem, post, after, layout, Some(block)),
        pre.in_use(mem, other, other_class),
    ensures
        post.in_use(after, other, other_class),
        apart(
            other,
            class_size(other_class),
            block as int,
            class_size(class_of(layout.need())),
        ),
{
    let class = class_of(layout.need());
    let size = class_size(class);
    lemma_class_of(layout.need());
    assert forall|p: int| 0 <= p < pre.pmm.bit_count() && #[trigger] pre.pmm.available(
        after,
        p,
    ) implies pre.pmm.available(mem, p) by {
        law_pages_never_released(pre, mem, post, after, layout, Some(block), p);
    }
    lemma_is_block_kept(pre.pmm, mem, after, other, class_size(other_class));
    lemma_block_in_page(pre.pmm, mem, other, other_class);
    let ghost mut page: int = 0;
    if pre.free_blocks(class).len() > 0 {
        lemma_in_use_apart(pre, mem, other, other_class, class, 0);
    } else {
        page = lemma_allocates_page(pre, mem, post, after, layout, block);
        lemma_page_blocks(mem, page, class);
        let own = (other - mem.base()) / (PAGE_SIZE as int);
        assert(own != page);
    }
    assert forall|d: int, j: int| 0 <= d < 10 && 0 <= j < post.free_blocks(d).len() implies apart(
        other,
        class_size(other_class),
        #[trigger] post.free_blocks(d)[j] as int,
        class_size(d),
    ) by {
        if d != class {
            assert(post.free_blocks(d)[j] == pre.free_blocks(d)[j]);
            lemma_in_use_apart(pre, mem, other, other_class, d, j);
        } else if pre.free_blocks(class).len() > 0 {
            assert(post.free_blocks(d)[j] == pre.free_blocks(d)[j + 1]);
            lemma_in_use_apart(pre, mem, other, other_class, d, j + 1);
        } else {
            let blocks = page_blocks(page_start(mem, page), size);
            assert(post.free_blocks(d)[j] == blocks[j + 1]);
        }
    }
    lemma_in_use_from_apart(post, after, other, other_class);
}

/// A block that overlaps no free block is in use.
proof fn lemma_in_use_from_apart<M: LinearMemory>(
    allocator: &DynamicAllocator,
    mem: &M,
    block: int,
    class: int,
)
    requires
        0 <= class < 10,
        is_block(allocator.pmm, mem, block, class_size(class)),
        forall|d: int, j: int|
            0 <= d < 10 && 0 <= j < allocator.free_blocks(d).len() ==> apart(
                block,
                class_size(class),
                #[trigger] allocator.free_blocks(d)[j] as int,
                class_size(d),
            ),
    ensures
        allocator.in_use(mem, block, class),
{
    lemma_class_size(class);
    lemma_block_in_page(allocator.pmm, mem, block, class);
    let state = allocator.state();
    assert forall|d: int, j: int|
        0 <= d < state.len() && d != class && 0 <= j < state[d].blocks@.len() implies apart(
        block,
        class_size(class),
        #[trigger] state[d].blocks@[j] as int,
        class_size(d),
    ) by {
        assert(state[d].blocks@[j] == allocator.free_blocks(d)[j]);
    }
    if state[class].blocks@.contains(block as u64) {
        let j = choose|j: int|
            0 <= j < state[class].blocks@.len() && state[class].blocks@[j] == block as u64;
        assert(allocator.free_blocks(class)[j] == block as u64);
    }
}

/// A block that is in use stays in use when another one, which it does not overlap, is given
/// back.
pub proof fn law_block_in_use_kept_by_deallocate<M: LinearMemory>(
    pre: &DynamicAllocator,
    mem: &M,
    post: &DynamicAllocator,
    after: &M,
    block: u64,
    class: int,
    other: int,
    other_class: int,
)
    requires
        pre.wf(mem),
        0 <= class < 10,
        pre.deallocates(mem, post, after, block, class),
        pre.in_use(mem, other, other_class),
        apart(other, class_size(other_class), block as int, class_size(class)),
    ensures
        post.in_use(after, other, other_class),
{
    lemma_is_block_kept(pre.pmm, mem, after, other, class_size(other_class));
    assert forall|d: int, j: int| 0 <= d < 10 && 0 <= j < post.free_blocks(d).len() implies apart(
        other,
        class_size(other_class),
        #[trigger] post.free_blocks(d)[j] as int,
        class_size(d),
    ) by {
        if d != class {
            assert(post.free_blocks(d)[j] == pre.free_blocks(d)[j]);
            lemma_in_use_apart(pre, mem, other, other_class, d, j);
        } else if j > 0 {
            assert(post.free_blocks(d)[j] == pre.free_blocks(d)[j - 1]);
            lemma_in_use_apart(pre, mem, other, other_class, d, j - 1);
        }
    }
    lemma_in_use_from_apart(post, after, other, other_class);
}

/// Whatever is written to a block that is in use, the allocator still works: neither its free
/// blocks nor the bitmap are touched.
#[verifier::rlimit(40)]
pub proof fn law_writes_to_block_in_use<M: LinearMemory>(
    allocator: &DynamicAllocator,
    mem: &M,
    after: &M,
    block: int,
    class: int,
)
    requires
        allocator.wf(mem),
        allocator.in_use(mem, block, class),
        after.base() == mem.base(),
        after.words().len() == mem.words().len(),
        forall|w: int|
            0 <= w < mem.words().len() && !within(
                mem.base() + 8 * w,
                block,
                class_size(class),
            ) ==> #[trigger] after.words()[w] == mem.words()[w],
    ensures
        allocator.wf(after),
        forall|p: int|
            0 <= p < allocator.pmm.bit_count() ==> #[trigger] allocator.pmm.available(after, p)
                == allocator.pmm.available(mem, p),
{
    let pmm = allocator.pmm;
    let state = allocator.state();
    lemma_block_in_page(pmm, mem, block, class);
    let page = (block - mem.base()) / (PAGE_SIZE as int);
    assert(page_ready(pmm, mem, page));
    assert forall|w: int| #[trigger] pmm.holds_word(mem, w) implies after.words()[w]
        == mem.words()[w] by {
        if within(mem.base() + 8 * w, block, class_size(class)) {
            assert(word_in_page(w, page));
        }
    }
    assert forall|c: int, i: int| 0 <= c < 10 && 0 <= i < state[c].blocks@.len() implies {
        let w = word_index(mem.base(), #[trigger] state[c].blocks@[i] as int);
        after.words()[w] == mem.words()[w]
    } by {
        lemma_in_use_apart(allocator, mem, block, class, c, i);
        lemma_free_block(allocator, mem, c, i);
        lemma_class_size(c);
        lemma_block_in_page(pmm, mem, allocator.free_blocks(c)[i] as int, c);
        let w = word_index(mem.base(), state[c].blocks@[i] as int);
        assert(mem.base() + 8 * w == state[c].blocks@[i]);
    }
    lemma_heap_kept(pmm, state, mem, after);
}

} // verus!
