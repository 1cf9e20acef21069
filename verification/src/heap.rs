//! What holds of the freelists of all size classes together.

use vstd::arithmetic::power2::{
    lemma_pow2_adds, lemma_pow2_pos, lemma_pow2_strictly_increases, pow2,
};
use vstd::prelude::*;

use crate::freelist::{
    is_lowest, page_blocks, page_ready, page_start, pages_ready, word_in_page, Freelist,
};
use crate::layout::{class_size, lemma_class_size, power_of_two, MIN_POWER};
use crate::memory::{word_in, word_index, LinearMemory};
use crate::phys_alloc::PhysicalMemoryManager;
use crate::PAGE_SIZE;

verus! {

/// Whether the `a_size` bytes at `a` and the `b_size` bytes at `b` do not overlap.
pub open spec fn apart(a: int, a_size: int, b: int, b_size: int) -> bool {
    a + a_size <= b || b + b_size <= a
}

/// Whether page `page` is one of the manager's, is memory that can be used, and is allocated.
pub open spec fn page_owned<M: LinearMemory>(
    pmm: &PhysicalMemoryManager,
    mem: &M,
    page: int,
) -> bool {
    &&& 0 <= page < pmm.bit_count()
    &&& page_ready(pmm, mem, page)
    &&& !pmm.available(mem, page)
}

/// Whether `block` is the address of a block of `size` bytes: one of those that an allocated
/// page is split up into.
pub open spec fn is_block<M: LinearMemory>(
    pmm: &PhysicalMemoryManager,
    mem: &M,
    block: int,
    size: int,
) -> bool {
    &&& mem.base() <= block
    &&& (block - mem.base()) % size == 0
    &&& page_owned(pmm, mem, (block - mem.base()) / (PAGE_SIZE as int))
}

/// Whether the list holds blocks of a size class.
pub open spec fn list_ok<M: LinearMemory>(
    pmm: &PhysicalMemoryManager,
    list: Freelist,
    mem: &M,
    class: int,
) -> bool {
    &&& list.block_size == class_size(class)
    &&& list.linked(mem)
    &&& forall|i: int|
        0 <= i < list.blocks@.len() ==> is_block(
            pmm,
            mem,
            #[trigger] list.blocks@[i] as int,
            class_size(class),
        )
}

/// Whether a block of a size class overlaps no block of any other list.
pub open spec fn apart_from_others(state: Seq<Freelist>, block: int, class: int) -> bool {
    forall|d: int, j: int|
        0 <= d < state.len() && d != class && 0 <= j < state[d].blocks@.len() ==> apart(
            block,
            class_size(class),
            #[trigger] state[d].blocks@[j] as int,
            class_size(d),
        )
}

/// Whether the lists, one for each size class, are in order: the pages are memory that can be
/// used, each list holds blocks of its class, and no two blocks overlap.
pub open spec fn heap_wf<M: LinearMemory>(
    pmm: &PhysicalMemoryManager,
    state: Seq<Freelist>,
    mem: &M,
) -> bool {
    &&& pages_ready(pmm, mem)
    &&& state.len() == 10
    &&& forall|c: int| 0 <= c < 10 ==> list_ok(pmm, #[trigger] state[c], mem, c)
    &&& forall|c: int, i: int|
        0 <= c < 10 && 0 <= i < state[c].blocks@.len() ==> apart_from_others(
            state,
            #[trigger] state[c].blocks@[i] as int,
            c,
        )
}

/// Whether `block` is a block of the size class that overlaps no free block.
pub open spec fn block_in_use<M: LinearMemory>(
    pmm: &PhysicalMemoryManager,
    state: Seq<Freelist>,
    mem: &M,
    block: int,
    class: int,
) -> bool {
    &&& 0 <= class < 10
    &&& is_block(pmm, mem, block, class_size(class))
    &&& apart_from_others(state, block, class)
    &&& !state[class].blocks@.contains(block as u64)
}

/// A block of a size class lies in a single page.
pub(crate) proof fn lemma_block_in_page<M: LinearMemory>(
    pmm: &PhysicalMemoryManager,
    mem: &M,
    block: int,
    class: int,
)
    requires
        0 <= class < 10,
        is_block(pmm, mem, block, class_size(class)),
    ensures
        ({
            let page = (block - mem.base()) / (PAGE_SIZE as int);
            &&& 0 < page_start(mem, page) <= block
            &&& block + class_size(class) <= page_start(mem, page) + PAGE_SIZE <= u64::MAX
            &&& word_in(mem.base(), mem.words().len(), block)
            &&& word_in_page(word_index(mem.base(), block), page)
            &&& !pmm.holds_word(mem, word_index(mem.base(), block))
        }),
{
    let offset = block - mem.base();
    let size = class_size(class);
    lemma_class_size(class);
    let quotient = PAGE_SIZE as int / size;
    let page = offset / (PAGE_SIZE as int);
    let inner = offset % (PAGE_SIZE as int);
    vstd::arithmetic::div_mod::lemma_fundamental_div_mod(PAGE_SIZE as int, size);
    vstd::arithmetic::div_mod::lemma_fundamental_div_mod(offset, size);
    let k = offset / size;
    assert(inner == size * (k - page * quotient)) by (nonlinear_arith)
        requires
            offset == PAGE_SIZE * page + inner,
            offset == size * k,
            PAGE_SIZE == size * quotient,
    ;
    assert(inner + size <= PAGE_SIZE) by (nonlinear_arith)
        requires
            inner == size * (k - page * quotient),
            inner < PAGE_SIZE,
            PAGE_SIZE == size * quotient,
            size > 0,
    ;
    let m = size / 8;
    assert(offset == 8 * (m * k)) by (nonlinear_arith)
        requires
            offset == size * k,
            size == 8 * m,
    ;
    assert(word_in_page(word_index(mem.base(), block), offset / (PAGE_SIZE as int)));
}

/// Two different blocks of the same size class do not overlap.
pub(crate) proof fn lemma_same_class_apart<M: LinearMemory>(
    pmm: &PhysicalMemoryManager,
    mem: &M,
    a: int,
    b: int,
    class: int,
)
    requires
        0 <= class < 10,
        a != b,
        is_block(pmm, mem, a, class_size(class)),
        is_block(pmm, mem, b, class_size(class)),
    ensures
        apart(a, class_size(class), b, class_size(class)),
{
    let size = class_size(class);
    let i = (a - mem.base()) / size;
    let j = (b - mem.base()) / size;
    lemma_class_size(class);
    vstd::arithmetic::div_mod::lemma_fundamental_div_mod(a - mem.base(), size);
    vstd::arithmetic::div_mod::lemma_fundamental_div_mod(b - mem.base(), size);
    assert(a + size <= b || b + size <= a) by (nonlinear_arith)
        requires
            a - mem.base() == size * i,
            b - mem.base() == size * j,
            a != b,
            size > 0,
    ;
}

/// What memory has been handed out stays so while pages are only handed out.
pub(crate) proof fn lemma_is_block_kept<M: LinearMemory>(
    pmm: &PhysicalMemoryManager,
    mem: &M,
    after: &M,
    block: int,
    size: int,
)
    requires
        is_block(pmm, mem, block, size),
        after.base() == mem.base(),
        after.words().len() == mem.words().len(),
        forall|p: int|
            0 <= p < pmm.bit_count() && #[trigger] pmm.available(after, p) ==> pmm.available(mem, p),
    ensures
        is_block(pmm, after, block, size),
{
    let page = (block - mem.base()) / (PAGE_SIZE as int);
    assert(page_owned(pmm, mem, page));
    assert forall|w: int| word_in_page(w, page) implies !#[trigger] pmm.holds_word(after, w) by {
        assert(!pmm.holds_word(mem, w));
    }
}

/// A list stays in order while the words of its blocks stay as they are, and pages are only
/// handed out.
pub(crate) proof fn lemma_list_kept<M: LinearMemory>(
    pmm: &PhysicalMemoryManager,
    list: Freelist,
    mem: &M,
    after: &M,
    class: int,
)
    requires
        list_ok(pmm, list, mem, class),
        after.base() == mem.base(),
        after.words().len() == mem.words().len(),
        forall|p: int|
            0 <= p < pmm.bit_count() && #[trigger] pmm.available(after, p) ==> pmm.available(mem, p),
        forall|i: int|
            0 <= i < list.blocks@.len() ==> {
                let w = word_index(mem.base(), #[trigger] list.blocks@[i] as int);
                after.words()[w] == mem.words()[w]
            },
    ensures
        list_ok(pmm, list, after, class),
{
    assert forall|i: int| 0 <= i < list.blocks@.len() implies is_block(
        pmm,
        after,
        #[trigger] list.blocks@[i] as int,
        class_size(class),
    ) by {
        lemma_is_block_kept(pmm, mem, after, list.blocks@[i] as int, class_size(class));
    }
}

/// The pages stay memory that can be used while pages are only handed out.
pub(crate) proof fn lemma_pages_kept<M: LinearMemory>(pmm: &PhysicalMemoryManager, mem: &M, after: &M)
    requires
        pages_ready(pmm, mem),
        after.base() == mem.base(),
        after.words().len() == mem.words().len(),
        forall|p: int|
            0 <= p < pmm.bit_count() && #[trigger] pmm.available(after, p) ==> pmm.available(mem, p),
    ensures
        pages_ready(pmm, after),
{
    assert forall|p: int| 0 <= p < pmm.bit_count() && #[trigger] pmm.available(after, p) implies
        page_ready(pmm, after, p) by {
        assert(page_ready(pmm, mem, p));
        assert forall|w: int| word_in_page(w, p) implies !#[trigger] pmm.holds_word(after, w) by {
            assert(!pmm.holds_word(mem, w));
        }
    }
}

/// Which pages are available stays the same while the bitmap stays as it is.
pub(crate) proof fn lemma_available_kept<M: LinearMemory>(pmm: &PhysicalMemoryManager, mem: &M, after: &M)
    requires
        pmm.wf(mem),
        after.base() == mem.base(),
        after.words().len() == mem.words().len(),
        forall|w: int|
            #[trigger] pmm.holds_word(mem, w) ==> after.words()[w] == mem.words()[w],
    ensures
        forall|p: int|
            0 <= p < pmm.bit_count() ==> #[trigger] pmm.available(after, p) == pmm.available(mem, p),
{
    assert forall|p: int| 0 <= p < pmm.bit_count() implies #[trigger] pmm.available(after, p)
        == pmm.available(mem, p) by {
        assert(pmm.holds_word(mem, pmm.first_word(mem) + p / 64));
    }
}

/// Taking the first block out of a list keeps the lists in order, and the block is in use then.
#[verifier::rlimit(40)]
pub(crate) proof fn lemma_pop<M: LinearMemory>(
    pmm: &PhysicalMemoryManager,
    state: Seq<Freelist>,
    mem: &M,
    class: int,
    list: Freelist,
)
    requires
        heap_wf(pmm, state, mem),
        0 <= class < 10,
        state[class].blocks@.len() > 0,
        list.linked(mem),
        list.block_size == state[class].block_size,
        list.blocks@ == state[class].blocks@.drop_first(),
    ensures
        heap_wf(pmm, state.update(class, list), mem),
        block_in_use(
            pmm,
            state.update(class, list),
            mem,
            state[class].blocks@[0] as int,
            class,
        ),
{
    let after = state.update(class, list);
    let blocks = state[class].blocks@;
    assert forall|i: int| 0 <= i < list.blocks@.len() implies is_block(
        pmm,
        mem,
        #[trigger] list.blocks@[i] as int,
        class_size(class),
    ) by {
        assert(list.blocks@[i] == blocks[i + 1]);
    }
    assert forall|c: int, i: int| 0 <= c < 10 && 0 <= i < after[c].blocks@.len() implies
        apart_from_others(after, #[trigger] after[c].blocks@[i] as int, c) by {
        let k = if c == class { i + 1 } else { i };
        assert(after[c].blocks@[i] == state[c].blocks@[k]);
        assert(apart_from_others(state, state[c].blocks@[k] as int, c));
        lemma_apart_after_pop(state, list, class, after[c].blocks@[i] as int, c);
    }
    assert(apart_from_others(state, state[class].blocks@[0] as int, class));
    lemma_apart_after_pop(state, list, class, blocks[0] as int, class);
    assert(!list.blocks@.contains(blocks[0])) by {
        if list.blocks@.contains(blocks[0]) {
            let i = choose|i: int| 0 <= i < list.blocks@.len() && list.blocks@[i] == blocks[0];
            assert(blocks[i + 1] == blocks[0]);
        }
    }
    assert(is_block(pmm, mem, state[class].blocks@[0] as int, class_size(class)));
}

/// A block that overlaps no block of the other lists still does so with a block less.
#[verifier::rlimit(40)]
pub(crate) proof fn lemma_apart_after_pop(
    state: Seq<Freelist>,
    list: Freelist,
    class: int,
    block: int,
    c: int,
)
    requires
        0 <= class < state.len(),
        state[class].blocks@.len() > 0,
        list.blocks@ == state[class].blocks@.drop_first(),
        apart_from_others(state, block, c),
    ensures
        apart_from_others(state.update(class, list), block, c),
{
    let after = state.update(class, list);
    assert forall|d: int, j: int|
        0 <= d < after.len() && d != c && 0 <= j < after[d].blocks@.len() implies apart(
        block,
        class_size(c),
        #[trigger] after[d].blocks@[j] as int,
        class_size(d),
    ) by {
        let k = if d == class { j + 1 } else { j };
        assert(after[d].blocks@[j] == state[d].blocks@[k]);
    }
}

/// The blocks that a page is split up into lie in the page, aligned to their size.
pub(crate) proof fn lemma_page_blocks<M: LinearMemory>(mem: &M, page: int, class: int)
    requires
        0 <= class < 10,
        0 <= page,
        0 < page_start(mem, page),
        page_start(mem, page) + PAGE_SIZE <= u64::MAX,
    ensures
        ({
            let blocks = page_blocks(page_start(mem, page), class_size(class));
            &&& blocks.len() > 0
            &&& forall|i: int|
                0 <= i < blocks.len() ==> {
                    &&& page_start(mem, page) <= #[trigger] blocks[i]
                    &&& blocks[i] + class_size(class) <= page_start(mem, page) + PAGE_SIZE
                    &&& (blocks[i] - mem.base()) % class_size(class) == 0
                    &&& (blocks[i] - mem.base()) / (PAGE_SIZE as int) == page
                }
        }),
{
    let size = class_size(class);
    let blocks = page_blocks(page_start(mem, page), size);
    let count = PAGE_SIZE as int / size;
    lemma_class_size(class);
    vstd::arithmetic::div_mod::lemma_fundamental_div_mod(PAGE_SIZE as int, size);
    assert(count > 0) by (nonlinear_arith)
        requires
            PAGE_SIZE == size * count,
            size > 0,
    ;
    assert forall|i: int| 0 <= i < blocks.len() implies {
        &&& page_start(mem, page) <= #[trigger] blocks[i]
        &&& blocks[i] + size <= page_start(mem, page) + PAGE_SIZE
        &&& (blocks[i] - mem.base()) % size == 0
        &&& (blocks[i] - mem.base()) / (PAGE_SIZE as int) == page
    } by {
        assert(size <= (i + 1) * size <= PAGE_SIZE) by (nonlinear_arith)
            requires
                0 <= i < count,
                PAGE_SIZE == size * count,
                size > 0,
        ;
        let offset = page * PAGE_SIZE + PAGE_SIZE - (i + 1) * size;
        assert(offset == size * ((page + 1) * count - (i + 1))) by (nonlinear_arith)
            requires
                offset == page * PAGE_SIZE + PAGE_SIZE - (i + 1) * size,
                PAGE_SIZE == size * count,
        ;
        vstd::arithmetic::div_mod::lemma_mod_multiples_basic((page + 1) * count - (i + 1), size);
        assert(offset % size == 0) by {
            assert(size * ((page + 1) * count - (i + 1)) == ((page + 1) * count - (i + 1)) * size)
                by (nonlinear_arith);
        }
    }
}

/// Splitting up a new page keeps the lists in order.
#[verifier::rlimit(40)]
pub(crate) proof fn lemma_new_page<M: LinearMemory>(
    pmm: &PhysicalMemoryManager,
    state: Seq<Freelist>,
    mem: &M,
    after: &M,
    class: int,
    page: int,
    list: Freelist,
)
    requires
        heap_wf(pmm, state, mem),
        0 <= class < 10,
        state[class].blocks@.len() == 0,
        is_lowest(pmm, mem, page),
        pmm.wf(after),
        after.base() == mem.base(),
        after.words().len() == mem.words().len(),
        pmm.takes(mem, page, after),
        forall|w: int|
            0 <= w < mem.words().len() && !pmm.holds_word(mem, w) && !word_in_page(w, page)
                ==> #[trigger] after.words()[w] == mem.words()[w],
        list.linked(after),
        list.block_size == class_size(class),
        list.blocks@ == page_blocks(page_start(mem, page), class_size(class)),
    ensures
        heap_wf(pmm, state.update(class, list), after),
{
    let next = state.update(class, list);
    let start = page_start(mem, page);
    assert(page_ready(pmm, mem, page));
    lemma_page_blocks(mem, page, class);
    lemma_pages_kept(pmm, mem, after);
    assert(page_owned(pmm, after, page)) by {
        assert forall|w: int| word_in_page(w, page) implies !#[trigger] pmm.holds_word(
            after,
            w,
        ) by {
            assert(!pmm.holds_word(mem, w));
        }
        assert(!pmm.available(after, page));
    }

    // The free blocks of before lie in other pages.
    assert forall|d: int, j: int| 0 <= d < 10 && 0 <= j < state[d].blocks@.len() implies {
        let block = #[trigger] state[d].blocks@[j] as int;
        let w = word_index(mem.base(), block);
        &&& block + class_size(d) <= start || start + PAGE_SIZE <= block
        &&& after.words()[w] == mem.words()[w]
    } by {
        let block = state[d].blocks@[j] as int;
        assert(list_ok(pmm, state[d], mem, d));
        assert(is_block(pmm, mem, state[d].blocks@[j] as int, class_size(d)));
        lemma_block_in_page(pmm, mem, block, d);
        let other = (block - mem.base()) / (PAGE_SIZE as int);
        assert(other != page);
    }

    assert forall|c: int| 0 <= c < 10 implies list_ok(pmm, #[trigger] next[c], after, c) by {
        if c != class {
            assert(list_ok(pmm, state[c], mem, c));
            assert forall|i: int| 0 <= i < state[c].blocks@.len() implies {
                let w = word_index(mem.base(), #[trigger] state[c].blocks@[i] as int);
                after.words()[w] == mem.words()[w]
            } by {}
            lemma_list_kept(pmm, state[c], mem, after, c);
        }
    }
    assert forall|c: int, i: int| 0 <= c < 10 && 0 <= i < next[c].blocks@.len() implies
        apart_from_others(next, #[trigger] next[c].blocks@[i] as int, c) by {
        let block = next[c].blocks@[i] as int;
        assert forall|d: int, j: int|
            0 <= d < next.len() && d != c && 0 <= j < next[d].blocks@.len() implies apart(
            block,
            class_size(c),
            #[trigger] next[d].blocks@[j] as int,
            class_size(d),
        ) by {
            if c == class {
                assert(next[d].blocks@[j] == state[d].blocks@[j]);
                assert(list.blocks@[i] == block);
            } else if d == class {
                assert(state[c].blocks@[i] == block);
                assert(list.blocks@[j] == next[d].blocks@[j]);
            } else {
                assert(apart_from_others(state, state[c].blocks@[i] as int, c));
                assert(next[d].blocks@[j] == state[d].blocks@[j]);
            }
        }
    }
}

/// Putting a block that was in use in front of its list keeps the lists in order.
#[verifier::rlimit(40)]
pub(crate) proof fn lemma_push<M: LinearMemory>(
    pmm: &PhysicalMemoryManager,
    state: Seq<Freelist>,
    mem: &M,
    after: &M,
    class: int,
    block: u64,
    value: u64,
    list: Freelist,
)
    requires
        heap_wf(pmm, state, mem),
        block_in_use(pmm, state, mem, block as int, class),
        after.base() == mem.base(),
        after.words() == mem.words().update(word_index(mem.base(), block as int), value),
        list.linked(after),
        list.block_size == class_size(class),
        list.blocks@ == seq![block] + state[class].blocks@,
    ensures
        heap_wf(pmm, state.update(class, list), after),
        forall|p: int|
            0 <= p < pmm.bit_count() ==> #[trigger] pmm.available(after, p) == pmm.available(mem, p),
{
    let next = state.update(class, list);
    lemma_block_in_page(pmm, mem, block as int, class);
    assert forall|w: int| #[trigger] pmm.holds_word(mem, w) implies after.words()[w]
        == mem.words()[w] by {
        assert(w != word_index(mem.base(), block as int));
    }
    lemma_available_kept(pmm, mem, after);
    lemma_pages_kept(pmm, mem, after);

    assert forall|i: int| 0 <= i < list.blocks@.len() implies is_block(
        pmm,
        after,
        #[trigger] list.blocks@[i] as int,
        class_size(class),
    ) by {
        if i > 0 {
            assert(list.blocks@[i] == state[class].blocks@[i - 1]);
            assert(list_ok(pmm, state[class], mem, class));
            assert(is_block(
                pmm,
                mem,
                state[class].blocks@[i - 1] as int,
                class_size(class),
            ));
        }
        lemma_is_block_kept(pmm, mem, after, list.blocks@[i] as int, class_size(class));
    }
    assert forall|c: int| 0 <= c < 10 implies list_ok(pmm, #[trigger] next[c], after, c) by {
        if c != class {
            assert(list_ok(pmm, state[c], mem, c));
            assert forall|i: int| 0 <= i < state[c].blocks@.len() implies {
                let w = word_index(mem.base(), #[trigger] state[c].blocks@[i] as int);
                after.words()[w] == mem.words()[w]
            } by {
                lemma_class_size(c);
                lemma_class_size(class);
                assert(apart(
                    block as int,
                    class_size(class),
                    state[c].blocks@[i] as int,
                    class_size(c),
                ));
                lemma_block_in_page(pmm, mem, state[c].blocks@[i] as int, c);
            }
            lemma_list_kept(pmm, state[c], mem, after, c);
        }
    }
    assert forall|c: int, i: int| 0 <= c < 10 && 0 <= i < next[c].blocks@.len() implies
        apart_from_others(next, #[trigger] next[c].blocks@[i] as int, c) by {
        let other = next[c].blocks@[i] as int;
        assert forall|d: int, j: int|
            0 <= d < next.len() && d != c && 0 <= j < next[d].blocks@.len() implies apart(
            other,
            class_size(c),
            #[trigger] next[d].blocks@[j] as int,
            class_size(d),
        ) by {
            if c == class {
                assert(next[d].blocks@[j] == state[d].blocks@[j]);
                if i > 0 {
                    assert(other == state[c].blocks@[i - 1]);
                    assert(apart_from_others(state, state[c].blocks@[i - 1] as int, c));
                } else {
                    assert(other == block);
                }
            } else {
                assert(other == state[c].blocks@[i]);
                assert(apart_from_others(state, state[c].blocks@[i] as int, c));
                if d == class {
                    if j > 0 {
                        assert(next[d].blocks@[j] == state[d].blocks@[j - 1]);
                    } else {
                        assert(next[d].blocks@[j] == block);
                        assert(apart(
                            block as int,
                            class_size(class),
                            state[c].blocks@[i] as int,
                            class_size(c),
                        ));
                    }
                } else {
                    assert(next[d].blocks@[j] == state[d].blocks@[j]);
                }
            }
        }
    }
}

/// The lists stay in order while the bitmap and the first words of the free blocks stay as they
/// are.
pub(crate) proof fn lemma_heap_kept<M: LinearMemory>(
    pmm: &PhysicalMemoryManager,
    state: Seq<Freelist>,
    mem: &M,
    after: &M,
)
    requires
        heap_wf(pmm, state, mem),
        after.base() == mem.base(),
        after.words().len() == mem.words().len(),
        forall|w: int| #[trigger] pmm.holds_word(mem, w) ==> after.words()[w] == mem.words()[w],
        forall|c: int, i: int|
            0 <= c < 10 && 0 <= i < state[c].blocks@.len() ==> {
                let w = word_index(mem.base(), #[trigger] state[c].blocks@[i] as int);
                after.words()[w] == mem.words()[w]
            },
    ensures
        heap_wf(pmm, state, after),
        forall|p: int|
            0 <= p < pmm.bit_count() ==> #[trigger] pmm.available(after, p) == pmm.available(mem, p),
{
    lemma_available_kept(pmm, mem, after);
    lemma_pages_kept(pmm, mem, after);
    assert forall|c: int| 0 <= c < 10 implies list_ok(pmm, #[trigger] state[c], after, c) by {
        assert forall|i: int| 0 <= i < state[c].blocks@.len() implies {
            let w = word_index(mem.base(), #[trigger] state[c].blocks@[i] as int);
            after.words()[w] == mem.words()[w]
        } by {}
        lemma_list_kept(pmm, state[c], mem, after, c);
    }
}

/// Each block is aligned to its size, if the pages are aligned, and so it is aligned to any
/// smaller power of two.
pub(crate) proof fn lemma_block_aligned<M: LinearMemory>(
    pmm: &PhysicalMemoryManager,
    mem: &M,
    block: int,
    class: int,
    align: int,
)
    requires
        0 <= class < 10,
        is_block(pmm, mem, block, class_size(class)),
        mem.base() % PAGE_SIZE == 0,
        power_of_two(align),
        align <= class_size(class),
    ensures
        block % align == 0,
{
    let k = choose|k: nat| align == #[trigger] pow2(k);
    let n = (class + MIN_POWER) as nat;
    let size = class_size(class);
    if k > n {
        lemma_pow2_strictly_increases(n, k);
    }
    lemma_class_size(class);
    lemma_pow2_pos(k);
    lemma_pow2_adds(k, (n - k) as nat);
    let m = pow2((n - k) as nat) as int;
    let q = PAGE_SIZE as int / size;
    let b = mem.base() as int / (PAGE_SIZE as int);
    let i = (block - mem.base()) / size;
    vstd::arithmetic::div_mod::lemma_fundamental_div_mod(PAGE_SIZE as int, size);
    vstd::arithmetic::div_mod::lemma_fundamental_div_mod(block - mem.base(), size);
    assert(block == align * (m * (q * b + i))) by (nonlinear_arith)
        requires
            block - mem.base() == size * i,
            mem.base() == PAGE_SIZE * b,
            PAGE_SIZE == size * q,
            size == align * m,
    ;
    vstd::arithmetic::div_mod::lemma_mod_multiples_basic(m * (q * b + i), align);
    assert(align * (m * (q * b + i)) == (m * (q * b + i)) * align) by (nonlinear_arith);
}

} // verus!
