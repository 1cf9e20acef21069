//! What holds of a heap over a whole history of allocations.

use vstd::prelude::*;

use crate::dynamic_alloc::DynamicAllocator;
use crate::freelist::{page_start, word_in_page};
use crate::heap::{apart, lemma_block_in_page, lemma_is_block_kept};
use crate::heap_laws::{
    byte_free, in_available_page, in_free_block, law_allocate_takes_block,
    law_block_in_use_kept_by_allocate, law_block_in_use_kept_by_deallocate,
    law_block_in_use_not_free, law_blocks_lie_in_allocated_pages, law_deallocate_frees_block,
    law_failed_allocate_changes_nothing, law_writes_to_block_in_use, lemma_allocates_page, within,
};
use crate::layout::{class_of, class_size, lemma_class_of, lemma_class_size, Layout};
use crate::memory::LinearMemory;
use crate::PAGE_SIZE;

verus! {

/// A block, and its size class.
#[verifier::ext_equal]
pub struct Block {
    pub addr: u64,
    pub class: int,
}

impl Block {
    /// Whether `addr` is the address of a byte of the block.
    pub open spec fn holds(self, addr: int) -> bool {
        within(addr, self.addr as int, class_size(self.class))
    }
}

/// Something that happens to a heap.
pub enum HeapOp {
    /// A block is asked for. There may be none.
    Allocate(Layout, Option<u64>),
    /// A block is given back.
    Deallocate(Block),
    /// The user of a block writes to it.
    Write(Block),
}

/// A heap: the allocator, and the memory that it works on.
pub struct HeapState<'a, M> {
    pub allocator: DynamicAllocator<'a>,
    pub mem: M,
}

/// Whether `op` takes a heap from one state to the next: an allocation and a deallocation do
/// what [`DynamicAllocator::allocate`] and [`DynamicAllocator::deallocate`] say, and a write
/// changes the words of its block only.
pub open spec fn heap_step<M: LinearMemory>(
    pre: HeapState<'_, M>,
    op: HeapOp,
    post: HeapState<'_, M>,
) -> bool {
    match op {
        HeapOp::Allocate(layout, block) => {
            &&& pre.allocator.allocates(&pre.mem, &post.allocator, &post.mem, layout, block)
            &&& post.allocator.wf(&post.mem)
            &&& block matches Some(addr) ==> post.allocator.in_use(
                &post.mem,
                addr as int,
                class_of(layout.need()),
            )
        },
        HeapOp::Deallocate(block) => {
            &&& 0 <= block.class < 10
            &&& pre.allocator.deallocates(
                &pre.mem,
                &post.allocator,
                &post.mem,
                block.addr,
                block.class,
            )
            &&& post.allocator.wf(&post.mem)
        },
        HeapOp::Write(block) => {
            &&& post.allocator == pre.allocator
            &&& post.mem.base() == pre.mem.base()
            &&& post.mem.words().len() == pre.mem.words().len()
            &&& forall|w: int|
                0 <= w < pre.mem.words().len() && !block.holds(pre.mem.base() + 8 * w)
                    ==> #[trigger] post.mem.words()[w] == pre.mem.words()[w]
        },
    }
}

/// The blocks that have been allocated by the first `n` operations, and not been given back.
pub open spec fn live_blocks(ops: Seq<HeapOp>, n: int) -> Set<Block>
    decreases n,
{
    if n <= 0 {
        Set::empty()
    } else {
        let before = live_blocks(ops, n - 1);
        match ops[n - 1] {
            HeapOp::Allocate(layout, Some(addr)) => before.insert(
                Block { addr, class: class_of(layout.need()) },
            ),
            HeapOp::Allocate(_, None) => before,
            HeapOp::Deallocate(block) => before.remove(block),
            HeapOp::Write(_) => before,
        }
    }
}

/// Whether `ops` take a heap from each of the `states` to the next one, and only blocks that
/// have been allocated are given back and written.
pub open spec fn heap_history<M: LinearMemory>(
    states: Seq<HeapState<'_, M>>,
    ops: Seq<HeapOp>,
) -> bool {
    &&& states.len() == ops.len() + 1
    &&& states[0].allocator.wf(&states[0].mem)
    &&& forall|i: int|
        0 <= i < ops.len() ==> heap_step(states[i], #[trigger] ops[i], states[i + 1])
    &&& forall|i: int|
        0 <= i < ops.len() ==> match #[trigger] ops[i] {
            HeapOp::Allocate(_, _) => true,
            HeapOp::Deallocate(block) => live_blocks(ops, i).contains(block),
            HeapOp::Write(block) => live_blocks(ops, i).contains(block),
        }
}

/// Whether all of the blocks are in use, and no two of them overlap.
pub open spec fn all_in_use<M: LinearMemory>(
    state: HeapState<'_, M>,
    blocks: Set<Block>,
) -> bool {
    &&& forall|b: Block| #[trigger]
        blocks.contains(b) ==> state.allocator.in_use(&state.mem, b.addr as int, b.class)
    &&& forall|b: Block, c: Block| #[trigger]
        blocks.contains(b) && #[trigger] blocks.contains(c) && b != c ==> apart(
            b.addr as int,
            class_size(b.class),
            c.addr as int,
            class_size(c.class),
        )
}

/// A write to a block that is in use keeps all of the blocks that are in use.
proof fn lemma_write_keeps_in_use<M: LinearMemory>(
    pre: HeapState<'_, M>,
    post: HeapState<'_, M>,
    block: Block,
    blocks: Set<Block>,
)
    requires
        pre.allocator.wf(&pre.mem),
        heap_step(pre, HeapOp::Write(block), post),
        all_in_use(pre, blocks),
        blocks.contains(block),
    ensures
        post.allocator.wf(&post.mem),
        all_in_use(post, blocks),
        forall|addr: int|
            byte_free(&post.allocator, &post.mem, addr) == byte_free(
                &pre.allocator,
                &pre.mem,
                addr,
            ),
{
    let pmm = pre.allocator.pmm;
    assert forall|w: int|
        0 <= w < pre.mem.words().len() && !within(
            pre.mem.base() + 8 * w,
            block.addr as int,
            class_size(block.class),
        ) implies #[trigger] post.mem.words()[w] == pre.mem.words()[w] by {
        assert(!block.holds(pre.mem.base() + 8 * w));
    }
    law_writes_to_block_in_use(
        &pre.allocator,
        &pre.mem,
        &post.mem,
        block.addr as int,
        block.class,
    );
    assert forall|b: Block| #[trigger] blocks.contains(b) implies post.allocator.in_use(
        &post.mem,
        b.addr as int,
        b.class,
    ) by {
        assert(pre.allocator.in_use(&pre.mem, b.addr as int, b.class));
        lemma_is_block_kept(pmm, &pre.mem, &post.mem, b.addr as int, class_size(b.class));
    }
    assert forall|addr: int|
        in_available_page(pmm, &post.mem, addr) == in_available_page(pmm, &pre.mem, addr) by {
        if in_available_page(pmm, &pre.mem, addr) {
            let p = choose|p: int|
                0 <= p < pmm.bit_count() && #[trigger] pmm.available(&pre.mem, p) && within(
                    addr,
                    page_start(&pre.mem, p),
                    PAGE_SIZE as int,
                );
            assert(pmm.available(&post.mem, p));
        }
        if in_available_page(pmm, &post.mem, addr) {
            let p = choose|p: int|
                0 <= p < pmm.bit_count() && #[trigger] pmm.available(&post.mem, p) && within(
                    addr,
                    page_start(&post.mem, p),
                    PAGE_SIZE as int,
                );
            assert(pmm.available(&pre.mem, p));
        }
    }
}

/// One more operation keeps the blocks in use and apart.
#[verifier::rlimit(40)]
proof fn lemma_step_keeps_in_use<M: LinearMemory>(
    pre: HeapState<'_, M>,
    op: HeapOp,
    post: HeapState<'_, M>,
    blocks: Set<Block>,
)
    requires
        pre.allocator.wf(&pre.mem),
        heap_step(pre, op, post),
        all_in_use(pre, blocks),
        match op {
            HeapOp::Allocate(_, _) => true,
            HeapOp::Deallocate(block) => blocks.contains(block),
            HeapOp::Write(block) => blocks.contains(block),
        },
    ensures
        post.allocator.wf(&post.mem),
        match op {
            HeapOp::Allocate(layout, Some(addr)) => {
                let block = Block { addr, class: class_of(layout.need()) };
                &&& !blocks.contains(block)
                &&& all_in_use(post, blocks.insert(block))
            },
            HeapOp::Allocate(_, None) => all_in_use(post, blocks),
            HeapOp::Deallocate(block) => all_in_use(post, blocks.remove(block)),
            HeapOp::Write(_) => all_in_use(post, blocks),
        },
{
    match op {
        HeapOp::Allocate(layout, Some(addr)) => {
            let block = Block { addr, class: class_of(layout.need()) };
            lemma_class_of(layout.need());
            assert forall|b: Block| #[trigger] blocks.contains(b) implies {
                &&& post.allocator.in_use(&post.mem, b.addr as int, b.class)
                &&& apart(
                    b.addr as int,
                    class_size(b.class),
                    block.addr as int,
                    class_size(block.class),
                )
                &&& b != block
            } by {
                assert(pre.allocator.in_use(&pre.mem, b.addr as int, b.class));
                law_block_in_use_kept_by_allocate(
                    &pre.allocator,
                    &pre.mem,
                    &post.allocator,
                    &post.mem,
                    layout,
                    addr,
                    b.addr as int,
                    b.class,
                );
                lemma_class_size(b.class);
            }
        },
        HeapOp::Allocate(layout, None) => {
            law_failed_allocate_changes_nothing(
                &pre.allocator,
                &pre.mem,
                &post.allocator,
                &post.mem,
                layout,
            );
            lemma_failed_allocate_keeps_in_use(pre, post, layout, blocks);
        },
        HeapOp::Deallocate(block) => {
            assert forall|b: Block| #[trigger]
                blocks.remove(block).contains(b) implies post.allocator.in_use(
                &post.mem,
                b.addr as int,
                b.class,
            ) by {
                assert(blocks.contains(b) && b != block);
                assert(blocks.contains(block));
                assert(pre.allocator.in_use(&pre.mem, b.addr as int, b.class));
                law_block_in_use_kept_by_deallocate(
                    &pre.allocator,
                    &pre.mem,
                    &post.allocator,
                    &post.mem,
                    block.addr,
                    block.class,
                    b.addr as int,
                    b.class,
                );
            }
        },
        HeapOp::Write(block) => {
            lemma_write_keeps_in_use(pre, post, block, blocks);
        },
    }
}

/// If there is no block for a layout, the blocks stay in use.
proof fn lemma_failed_allocate_keeps_in_use<M: LinearMemory>(
    pre: HeapState<'_, M>,
    post: HeapState<'_, M>,
    layout: Layout,
    blocks: Set<Block>,
)
    requires
        heap_step(pre, HeapOp::Allocate(layout, None), post),
        post.mem.words() == pre.mem.words(),
        forall|c: int|
            0 <= c < 10 ==> #[trigger] post.allocator.free_blocks(c)
                == pre.allocator.free_blocks(c),
        all_in_use(pre, blocks),
    ensures
        all_in_use(post, blocks),
{
    let pmm = pre.allocator.pmm;
    assert forall|b: Block| #[trigger] blocks.contains(b) implies post.allocator.in_use(
        &post.mem,
        b.addr as int,
        b.class,
    ) by {
        assert(pre.allocator.in_use(&pre.mem, b.addr as int, b.class));
        lemma_is_block_kept(pmm, &pre.mem, &post.mem, b.addr as int, class_size(b.class));
        let before = pre.allocator.state();
        let after = post.allocator.state();
        assert forall|d: int| 0 <= d < 10 implies #[trigger] after[d].blocks@ == before[d].blocks@
            by {
            assert(after[d].blocks@ == post.allocator.free_blocks(d));
        }
    }
}

/// At every moment, the blocks that have been allocated and not given back are in use, and no
/// two of them overlap.
pub proof fn law_live_blocks_apart<M: LinearMemory>(
    states: Seq<HeapState<'_, M>>,
    ops: Seq<HeapOp>,
    n: int,
)
    requires
        heap_history(states, ops),
        0 <= n <= ops.len(),
    ensures
        states[n].allocator.wf(&states[n].mem),
        all_in_use(states[n], live_blocks(ops, n)),
    decreases n,
{
    if n > 0 {
        law_live_blocks_apart(states, ops, n - 1);
        let op = ops[n - 1];
        assert(heap_step(states[n - 1], op, states[n]));
        lemma_step_keeps_in_use(states[n - 1], op, states[n], live_blocks(ops, n - 1));
    }
}

/// Whether the words of a block are the same in two states.
pub open spec fn same_contents<M: LinearMemory>(
    pre: HeapState<'_, M>,
    post: HeapState<'_, M>,
    block: Block,
) -> bool {
    &&& post.mem.base() == pre.mem.base()
    &&& post.mem.words().len() == pre.mem.words().len()
    &&& forall|w: int|
        0 <= w < pre.mem.words().len() && block.holds(pre.mem.base() + 8 * w)
            ==> #[trigger] post.mem.words()[w] == pre.mem.words()[w]
}

/// One operation changes the contents of no block but the one that it is about.
#[verifier::rlimit(40)]
proof fn lemma_step_keeps_contents<M: LinearMemory>(
    pre: HeapState<'_, M>,
    op: HeapOp,
    post: HeapState<'_, M>,
    blocks: Set<Block>,
    block: Block,
)
    requires
        pre.allocator.wf(&pre.mem),
        heap_step(pre, op, post),
        all_in_use(pre, blocks),
        blocks.contains(block),
        match op {
            HeapOp::Allocate(_, _) => true,
            HeapOp::Deallocate(other) => other != block && blocks.contains(other),
            HeapOp::Write(other) => other != block && blocks.contains(other),
        },
    ensures
        same_contents(pre, post, block),
{
    let pmm = pre.allocator.pmm;
    let own = (block.addr - pre.mem.base()) / (PAGE_SIZE as int);
    assert(pre.allocator.in_use(&pre.mem, block.addr as int, block.class));
    lemma_block_in_page(pmm, &pre.mem, block.addr as int, block.class);
    match op {
        HeapOp::Allocate(layout, Some(addr)) => {
            let class = class_of(layout.need());
            if pre.allocator.free_blocks(class).len() == 0 {
                let page = lemma_allocates_page(
                    &pre.allocator,
                    &pre.mem,
                    &post.allocator,
                    &post.mem,
                    layout,
                    addr,
                );
                assert(own != page);
                assert forall|w: int|
                    0 <= w < pre.mem.words().len() && block.holds(
                        pre.mem.base() + 8 * w,
                    ) implies #[trigger] post.mem.words()[w] == pre.mem.words()[w] by {
                    assert(word_in_page(w, own));
                }
            }
        },
        HeapOp::Allocate(layout, None) => {
            law_failed_allocate_changes_nothing(
                &pre.allocator,
                &pre.mem,
                &post.allocator,
                &post.mem,
                layout,
            );
        },
        HeapOp::Deallocate(other) => {
            assert(pre.allocator.in_use(&pre.mem, other.addr as int, other.class));
            lemma_block_in_page(pmm, &pre.mem, other.addr as int, other.class);
            lemma_class_size(other.class);
        },
        HeapOp::Write(other) => {
            assert forall|w: int|
                0 <= w < pre.mem.words().len() && block.holds(
                    pre.mem.base() + 8 * w,
                ) implies #[trigger] post.mem.words()[w] == pre.mem.words()[w] by {
                assert(!other.holds(pre.mem.base() + 8 * w));
            }
        },
    }
}

/// What a block holds stays there: from one moment to a later one, the contents of a block that
/// is neither given back nor written in between are the same.
pub proof fn law_contents_kept<M: LinearMemory>(
    states: Seq<HeapState<'_, M>>,
    ops: Seq<HeapOp>,
    from: int,
    to: int,
    block: Block,
)
    requires
        heap_history(states, ops),
        0 <= from <= to <= ops.len(),
        live_blocks(ops, from).contains(block),
        forall|i: int|
            from <= i < to ==> #[trigger] ops[i] != HeapOp::Deallocate(block) && ops[i]
                != HeapOp::Write(block),
    ensures
        live_blocks(ops, to).contains(block),
        same_contents(states[from], states[to], block),
    decreases to - from,
{
    if from < to {
        law_contents_kept(states, ops, from, to - 1, block);
        law_live_blocks_apart(states, ops, to - 1);
        let op = ops[to - 1];
        assert(heap_step(states[to - 1], op, states[to]));
        lemma_step_keeps_contents(
            states[to - 1],
            op,
            states[to],
            live_blocks(ops, to - 1),
            block,
        );
    }
}

/// Whether `addr` is the address of a byte of one of the blocks.
pub open spec fn in_blocks(blocks: Set<Block>, addr: int) -> bool {
    exists|b: Block| #[trigger] blocks.contains(b) && b.holds(addr)
}

/// No memory is lost, and none comes from anywhere else: at every moment, each byte that was
/// free at the start is either still free, or part of a block that has been allocated and not
/// given back; and there are no other bytes of either kind.
#[verifier::rlimit(40)]
pub proof fn law_no_memory_lost<M: LinearMemory>(
    states: Seq<HeapState<'_, M>>,
    ops: Seq<HeapOp>,
    n: int,
    addr: int,
)
    requires
        heap_history(states, ops),
        0 <= n <= ops.len(),
    ensures
        byte_free(&states[0].allocator, &states[0].mem, addr) <==> byte_free(
            &states[n].allocator,
            &states[n].mem,
            addr,
        ) || in_blocks(live_blocks(ops, n), addr),
        !(byte_free(&states[n].allocator, &states[n].mem, addr) && in_blocks(
            live_blocks(ops, n),
            addr,
        )),
    decreases n,
{
    law_live_blocks_apart(states, ops, n);
    if in_blocks(live_blocks(ops, n), addr) {
        let b = choose|b: Block| #[trigger]
            live_blocks(ops, n).contains(b) && b.holds(addr);
        law_block_in_use_not_free(
            &states[n].allocator,
            &states[n].mem,
            b.addr as int,
            b.class,
            addr,
        );
    }
    if n > 0 {
        law_no_memory_lost(states, ops, n - 1, addr);
        law_live_blocks_apart(states, ops, n - 1);
        let pre = states[n - 1];
        let post = states[n];
        let op = ops[n - 1];
        let blocks = live_blocks(ops, n - 1);
        assert(heap_step(pre, op, post));
        match op {
            HeapOp::Allocate(layout, Some(start)) => {
                let block = Block { addr: start, class: class_of(layout.need()) };
                law_allocate_takes_block(
                    &pre.allocator,
                    &pre.mem,
                    &post.allocator,
                    &post.mem,
                    layout,
                    start,
                    addr,
                );
                lemma_in_blocks_insert(blocks, block, addr);
            },
            HeapOp::Allocate(layout, None) => {
                law_failed_allocate_changes_nothing(
                    &pre.allocator,
                    &pre.mem,
                    &post.allocator,
                    &post.mem,
                    layout,
                );
                lemma_same_free(pre, post, addr);
            },
            HeapOp::Deallocate(block) => {
                law_deallocate_frees_block(
                    &pre.allocator,
                    &pre.mem,
                    &post.allocator,
                    &post.mem,
                    block.addr,
                    block.class,
                    addr,
                );
                lemma_in_blocks_remove(blocks, block, addr);
            },
            HeapOp::Write(block) => {
                lemma_write_keeps_in_use(pre, post, block, blocks);
            },
        }
    }
}

/// The manager and the window stay the same.
proof fn lemma_same_window<M: LinearMemory>(
    states: Seq<HeapState<'_, M>>,
    ops: Seq<HeapOp>,
    n: int,
)
    requires
        heap_history(states, ops),
        0 <= n <= ops.len(),
    ensures
        states[n].allocator.pmm == states[0].allocator.pmm,
        states[n].mem.base() == states[0].mem.base(),
    decreases n,
{
    if n > 0 {
        lemma_same_window(states, ops, n - 1);
        assert(heap_step(states[n - 1], ops[n - 1], states[n]));
    }
}

/// Whether the `size` bytes at `block` lie in a page that was available in the state `from`, and
/// is allocated in the state `to`.
pub open spec fn in_page_handed_out<M: LinearMemory>(
    from: HeapState<'_, M>,
    to: HeapState<'_, M>,
    block: int,
    size: int,
) -> bool {
    exists|page: int|
        {
            &&& 0 <= page < from.allocator.pmm.bit_count()
            &&& #[trigger] from.allocator.pmm.available(&from.mem, page)
            &&& !to.allocator.pmm.available(&to.mem, page)
            &&& page_start(&to.mem, page) <= block
            &&& block + size <= page_start(&to.mem, page) + PAGE_SIZE
        }
}

/// Every block comes from a page that the manager has handed out: if a heap starts without
/// blocks, then at every moment each block, whether it is in use or free again, lies in a page
/// that was available at the start and is not available any more.
pub proof fn law_blocks_come_from_pages<M: LinearMemory>(
    states: Seq<HeapState<'_, M>>,
    ops: Seq<HeapOp>,
    n: int,
    block: Block,
)
    requires
        heap_history(states, ops),
        0 <= n <= ops.len(),
        forall|c: int| 0 <= c < 10 ==> #[trigger] states[0].allocator.free_blocks(c).len() == 0,
        live_blocks(ops, n).contains(block) || (0 <= block.class < 10
            && states[n].allocator.free_blocks(block.class).contains(block.addr)),
    ensures
        in_page_handed_out(states[0], states[n], block.addr as int, class_size(block.class)),
{
    let first = states[0];
    let last = states[n];
    let pmm = first.allocator.pmm;
    law_live_blocks_apart(states, ops, n);
    law_blocks_lie_in_allocated_pages(&last.allocator, &last.mem, block.addr, block.class);
    lemma_same_window(states, ops, n);
    lemma_class_size(block.class);
    let page = choose|page: int|
        0 <= page < pmm.bit_count() && !(#[trigger] pmm.available(&last.mem, page)) && page_start(
            &last.mem,
            page,
        ) <= block.addr && block.addr + class_size(block.class) <= page_start(&last.mem, page)
            + PAGE_SIZE;
    assert(block.holds(block.addr as int));
    if !live_blocks(ops, n).contains(block) {
        let blocks = last.allocator.free_blocks(block.class);
        let i = choose|i: int| 0 <= i < blocks.len() && blocks[i] == block.addr;
        assert(within(
            block.addr as int,
            last.allocator.free_blocks(block.class)[i] as int,
            class_size(block.class),
        ));
        assert(in_free_block(&last.allocator, block.addr as int));
    }
    law_no_memory_lost(states, ops, n, block.addr as int);
    assert(in_available_page(pmm, &first.mem, block.addr as int));
    let before = choose|p: int|
        0 <= p < pmm.bit_count() && #[trigger] pmm.available(&first.mem, p) && within(
            block.addr as int,
            page_start(&first.mem, p),
            PAGE_SIZE as int,
        );
    assert(before == page);
}

proof fn lemma_in_blocks_insert(blocks: Set<Block>, block: Block, addr: int)
    ensures
        in_blocks(blocks.insert(block), addr) <==> in_blocks(blocks, addr) || block.holds(addr),
{
    let more = blocks.insert(block);
    if in_blocks(blocks, addr) {
        let b = choose|b: Block| #[trigger] blocks.contains(b) && b.holds(addr);
        assert(more.contains(b));
    }
    if block.holds(addr) {
        assert(more.contains(block));
    }
    if in_blocks(more, addr) {
        let b = choose|b: Block| #[trigger] more.contains(b) && b.holds(addr);
        assert(b == block || blocks.contains(b));
    }
}

proof fn lemma_in_blocks_remove(blocks: Set<Block>, block: Block, addr: int)
    requires
        blocks.contains(block),
    ensures
        in_blocks(blocks, addr) <==> in_blocks(blocks.remove(block), addr) || block.holds(addr),
{
    let fewer = blocks.remove(block);
    if in_blocks(blocks, addr) {
        let b = choose|b: Block| #[trigger] blocks.contains(b) && b.holds(addr);
        assert(b == block || fewer.contains(b));
    }
    if in_blocks(fewer, addr) {
        let b = choose|b: Block| #[trigger] fewer.contains(b) && b.holds(addr);
        assert(blocks.contains(b));
    }
}

/// The same free blocks and the same bitmap make the same bytes free.
proof fn lemma_same_free<M: LinearMemory>(
    pre: HeapState<'_, M>,
    post: HeapState<'_, M>,
    addr: int,
)
    requires
        post.allocator.pmm == pre.allocator.pmm,
        post.mem.base() == pre.mem.base(),
        post.mem.words() == pre.mem.words(),
        forall|c: int|
            0 <= c < 10 ==> #[trigger] post.allocator.free_blocks(c)
                == pre.allocator.free_blocks(c),
    ensures
        byte_free(&post.allocator, &post.mem, addr) == byte_free(&pre.allocator, &pre.mem, addr),
{
    let pmm = pre.allocator.pmm;
    if in_free_block(&pre.allocator, addr) {
        let (c, i) = choose|c: int, i: int|
            0 <= c < 10 && 0 <= i < pre.allocator.free_blocks(c).len() && within(
                addr,
                #[trigger] pre.allocator.free_blocks(c)[i] as int,
                class_size(c),
            );
        assert(post.allocator.free_blocks(c)[i] == pre.allocator.free_blocks(c)[i]);
    }
    if in_free_block(&post.allocator, addr) {
        let (c, i) = choose|c: int, i: int|
            0 <= c < 10 && 0 <= i < post.allocator.free_blocks(c).len() && within(
                addr,
                #[trigger] post.allocator.free_blocks(c)[i] as int,
                class_size(c),
            );
        assert(pre.allocator.free_blocks(c)[i] == post.allocator.free_blocks(c)[i]);
    }
    if in_available_page(pmm, &pre.mem, addr) {
        let p = choose|p: int|
            0 <= p < pmm.bit_count() && #[trigger] pmm.available(&pre.mem, p) && within(
                addr,
                page_start(&pre.mem, p),
                PAGE_SIZE as int,
            );
        assert(pmm.available(&post.mem, p));
    }
    if in_available_page(pmm, &post.mem, addr) {
        let p = choose|p: int|
            0 <= p < pmm.bit_count() && #[trigger] pmm.available(&post.mem, p) && within(
                addr,
                page_start(&post.mem, p),
                PAGE_SIZE as int,
            );
        assert(pmm.available(&pre.mem, p));
    }
}

} // verus!
