//! Dynamic memory allocator. Allocates blocks of a page or less.

use vstd::prelude::*;

use crate::freelist::{
    block_at, exhausted, holds_link, is_lowest, lemma_lowest_exists, link, page_blocks, page_start,
    starts_block, word_in_page, Freelist,
};
use crate::heap::{
    block_in_use, heap_wf, lemma_block_aligned, lemma_block_in_page, lemma_heap_kept,
    lemma_new_page, lemma_page_blocks, lemma_pop, lemma_push, list_ok,
};
use crate::layout::{
    class_of, class_size, lemma_class_of, lemma_class_size, lemma_class_unique,
    lemma_leading_zeros, Layout, MIN_POWER,
};
use crate::memory::{word_index, LinearMemory};
use crate::phys_alloc::PhysicalMemoryManager;
use crate::spinlock::{SpinLock, SpinLockGuard};
use crate::PAGE_SIZE;

verus! {

/// A dynamic memory allocator. Currently it's a really naive implementation
/// that can only acquire pages of physical memory but not release them. It
/// rounds a requested allocation up to the nearest power of two, then
/// allocates it from a dedicated freelist for that size. When the freelist is
/// empty, a new physical page is carved up and added to the freelist. The
/// allocations point directly into the kernel's linear mapping of physical
/// memory. Partially due to this, the maximum size of an allocation is one
/// page.
pub struct DynamicAllocator<'a> {
    /// Where the pages come from.
    pub pmm: &'a PhysicalMemoryManager,
    /// Freelists for 8-4096 byte general purpose allocations
    pub freelists: [SpinLock<Freelist>; 10],
}

impl<'a> DynamicAllocator<'a> {
    /// The freelists, without their locks.
    pub open spec fn state(&self) -> Seq<Freelist> {
        Seq::new(10, |i: int| self.freelists@[i]@)
    }

    /// The free blocks of a size class, in the order in which they are handed out.
    pub open spec fn free_blocks(&self, class: int) -> Seq<u64> {
        self.freelists@[class]@.blocks@
    }

    /// Whether the allocator can work on `mem`: no list is locked, the pages are memory that can
    /// be used, each list is in order, and no two free blocks overlap.
    pub open spec fn wf<M: LinearMemory>(&self, mem: &M) -> bool {
        &&& forall|c: int| 0 <= c < 10 ==> !(#[trigger] self.freelists@[c]).locked()
        &&& heap_wf(self.pmm, self.state(), mem)
    }

    /// Whether `block` is a block of the size class that is not free, and could be given back.
    pub open spec fn in_use<M: LinearMemory>(&self, mem: &M, block: int, class: int) -> bool {
        block_in_use(self.pmm, self.state(), mem, block, class)
    }

    fn init_i(i: u32) -> (list: SpinLock<Freelist>)
        requires
            i < 10,
        ensures
            !list.locked(),
            list@.block_size == class_size(i as int),
            list@.head is None,
            list@.blocks@ == Seq::<u64>::empty(),
    {
        proof {
            lemma_class_size(i as int);
            vstd::bits::lemma_u64_shl_is_mul(1, (i + MIN_POWER) as u64);
        }
        SpinLock::new(Freelist::new(1u64 << ((i + MIN_POWER) as u64)))
    }

    /// Constructs the allocator, without any memory as yet
    pub fn new(pmm: &'a PhysicalMemoryManager) -> (allocator: Self)
        ensures
            allocator.pmm == pmm,
            forall|c: int|
                0 <= c < 10 ==> {
                    &&& !(#[trigger] allocator.freelists@[c]).locked()
                    &&& allocator.freelists@[c]@.block_size == class_size(c)
                    &&& allocator.freelists@[c]@.head is None
                    &&& allocator.freelists@[c]@.blocks@ == Seq::<u64>::empty()
                },
    {
        Self {
            pmm,
            freelists: [
                Self::init_i(0),
                Self::init_i(1),
                Self::init_i(2),
                Self::init_i(3),
                Self::init_i(4),
                Self::init_i(5),
                Self::init_i(6),
                Self::init_i(7),
                Self::init_i(8),
                Self::init_i(9),
            ],
        }
    }

    /// The size class for a layout: the smallest one whose blocks have room for it.
    pub fn freelist_index(layout: Layout) -> (index: usize)
        ensures
            index == class_of(layout.need()),
    {
        let size: u64 = layout.size();
        let align: u64 = layout.align();
        // If alignment is larger than the requested size, we have to assign a
        // larger block size to get a larger alignment
        let size_align_max: u64 = if size >= align {
            size
        } else {
            align
        };

        let leading_zeros: u32 = (size_align_max - 1).leading_zeros();
        proof {
            lemma_leading_zeros((size_align_max - 1) as u64);
        }
        let ceil_log2: u32 = 64 - leading_zeros;

        // The freelists start at 8 bytes (2^3), so account for this.
        let index: u32 = match ceil_log2.checked_sub(MIN_POWER) {
            Some(index) => index,
            None => 0,
        };
        proof {
            vstd::arithmetic::power2::lemma2_to64();
            if ceil_log2 < 3 {
                vstd::arithmetic::power2::lemma_pow2_strictly_increases(ceil_log2 as nat, 3);
            }
            lemma_class_unique(layout.need(), index as int);
        }
        index as usize
    }

    /// The freelist for a layout, locked. There is none if the layout needs more than a page.
    fn freelist(&mut self, layout: Layout) -> (freelist: Option<SpinLockGuard<'_, Freelist>>)
        requires
            forall|c: int| 0 <= c < 10 ==> !(#[trigger] old(self).freelists@[c]).locked(),
            forall|c: int|
                0 <= c < 10 ==> (#[trigger] old(self).freelists@[c])@.block_size == class_size(c),
        ensures
            freelist is Some <==> class_of(layout.need()) < 10,
            freelist is None ==> *final(self) == *old(self),
            freelist matches Some(guard) ==> {
                let class = class_of(layout.need());
                &&& guard@ == old(self).freelists@[class]@
                &&& layout.spec_size() <= guard@.block_size
                &&& layout.spec_align() <= guard@.block_size
                &&& guard.lock.locked()
                &&& final(self).pmm == old(self).pmm
                &&& final(self).freelists@ == old(self).freelists@.update(
                    class,
                    *final(guard.lock),
                )
            },
    {
        let index: usize = Self::freelist_index(layout);
        proof {
            lemma_class_of(layout.need());
        }
        if index >= 10 {
            return None;
        }
        Some(self.freelists[index].lock())
    }

    /// What an allocation does. If the layout needs more than a page, there is no block for it.
    /// If there is a free block of its size class, it is the first one. If not, the available
    /// page with the lowest index is split up; the block is the first one of those, and the
    /// others become free. Of that page, only the first word of each block is written: it holds
    /// the address of the next block, or 0 in the last one. If there is no page either, there is
    /// no block.
    pub open spec fn allocates<M: LinearMemory>(
        &self,
        mem: &M,
        after_self: &Self,
        after: &M,
        layout: Layout,
        block: Option<u64>,
    ) -> bool {
        let class = class_of(layout.need());
        &&& after_self.pmm == self.pmm
        &&& after.base() == mem.base()
        &&& after.words().len() == mem.words().len()
        &&& forall|d: int|
            0 <= d < 10 && d != class ==> #[trigger] after_self.free_blocks(d) == self.free_blocks(
                d,
            )
        &&& if class >= 10 {
            &&& block is None
            &&& after.words() == mem.words()
        } else if self.free_blocks(class).len() > 0 {
            &&& block == Some(self.free_blocks(class)[0])
            &&& after_self.free_blocks(class) == self.free_blocks(class).drop_first()
            &&& after.words() == mem.words()
        } else if exhausted(self.pmm, mem) {
            &&& block is None
            &&& after_self.free_blocks(class) == self.free_blocks(class)
            &&& after.words() == mem.words()
        } else {
            forall|page: int| #[trigger]
                is_lowest(self.pmm, mem, page) ==> {
                    let blocks = page_blocks(page_start(mem, page), class_size(class));
                    &&& block == Some(blocks[0])
                    &&& after_self.free_blocks(class) == blocks.drop_first()
                    &&& self.pmm.takes(mem, page, after)
                    &&& forall|w: int|
                        0 <= w < mem.words().len() && !self.pmm.holds_word(mem, w)
                            && !word_in_page(w, page) ==> #[trigger] after.words()[w]
                            == mem.words()[w]
                    &&& forall|k: int|
                        0 <= k < blocks.len() ==> #[trigger] holds_link(
                            after.words(),
                            mem.base(),
                            blocks,
                            k,
                        )
                    &&& forall|w: int|
                        0 <= w < mem.words().len() && word_in_page(w, page) && !starts_block(
                            mem.base(),
                            blocks,
                            w,
                        ) ==> #[trigger] after.words()[w] == mem.words()[w]
                }
        }
    }

    /// What giving back a block does: the block becomes the first free block of its size class.
    pub open spec fn deallocates<M: LinearMemory>(
        &self,
        mem: &M,
        after_self: &Self,
        after: &M,
        block: u64,
        class: int,
    ) -> bool {
        &&& after_self.pmm == self.pmm
        &&& after.base() == mem.base()
        &&& after.words().len() == mem.words().len()
        &&& after.words() == mem.words().update(
            word_index(mem.base(), block as int),
            link(block_at(self.free_blocks(class), 0)),
        )
        &&& forall|p: int|
            0 <= p < self.pmm.bit_count() ==> #[trigger] self.pmm.available(after, p)
                == self.pmm.available(mem, p)
        &&& after_self.free_blocks(class) == seq![block] + self.free_blocks(class)
        &&& forall|d: int|
            0 <= d < 10 && d != class ==> #[trigger] after_self.free_blocks(d) == self.free_blocks(
                d,
            )
    }

    /// Allocates a block for a layout.
    #[verifier::rlimit(40)]
    pub fn allocate<M: LinearMemory>(&mut self, mem: &mut M, layout: Layout) -> (block: Option<
        u64,
    >)
        requires
            old(self).wf(old(mem)),
        ensures
            final(self).wf(final(mem)),
            old(self).allocates(old(mem), final(self), final(mem), layout, block),
            block matches Some(addr) ==> {
                let class = class_of(layout.need());
                &&& addr != 0
                &&& final(self).in_use(final(mem), addr as int, class)
                &&& layout.spec_size() <= class_size(class)
                &&& old(mem).base() % PAGE_SIZE == 0 ==> addr as int % layout.spec_align() == 0
            },
    {
        let ghost class = class_of(layout.need());
        let ghost state = self.state();
        let align: u64 = layout.align();
        proof {
            lemma_class_of(layout.need());
            assert forall|c: int| 0 <= c < 10 implies (#[trigger] self.freelists@[c])@.block_size
                == class_size(c) by {
                assert(list_ok(self.pmm, state[c], mem, c));
            }
        }
        let pmm = self.pmm;
        let mut guard = match self.freelist(layout) {
            None => {
                return None;
            },
            Some(guard) => guard,
        };
        proof {
            lemma_class_size(class);
            assert(list_ok(pmm, state[class], mem, class));
        }
        let freelist = guard.deref_mut();
        let mut block: Option<u64> = freelist.pop_block(mem);
        let ghost mut page: int = 0;
        if block.is_none() {
            if freelist.allocate_new_page(pmm, mem) {
                proof {
                    page = lemma_lowest_exists(pmm, old(mem));
                    let carved = *freelist;
                    assert(carved.blocks@ =~= page_blocks(
                        page_start(old(mem), page),
                        class_size(class),
                    ));
                    lemma_new_page(pmm, state, old(mem), mem, class, page, carved);
                    lemma_page_blocks(old(mem), page, class);
                    assert forall|k: int| 0 <= k < carved.blocks@.len() implies #[trigger]
                    holds_link(mem.words(), mem.base(), carved.blocks@, k) by {
                        assert(carved.blocks@[k] != 0);
                    }
                }
                let ghost carved = *freelist;
                // Allocating the page above will ensure there will always be a
                // block to pop.
                block = freelist.pop_block(mem);
                proof {
                    lemma_pop(pmm, state.update(class, carved), mem, class, *freelist);
                    assert(state.update(class, carved).update(class, *freelist) =~= state.update(
                        class,
                        *freelist,
                    ));
                }
            }
        } else {
            proof {
                lemma_pop(pmm, state, mem, class, *freelist);
            }
        }
        let ghost list = *freelist;
        guard.unlock();
        proof {
            assert(self.state() =~= state.update(class, list));
            if block is None {
                assert(list == state[class]);
                assert(state.update(class, list) =~= state);
                lemma_heap_kept(pmm, state, old(mem), mem);
            } else {
                lemma_block_in_page(pmm, mem, block->Some_0 as int, class);
                if old(mem).base() % PAGE_SIZE == 0 {
                    lemma_block_aligned(pmm, mem, block->Some_0 as int, class, align as int);
                }
            }
        }
        block
    }

    /// Gives back a block that was allocated for a layout. It becomes the first free block of
    /// its size class. The layout must not need more than a page.
    #[verifier::rlimit(40)]
    pub fn deallocate<M: LinearMemory>(&mut self, mem: &mut M, block: u64, layout: Layout)
        requires
            old(self).wf(old(mem)),
            old(self).in_use(old(mem), block as int, class_of(layout.need())),
        ensures
            final(self).wf(final(mem)),
            old(self).deallocates(
                old(mem),
                final(self),
                final(mem),
                block,
                class_of(layout.need()),
            ),
    {
        let ghost class = class_of(layout.need());
        let ghost state = self.state();
        proof {
            assert forall|c: int| 0 <= c < 10 implies (#[trigger] self.freelists@[c])@.block_size
                == class_size(c) by {
                assert(list_ok(self.pmm, state[c], mem, c));
            }
            lemma_block_in_page(self.pmm, mem, block as int, class);
            assert(list_ok(self.pmm, state[class], mem, class));
        }
        let ghost pmm = self.pmm;
        match self.freelist(layout) {
            None => {},
            Some(mut guard) => {
                let freelist = guard.deref_mut();
                freelist.push_block(mem, block);
                let ghost list = *freelist;
                guard.unlock();
                proof {
                    assert(self.state() =~= state.update(class, list));
                    lemma_push(
                        pmm,
                        state,
                        old(mem),
                        mem,
                        class,
                        block,
                        link(state[class].head),
                        list,
                    );
                }
            },
        }
    }

    /// Allocates a block for a layout. Returns its address, or 0 if there is none.
    pub fn global_alloc<M: LinearMemory>(&mut self, mem: &mut M, layout: Layout) -> (block: u64)
        requires
            old(self).wf(old(mem)),
        ensures
            final(self).wf(final(mem)),
            old(self).allocates(
                old(mem),
                final(self),
                final(mem),
                layout,
                if block == 0 {
                    None
                } else {
                    Some(block)
                },
            ),
            block != 0 ==> {
                let class = class_of(layout.need());
                &&& final(self).in_use(final(mem), block as int, class)
                &&& layout.spec_size() <= class_size(class)
                &&& old(mem).base() % PAGE_SIZE == 0 ==> block as int % layout.spec_align() == 0
            },
    {
        match self.allocate(mem, layout) {
            Some(block) => block,
            None => 0,
        }
    }

    /// Gives back a block that was allocated for a layout. Does nothing if the address is 0.
    pub fn global_dealloc<M: LinearMemory>(&mut self, mem: &mut M, block: u64, layout: Layout)
        requires
            block != 0 ==> {
                &&& old(self).wf(old(mem))
                &&& old(self).in_use(old(mem), block as int, class_of(layout.need()))
            },
        ensures
            block == 0 ==> *final(self) == *old(self) && *final(mem) == *old(mem),
            block != 0 ==> {
                &&& final(self).wf(final(mem))
                &&& old(self).deallocates(
                    old(mem),
                    final(self),
                    final(mem),
                    block,
                    class_of(layout.need()),
                )
            },
    {
        if block != 0 {
            self.deallocate(mem, block, layout);
        }
    }
}

} // verus!
