//! Free blocks of memory, linked up in the blocks themselves.

use vstd::prelude::*;

use crate::addr::{canonical, physical};
use crate::memory::{word_in, word_index, LinearMemory, Words};
use crate::phys_alloc::PhysicalMemoryManager;
use crate::PAGE_SIZE;

verus! {

/// What is stored in a free block for the block that follows it: its address, or 0 if there is
/// none.
pub open spec fn link(next: Option<u64>) -> u64 {
    match next {
        Some(addr) => addr,
        None => 0,
    }
}

/// The block at position `i`.
pub open spec fn block_at(blocks: Seq<u64>, i: int) -> Option<u64> {
    if 0 <= i < blocks.len() {
        Some(blocks[i])
    } else {
        None
    }
}

/// The blocks of a page that starts at `start`, in the order in which they are handed out: from
/// the last to the first.
pub open spec fn page_blocks(start: int, block_size: int) -> Seq<u64> {
    Seq::new(
        (PAGE_SIZE as int / block_size) as nat,
        |k: int| (start + PAGE_SIZE - (k + 1) * block_size) as u64,
    )
}

/// Whether the first word of block `k` holds the address of the next block.
pub open spec fn holds_link(words: Words, base: u64, blocks: Seq<u64>, k: int) -> bool {
    words[word_index(base, blocks[k] as int)] == link(block_at(blocks, k + 1))
}

/// Whether the word at position `index` of memory is the first word of one of the blocks.
pub open spec fn starts_block(base: u64, blocks: Seq<u64>, index: int) -> bool {
    exists|k: int|
        0 <= k < blocks.len() && word_index(base, #[trigger] blocks[k] as int) == index
}

/// Whether `page` is the available page with the lowest index.
pub open spec fn is_lowest<M: LinearMemory>(
    pmm: &PhysicalMemoryManager,
    mem: &M,
    page: int,
) -> bool {
    &&& 0 <= page < pmm.bit_count()
    &&& pmm.available(mem, page)
    &&& forall|p: int| 0 <= p < page ==> !#[trigger] pmm.available(mem, p)
}

/// Whether there is no page left.
pub open spec fn exhausted<M: LinearMemory>(pmm: &PhysicalMemoryManager, mem: &M) -> bool {
    forall|p: int| 0 <= p < pmm.bit_count() ==> !#[trigger] pmm.available(mem, p)
}

/// The virtual address of a page.
pub open spec fn page_start<M: LinearMemory>(mem: &M, page: int) -> int {
    mem.base() + page * PAGE_SIZE
}

/// Whether the word at position `index` lies in page `page`.
pub open spec fn word_in_page(index: int, page: int) -> bool {
    page * 512 <= index < page * 512 + 512
}

/// Whether page `page` is memory that can be used: it lies in the window, at addresses that
/// pointers can hold, and clear of the bitmap.
pub open spec fn page_ready<M: LinearMemory>(
    pmm: &PhysicalMemoryManager,
    mem: &M,
    page: int,
) -> bool {
    &&& physical(page * PAGE_SIZE)
    &&& canonical(mem.base() as int)
    &&& canonical(page_start(mem, page))
    &&& 0 < page_start(mem, page)
    &&& page_start(mem, page) + PAGE_SIZE <= u64::MAX
    &&& page * 512 + 512 <= mem.words().len()
    &&& forall|w: int| word_in_page(w, page) ==> !#[trigger] pmm.holds_word(mem, w)
}

/// Whether the pages that `pmm` can allocate from `mem` are memory that can be used.
pub open spec fn pages_ready<M: LinearMemory>(pmm: &PhysicalMemoryManager, mem: &M) -> bool {
    &&& pmm.wf(mem)
    &&& pmm.physical_offset == mem.base()
    &&& forall|p: int|
        0 <= p < pmm.bit_count() && #[trigger] pmm.available(mem, p) ==> page_ready(pmm, mem, p)
}

/// Whether blocks of this size can be made of a page: they are made of words, and a number of
/// them makes a page.
pub open spec fn block_size_ok(block_size: int) -> bool {
    &&& 8 <= block_size
    &&& block_size % 8 == 0
    &&& PAGE_SIZE as int % block_size == 0
}

/// Free blocks of the same size. They form a linked list: the first word of each block holds the
/// address of the next one.
pub struct Freelist {
    /// The size of each block, in bytes.
    pub block_size: u64,
    /// The first block.
    pub head: Option<u64>,
    /// The addresses of the blocks, from the first to the last.
    pub blocks: Ghost<Seq<u64>>,
}

impl Freelist {
    /// Whether the list is linked up in `mem`: the head is the first block, each block holds the
    /// address of the next one, and no block occurs twice.
    pub open spec fn linked<M: LinearMemory>(&self, mem: &M) -> bool {
        &&& self.head == block_at(self.blocks@, 0)
        &&& forall|i: int|
            0 <= i < self.blocks@.len() ==> {
                &&& #[trigger] self.blocks@[i] != 0
                &&& word_in(mem.base(), mem.words().len(), self.blocks@[i] as int)
                &&& mem.words()[word_index(mem.base(), self.blocks@[i] as int)] == link(
                    block_at(self.blocks@, i + 1),
                )
            }
        &&& self.blocks@.no_duplicates()
    }

    /// A list without blocks.
    pub fn new(block_size: u64) -> (list: Self)
        ensures
            list.block_size == block_size,
            list.head is None,
            list.blocks@ == Seq::<u64>::empty(),
    {
        Self { block_size, head: None, blocks: Ghost(Seq::empty()) }
    }

    /// Puts a block in front of the list.
    #[verifier::rlimit(40)]
    pub fn push_block<M: LinearMemory>(&mut self, mem: &mut M, block: u64)
        requires
            old(self).linked(old(mem)),
            block != 0,
            word_in(old(mem).base(), old(mem).words().len(), block as int),
            !old(self).blocks@.contains(block),
        ensures
            final(self).linked(final(mem)),
            final(self).block_size == old(self).block_size,
            final(self).blocks@ == seq![block] + old(self).blocks@,
            final(mem).base() == old(mem).base(),
            final(mem).words() == old(mem).words().update(
                word_index(old(mem).base(), block as int),
                link(old(self).head),
            ),
    {
        let next: u64 = match self.head {
            Some(addr) => addr,
            None => 0,
        };
        mem.write(block, next);
        self.head = Some(block);
        self.blocks = Ghost(seq![block] + self.blocks@);
        proof {
            let blocks = old(self).blocks@;
            assert forall|i: int| 0 <= i < self.blocks@.len() implies {
                &&& #[trigger] self.blocks@[i] != 0
                &&& word_in(mem.base(), mem.words().len(), self.blocks@[i] as int)
                &&& mem.words()[word_index(mem.base(), self.blocks@[i] as int)] == link(
                    block_at(self.blocks@, i + 1),
                )
            } by {
                if i > 0 {
                    assert(self.blocks@[i] == blocks[i - 1]);
                    assert(blocks.contains(blocks[i - 1]));
                    assert(block_at(self.blocks@, i + 1) == block_at(blocks, i));
                } else {
                    assert(block_at(self.blocks@, 1) == block_at(blocks, 0));
                }
            }
            assert forall|i: int, j: int|
                0 <= i < self.blocks@.len() && 0 <= j < self.blocks@.len() && i != j implies
                self.blocks@[i] != self.blocks@[j] by {
                if i > 0 {
                    assert(self.blocks@[i] == blocks[i - 1]);
                    assert(blocks.contains(blocks[i - 1]));
                }
                if j > 0 {
                    assert(self.blocks@[j] == blocks[j - 1]);
                    assert(blocks.contains(blocks[j - 1]));
                }
            }
        }
    }

    /// Takes the first block out of the list.
    #[verifier::rlimit(40)]
    pub fn pop_block<M: LinearMemory>(&mut self, mem: &M) -> (block: Option<u64>)
        requires
            old(self).linked(mem),
        ensures
            final(self).linked(mem),
            final(self).block_size == old(self).block_size,
            block == block_at(old(self).blocks@, 0),
            final(self).blocks@ == if old(self).blocks@.len() > 0 {
                old(self).blocks@.drop_first()
            } else {
                old(self).blocks@
            },
    {
        match self.head {
            None => None,
            Some(block) => {
                let next: u64 = mem.read(block);
                self.head = if next == 0 {
                    None
                } else {
                    Some(next)
                };
                self.blocks = Ghost(self.blocks@.drop_first());
                proof {
                    let blocks = old(self).blocks@;
                    if blocks.len() > 1 {
                        assert(blocks[1] != 0);
                    }
                    assert forall|i: int| 0 <= i < self.blocks@.len() implies {
                        &&& #[trigger] self.blocks@[i] != 0
                        &&& word_in(mem.base(), mem.words().len(), self.blocks@[i] as int)
                        &&& mem.words()[word_index(mem.base(), self.blocks@[i] as int)] == link(
                            block_at(self.blocks@, i + 1),
                        )
                    } by {
                        assert(self.blocks@[i] == blocks[i + 1]);
                        assert(block_at(self.blocks@, i + 1) == block_at(blocks, i + 2));
                    }
                }
                Some(block)
            },
        }
    }

    /// Allocates a new physical page, splits it up into blocks and adds them
    /// to the freelist. Returns whether this process was successful.
    #[verifier::rlimit(40)]
    pub fn allocate_new_page<M: LinearMemory>(
        &mut self,
        pmm: &PhysicalMemoryManager,
        mem: &mut M,
    ) -> (success: bool)
        requires
            old(self).linked(old(mem)),
            block_size_ok(old(self).block_size as int),
            pages_ready(pmm, old(mem)),
            forall|i: int|
                0 <= i < old(self).blocks@.len() ==> {
                    let w = word_index(old(mem).base(), #[trigger] old(self).blocks@[i] as int);
                    &&& !pmm.holds_word(old(mem), w)
                    &&& !pmm.available(old(mem), w / 512) || w / 512 >= pmm.bit_count()
                },
        ensures
            final(self).linked(final(mem)),
            final(self).block_size == old(self).block_size,
            pmm.wf(final(mem)),
            final(mem).base() == old(mem).base(),
            final(mem).words().len() == old(mem).words().len(),
            success == !exhausted(pmm, old(mem)),
            !success ==> *final(self) == *old(self) && final(mem).words() == old(mem).words(),
            success ==> forall|page: int| #[trigger]
                is_lowest(pmm, old(mem), page) ==> {
                    &&& final(self).blocks@ == page_blocks(
                        page_start(old(mem), page),
                        old(self).block_size as int,
                    ) + old(self).blocks@
                    &&& pmm.takes(old(mem), page, final(mem))
                    &&& forall|w: int|
                        0 <= w < old(mem).words().len() && !pmm.holds_word(old(mem), w)
                            && !word_in_page(w, page) ==> #[trigger] final(mem).words()[w] == old(
                            mem,
                        ).words()[w]
                    &&& forall|w: int|
                        0 <= w < old(mem).words().len() && word_in_page(w, page) && !starts_block(
                            old(mem).base(),
                            page_blocks(
                                page_start(old(mem), page),
                                old(self).block_size as int,
                            ),
                            w,
                        ) ==> #[trigger] final(mem).words()[w] == old(mem).words()[w]
                },
    {
        let page_allocation = match pmm.allocate_page(mem) {
            None => {
                return false;
            },
            Some(page_allocation) => page_allocation,
        };
        let ghost page = page_allocation.index as int;
        let ghost before = *mem;
        let ghost listed = self.blocks@;
        proof {
            assert(pmm.available(old(mem), page));
            assert(page_ready(pmm, old(mem), page));
            assert forall|i: int| 0 <= i < self.blocks@.len() implies {
                &&& #[trigger] self.blocks@[i] != 0
                &&& word_in(mem.base(), mem.words().len(), self.blocks@[i] as int)
                &&& mem.words()[word_index(mem.base(), self.blocks@[i] as int)] == link(
                    block_at(self.blocks@, i + 1),
                )
            } by {
                assert(!pmm.holds_word(
                    old(mem),
                    word_index(old(mem).base(), old(self).blocks@[i] as int),
                ));
            }
        }

        let block_size: u64 = self.block_size;
        let start: u64 = page_allocation.as_ptr();
        let addr_end: u64 = start + PAGE_SIZE;
        let mut addr: u64 = start;
        let ghost count: int = PAGE_SIZE as int / block_size as int;
        let ghost mut k: int = 0;
        let ghost mut pushed: Seq<u64> = Seq::empty();
        proof {
            vstd::arithmetic::div_mod::lemma_fundamental_div_mod(
                PAGE_SIZE as int,
                block_size as int,
            );
            assert(count * block_size == PAGE_SIZE) by (nonlinear_arith)
                requires
                    PAGE_SIZE == block_size * count + 0,
            ;
            assert(pushed + listed =~= listed);
            assert forall|i: int| 0 <= i < listed.len() implies !(start <= #[trigger] listed[i]
                < addr_end) by {
                let w = word_index(old(mem).base(), listed[i] as int);
                if start <= listed[i] < addr_end {
                    assert(w / 512 == page);
                }
            }
        }

        while addr < addr_end
            invariant
                block_size == self.block_size,
                block_size == old(self).block_size,
                block_size_ok(block_size as int),
                count * block_size == PAGE_SIZE,
                addr_end == start + PAGE_SIZE,
                addr_end <= u64::MAX,
                addr == start + k * block_size,
                0 <= k <= count,
                mem.base() == before.base(),
                mem.words().len() == before.words().len(),
                start == before.base() + page * PAGE_SIZE,
                0 <= page,
                0 < start,
                page * 512 + 512 <= before.words().len(),
                forall|i: int|
                    0 <= i < listed.len() ==> !(start <= #[trigger] listed[i] < addr_end),
                self.linked(mem),
                self.blocks@ == pushed + listed,
                pushed.len() == k,
                forall|j: int|
                    0 <= j < k ==> #[trigger] pushed[j] as int == addr - (j + 1) * block_size,
                forall|w: int|
                    0 <= w < before.words().len() && !(word_in_page(w, page) && starts_block(
                        before.base(),
                        pushed,
                        w,
                    )) ==> #[trigger] mem.words()[w] == before.words()[w],
            decreases addr_end - addr,
        {
            let ghost blocks = self.blocks@;
            let ghost written = mem.words();
            proof {
                assert(k < count && addr + block_size <= addr_end && (k + 1) * block_size == k
                    * block_size + block_size && 0 <= k * block_size && (k * block_size) % 8 == 0)
                    by (nonlinear_arith)
                    requires
                        addr == start + k * block_size,
                        addr < start + PAGE_SIZE,
                        addr_end == start + PAGE_SIZE,
                        count * block_size == PAGE_SIZE,
                        0 <= k <= count,
                        block_size % 8 == 0,
                        block_size >= 8,
                ;
                assert(addr - mem.base() == page * PAGE_SIZE + k * block_size);
                assert(word_in_page(word_index(mem.base(), addr as int), page));
                assert forall|i: int| 0 <= i < blocks.len() implies blocks[i] != addr by {
                    if i < k {
                        assert(blocks[i] == pushed[i]);
                        assert((i + 1) * block_size > 0) by (nonlinear_arith)
                            requires
                                i >= 0,
                                block_size >= 8,
                        ;
                    } else {
                        assert(blocks[i] == listed[i - k]);
                    }
                }
            }
            self.push_block(mem, addr);
            proof {
                let next = seq![addr] + pushed;
                assert(self.blocks@ =~= next + listed);
                assert forall|j: int| 0 <= j < k + 1 implies #[trigger] next[j] as int == addr
                    + block_size - (j + 1) * block_size by {
                    if j > 0 {
                        assert(next[j] == pushed[j - 1]);
                        assert((j + 1) * block_size == j * block_size + block_size)
                            by (nonlinear_arith);
                    }
                }
                assert forall|w: int|
                    0 <= w < before.words().len() && !(word_in_page(w, page) && starts_block(
                        before.base(),
                        next,
                        w,
                    )) implies #[trigger] mem.words()[w] == before.words()[w] by {
                    if word_in_page(w, page) {
                        assert(next[0] == addr);
                        assert(word_index(before.base(), next[0] as int) != w);
                        assert(!starts_block(before.base(), pushed, w)) by {
                            if starts_block(before.base(), pushed, w) {
                                let j = choose|j: int|
                                    0 <= j < pushed.len() && word_index(
                                        before.base(),
                                        #[trigger] pushed[j] as int,
                                    ) == w;
                                assert(next[j + 1] == pushed[j]);
                            }
                        }
                    }
                    assert(mem.words()[w] == written[w]);
                }
                pushed = next;
                k = k + 1;
            }
            addr = addr + block_size;
        }

        proof {
            assert(k == count) by (nonlinear_arith)
                requires
                    addr == start + k * block_size,
                    addr >= start + PAGE_SIZE,
                    count * block_size == PAGE_SIZE,
                    0 <= k <= count,
                    block_size >= 8,
            ;
            assert(pushed =~= page_blocks(page_start(old(mem), page), block_size as int));
            assert(is_lowest(pmm, old(mem), page));
            assert forall|other: int| #[trigger] is_lowest(pmm, old(mem), other) implies other
                == page by {
                assert(pmm.available(old(mem), other));
            }
            assert forall|p: int| 0 <= p < pmm.bit_count() implies #[trigger] pmm.available(mem, p)
                == (pmm.available(old(mem), p) && p != page) by {
                assert(pmm.available(&before, p) == (pmm.available(old(mem), p) && p != page));
                let w = pmm.first_word(mem) + p / 64;
                assert(pmm.holds_word(old(mem), w));
                assert(!word_in_page(w, page));
            }
        }
        true
    }
}

/// If there is a page left, one of the available pages has the lowest index.
pub(crate) proof fn lemma_lowest_exists<M: LinearMemory>(pmm: &PhysicalMemoryManager, mem: &M) -> (page: int)
    requires
        !exhausted(pmm, mem),
    ensures
        is_lowest(pmm, mem, page),
{
    let p = choose|p: int| 0 <= p < pmm.bit_count() && #[trigger] pmm.available(mem, p);
    lemma_lowest_below(pmm, mem, p)
}

/// Below an available page, or at it, one has the lowest index.
pub(crate) proof fn lemma_lowest_below<M: LinearMemory>(
    pmm: &PhysicalMemoryManager,
    mem: &M,
    p: int,
) -> (page: int)
    requires
        0 <= p < pmm.bit_count(),
        pmm.available(mem, p),
    ensures
        is_lowest(pmm, mem, page),
    decreases p,
{
    if exists|q: int| 0 <= q < p && #[trigger] pmm.available(mem, q) {
        let q = choose|q: int| 0 <= q < p && #[trigger] pmm.available(mem, q);
        lemma_lowest_below(pmm, mem, q)
    } else {
        p
    }
}

} // verus!
