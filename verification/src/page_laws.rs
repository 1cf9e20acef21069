//! What holds of the allocation of pages as a whole.

use core::ops::Range;

use vstd::prelude::*;
use vstd::relations::injective_on;
use vstd::set_lib::{lemma_int_range, lemma_len_subset, lemma_map_size, set_int_range};

use crate::bits::{bit, lemma_bit_set, lemma_bit_zero};
use crate::freelist::{page_ready, pages_ready, word_in_page};
use crate::memory::{consistent, run, LinearMemory, MemLog, MemOp, Words};
use crate::memory_map::MemoryDescriptor;
use crate::phys_alloc::{
    addr_limit, are_runs, bitmap_bit, bitmap_region, finds_zero, free_call, in_regions, is_run,
    lemma_addr_limit, op_frees, op_takes, page_call, page_inside, page_limit, page_touched,
    regions_fit, usable, usable_page, PhysicalMemoryManager,
};
use crate::PAGE_SIZE;

verus! {

/// What a call of [`PhysicalMemoryManager::free_page`] or
/// [`PhysicalMemoryManager::allocate_page`] does to a bitmap.
pub enum PageOp {
    /// A page is made available.
    Free(u64),
    /// A page is allocated.
    Take(u64),
}

/// Whether `op` takes the bitmap from `mem` to `after`.
pub open spec fn page_step<M: LinearMemory>(
    pmm: &PhysicalMemoryManager,
    mem: &M,
    op: PageOp,
    after: &M,
) -> bool {
    match op {
        PageOp::Free(page) => pmm.frees(mem, page as int, after),
        PageOp::Take(page) => pmm.takes(mem, page as int, after),
    }
}

/// Whether `ops` take the bitmap from each of the `states` to the next one.
pub open spec fn page_history<M: LinearMemory>(
    pmm: &PhysicalMemoryManager,
    states: Seq<M>,
    ops: Seq<PageOp>,
) -> bool {
    &&& states.len() == ops.len() + 1
    &&& forall|i: int|
        0 <= i < ops.len() ==> page_step(pmm, &states[i], #[trigger] ops[i], &states[i + 1])
}

/// Whether page `page` is made available by one of the operations from `from` up to `to`.
pub open spec fn freed_between(ops: Seq<PageOp>, from: int, to: int, page: u64) -> bool {
    exists|k: int| from <= k < to && #[trigger] ops[k] == PageOp::Free(page)
}

/// A page that is not available does not become available unless it is freed.
proof fn lemma_stays_allocated<M: LinearMemory>(
    pmm: &PhysicalMemoryManager,
    states: Seq<M>,
    ops: Seq<PageOp>,
    from: int,
    to: int,
    page: u64,
)
    requires
        page_history(pmm, states, ops),
        0 <= from <= to <= ops.len(),
        page < pmm.bit_count(),
        !pmm.available(&states[from], page as int),
        !freed_between(ops, from, to, page),
    ensures
        !pmm.available(&states[to], page as int),
    decreases to - from,
{
    if from < to {
        assert(!freed_between(ops, from, to - 1, page)) by {
            if freed_between(ops, from, to - 1, page) {
                let k = choose|k: int|
                    from <= k < to - 1 && #[trigger] ops[k] == PageOp::Free(page);
                assert(ops[k] == PageOp::Free(page));
            }
        }
        lemma_stays_allocated(pmm, states, ops, from, to - 1, page);
        assert(page_step(pmm, &states[to - 1], ops[to - 1], &states[to]));
    }
}

/// No page is allocated twice, unless it is freed in between.
pub proof fn law_page_allocated_once<M: LinearMemory>(
    pmm: &PhysicalMemoryManager,
    states: Seq<M>,
    ops: Seq<PageOp>,
    i: int,
    j: int,
    page: u64,
)
    requires
        page_history(pmm, states, ops),
        0 <= i < j < ops.len(),
        ops[i] == PageOp::Take(page),
        ops[j] == PageOp::Take(page),
    ensures
        freed_between(ops, i + 1, j, page),
{
    assert(page_step(pmm, &states[i], ops[i], &states[i + 1]));
    assert(page_step(pmm, &states[j], ops[j], &states[j + 1]));
    if !freed_between(ops, i + 1, j, page) {
        lemma_stays_allocated(pmm, states, ops, i + 1, j, page);
    }
}

/// A page that is allocated was available from the start, or has been freed.
pub proof fn law_allocated_page_was_available<M: LinearMemory>(
    pmm: &PhysicalMemoryManager,
    states: Seq<M>,
    ops: Seq<PageOp>,
    j: int,
    page: u64,
)
    requires
        page_history(pmm, states, ops),
        0 <= j < ops.len(),
        ops[j] == PageOp::Take(page),
    ensures
        pmm.available(&states[0], page as int) || freed_between(ops, 0, j, page),
{
    assert(page_step(pmm, &states[j], ops[j], &states[j + 1]));
    if !pmm.available(&states[0], page as int) && !freed_between(ops, 0, j, page) {
        lemma_stays_allocated(pmm, states, ops, 0, j, page);
    }
}

/// The pages, among those with one of `bits` bits, that are available in a bitmap that starts at
/// word `first`.
pub open spec fn available_pages(words: Words, first: int, bits: int) -> Set<int> {
    Set::new(|p: int| 0 <= p < bits && bitmap_bit(words, first, p))
}

/// The calls that were given a page.
pub open spec fn served(results: Seq<Option<u64>>) -> Set<int> {
    Set::new(|c: int| 0 <= c < results.len() && results[c] is Some)
}

/// Whether one of the first `n` calls was given page `page`.
pub open spec fn given(results: Seq<Option<u64>>, n: int, page: int) -> bool {
    exists|c: int|
        0 <= c < n && (#[trigger] results[c] matches Some(index) && index == page)
}

/// Whether the available pages are shared out among some calls, where `results` is what each of
/// the calls was given: each page was available, no page is given to two calls, the number of
/// calls that are given a page is the smaller of the number of calls and the number of available
/// pages, and the pages that are given to no call stay available.
pub open spec fn shares_out(
    before: Words,
    results: Seq<Option<u64>>,
    after: Words,
    first: int,
    bits: int,
) -> bool {
    &&& forall|c: int|
        0 <= c < results.len() ==> (#[trigger] results[c] matches Some(index) ==> index < bits
            && bitmap_bit(before, first, index as int))
    &&& forall|c: int, d: int|
        0 <= c < d < results.len() && results[c] is Some ==> #[trigger] results[c]
            != #[trigger] results[d]
    &&& available_pages(before, first, bits).finite()
    &&& served(results).finite()
    &&& served(results).len() == if results.len() <= available_pages(before, first, bits).len() {
        results.len()
    } else {
        available_pages(before, first, bits).len()
    }
    &&& forall|p: int|
        0 <= p < bits ==> #[trigger] bitmap_bit(after, first, p) == (bitmap_bit(before, first, p)
            && !given(results, results.len() as int, p))
}

/// Counts the pages that calls were given, if no call was refused while a page was left.
proof fn lemma_shares_out(
    before: Words,
    results: Seq<Option<u64>>,
    after: Words,
    first: int,
    bits: int,
)
    requires
        forall|c: int|
            0 <= c < results.len() ==> (#[trigger] results[c] matches Some(index) ==> index < bits
                && bitmap_bit(before, first, index as int)),
        forall|c: int, d: int|
            0 <= c < d < results.len() && results[c] is Some ==> #[trigger] results[c]
                != #[trigger] results[d],
        forall|p: int|
            0 <= p < bits ==> #[trigger] bitmap_bit(after, first, p) == (bitmap_bit(
                before,
                first,
                p,
            ) && !given(results, results.len() as int, p)),
        forall|c: int|
            0 <= c < results.len() && #[trigger] results[c] is None ==> available_pages(
                after,
                first,
                bits,
            ) =~= Set::<int>::empty(),
    ensures
        shares_out(before, results, after, first, bits),
{
    let count = results.len() as int;
    let pages = available_pages(before, first, bits);
    let calls = served(results);
    let page_of = |c: int| results[c]->Some_0 as int;
    let taken = calls.map(page_of);
    if bits >= 0 {
        lemma_int_range(0, bits);
    } else {
        assert(set_int_range(0, bits) =~= Set::empty());
    }
    lemma_len_subset(pages, set_int_range(0, bits));
    lemma_int_range(0, count);
    lemma_len_subset(calls, set_int_range(0, count));
    assert(injective_on(page_of, calls)) by {
        assert forall|c: int, d: int|
            calls.contains(c) && calls.contains(d) && #[trigger] page_of(c) == #[trigger] page_of(
                d,
            ) implies c == d by {
            if c < d {
                assert(results[c] == results[d]);
            } else if d < c {
                assert(results[d] == results[c]);
            }
        }
    }
    lemma_map_size(calls, taken, page_of);
    assert forall|p: int| taken.contains(p) implies pages.contains(p) by {
        let c = choose|c: int| calls.contains(c) && p == page_of(c);
        assert(results[c] is Some);
    }
    lemma_len_subset(taken, pages);
    if exists|c: int| 0 <= c < count && #[trigger] results[c] is None {
        assert forall|p: int| pages.contains(p) implies taken.contains(p) by {
            assert(!available_pages(after, first, bits).contains(p));
            assert(!bitmap_bit(after, first, p));
            assert(given(results, count, p));
            let c = choose|c: int|
                0 <= c < count && (#[trigger] results[c] matches Some(index) && index == p);
            assert(calls.contains(c) && page_of(c) == p);
        }
        assert(taken =~= pages);
    } else {
        assert forall|c: int| 0 <= c < count implies calls.contains(c) by {
            assert(results[c] is Some);
        }
        assert(calls =~= set_int_range(0, count));
    }
}

/// What a call does: it allocates a page, if there is one, or it frees a page.
pub enum PageCall {
    /// A call of [`PhysicalMemoryManager::allocate_shared_page`], and what it returns.
    Allocated(Option<u64>),
    /// A call of [`PhysicalMemoryManager::free_shared_page`], and the page that it frees.
    Freed(u64),
}

impl PageCall {
    /// Whether the call is given page `page`.
    pub open spec fn gives(self, page: int) -> bool {
        self matches PageCall::Allocated(Some(index)) && index == page
    }
}

/// An operation on a bitmap, and the call that it belongs to.
pub struct Step {
    pub call: int,
    pub op: MemOp,
}

/// The operations of some steps.
pub open spec fn ops_of(history: Seq<Step>) -> MemLog {
    history.map_values(|step: Step| step.op)
}

/// The operations that belong to a call.
pub open spec fn ops_by(history: Seq<Step>, call: int) -> MemLog
    decreases history.len(),
{
    if history.len() == 0 {
        Seq::empty()
    } else {
        let before = ops_by(history.drop_last(), call);
        if history.last().call == call {
            before.push(history.last().op)
        } else {
            before
        }
    }
}

/// Whether `history` is a history of a bitmap of `count` words from position `first` on, in memory
/// that holds `words` at the start: the operations of several calls that run at the same time, in
/// the order in which they happen. Each operation finds what the ones before it have left. The
/// operations of each call are those that [`PhysicalMemoryManager::allocate_shared_page`] and
/// [`PhysicalMemoryManager::free_shared_page`] record.
pub open spec fn call_history(
    words: Words,
    history: Seq<Step>,
    calls: Seq<PageCall>,
    first: int,
    count: int,
) -> bool {
    &&& 0 <= first
    &&& 0 <= count
    &&& first + count <= words.len()
    &&& consistent(words, ops_of(history))
    &&& forall|i: int| 0 <= i < history.len() ==> 0 <= (#[trigger] history[i]).call < calls.len()
    &&& forall|c: int|
        0 <= c < calls.len() ==> match #[trigger] calls[c] {
            PageCall::Allocated(page) => page_call(ops_by(history, c), first, count, page),
            PageCall::Freed(page) => page < 64 * count && free_call(
                ops_by(history, c),
                first,
                page as int,
            ),
        }
}

/// What memory holds before step `n`.
pub open spec fn words_at(words: Words, history: Seq<Step>, n: int) -> Words {
    run(words, ops_of(history).take(n))
}

/// Whether page `page` is freed by one of the steps from `from` up to `to`.
pub open spec fn freed_in(
    history: Seq<Step>,
    calls: Seq<PageCall>,
    first: int,
    from: int,
    to: int,
    page: u64,
) -> bool {
    exists|k: int|
        {
            &&& from <= k < to
            &&& op_frees((#[trigger] history[k]).op, first, page as int)
            &&& calls[history[k].call] == PageCall::Freed(page)
        }
}

/// Each operation finds what the ones before it have left.
proof fn lemma_consistent_take(words: Words, ops: MemLog, n: int)
    requires
        consistent(words, ops),
        0 <= n <= ops.len(),
    ensures
        consistent(words, ops.take(n)),
    decreases ops.len(),
{
    if n == ops.len() {
        assert(ops.take(n) =~= ops);
    } else {
        lemma_consistent_take(words, ops.drop_last(), n);
        assert(ops.drop_last().take(n) =~= ops.take(n));
    }
}

/// What one step does to memory.
proof fn lemma_step(words: Words, history: Seq<Step>, n: int)
    requires
        consistent(words, ops_of(history)),
        0 <= n < history.len(),
    ensures
        words_at(words, history, n + 1) == history[n].op.applied(words_at(words, history, n)),
        history[n].op.found() == words_at(words, history, n)[history[n].op.index()],
{
    let ops = ops_of(history);
    lemma_consistent_take(words, ops, n + 1);
    assert(ops.take(n + 1).drop_last() =~= ops.take(n));
    assert(ops.take(n + 1).last() == history[n].op);
}

/// A step is one of the operations of its call.
proof fn lemma_step_of_call(history: Seq<Step>, i: int)
    requires
        0 <= i < history.len(),
    ensures
        ({
            let j = ops_by(history.take(i), history[i].call).len() as int;
            &&& 0 <= j < ops_by(history, history[i].call).len()
            &&& ops_by(history, history[i].call)[j] == history[i].op
        }),
    decreases history.len(),
{
    let shorter = history.drop_last();
    let c = history[i].call;
    if i == history.len() - 1 {
        assert(history.take(i) =~= shorter);
    } else {
        lemma_step_of_call(shorter, i);
        assert(shorter.take(i) =~= history.take(i));
        assert(shorter[i] == history[i]);
        let j = ops_by(history.take(i), c).len() as int;
        assert(ops_by(history, c)[j] == ops_by(shorter, c)[j]);
    }
}

/// An operation of a call is one of the steps.
proof fn lemma_call_has_step(history: Seq<Step>, c: int, j: int) -> (i: int)
    requires
        0 <= j < ops_by(history, c).len(),
    ensures
        0 <= i < history.len(),
        history[i].call == c,
        history[i].op == ops_by(history, c)[j],
        ops_by(history.take(i), c).len() == j,
    decreases history.len(),
{
    let shorter = history.drop_last();
    if j < ops_by(shorter, c).len() {
        let i = lemma_call_has_step(shorter, c, j);
        assert(shorter.take(i) =~= history.take(i));
        i
    } else {
        assert(history.take(history.len() - 1) =~= shorter);
        history.len() - 1
    }
}

/// A page is taken out of a word at one position only.
proof fn lemma_takes_one(op: MemOp, first: int, p: int, q: int)
    requires
        op_takes(op, first, p),
        op_takes(op, first, q),
    ensures
        p == q,
{
    if let MemOp::Exchange { current, .. } = op {
        if p % 64 < q % 64 {
            assert(!bit(current, p % 64));
        } else if q % 64 < p % 64 {
            assert(!bit(current, q % 64));
        }
    }
}

/// A step changes nothing, or takes the page that its call returns, or frees the page that its
/// call frees.
proof fn lemma_step_kind(
    words: Words,
    history: Seq<Step>,
    calls: Seq<PageCall>,
    first: int,
    count: int,
    i: int,
)
    requires
        call_history(words, history, calls, first, count),
        0 <= i < history.len(),
    ensures
        ({
            let op = history[i].op;
            match calls[history[i].call] {
                PageCall::Allocated(Some(page)) => op.quiet() || (page < 64 * count && op_takes(
                    op,
                    first,
                    page as int,
                )),
                PageCall::Allocated(None) => op.quiet(),
                PageCall::Freed(page) => page < 64 * count && op_frees(op, first, page as int),
            }
        }),
        forall|p: int| #[trigger]
            op_takes(history[i].op, first, p) ==> calls[history[i].call].gives(p),
{
    let c = history[i].call;
    let op = history[i].op;
    lemma_step_of_call(history, i);
    let j = ops_by(history.take(i), c).len() as int;
    let own = ops_by(history, c);
    assert(own[j] == op);
    assert forall|p: int| #[trigger] op_takes(op, first, p) implies calls[c].gives(p) by {
        match calls[c] {
            PageCall::Allocated(Some(page)) => {
                assert(op_takes(op, first, page as int));
                lemma_takes_one(op, first, p, page as int);
            },
            PageCall::Allocated(None) => {
                assert(own[j].quiet());
            },
            PageCall::Freed(page) => {},
        }
    }
}

/// What one step does to the bitmap.
proof fn lemma_step_bits(
    words: Words,
    history: Seq<Step>,
    calls: Seq<PageCall>,
    first: int,
    count: int,
    n: int,
)
    requires
        call_history(words, history, calls, first, count),
        0 <= n < history.len(),
        words_at(words, history, n).len() == words.len(),
    ensures
        words_at(words, history, n + 1).len() == words.len(),
        ({
            let op = history[n].op;
            let before = words_at(words, history, n);
            let after = words_at(words, history, n + 1);
            &&& forall|p: int| #[trigger]
                op_takes(op, first, p) ==> 0 <= p < 64 * count && bitmap_bit(before, first, p)
            &&& forall|p: int|
                0 <= p < 64 * count ==> #[trigger] bitmap_bit(after, first, p) == ((bitmap_bit(
                    before,
                    first,
                    p,
                ) && !op_takes(op, first, p)) || op_frees(op, first, p))
        }),
{
    let op = history[n].op;
    let before = words_at(words, history, n);
    let after = words_at(words, history, n + 1);
    lemma_step(words, history, n);
    lemma_step_kind(words, history, calls, first, count, n);
    assert forall|p: int| #[trigger] op_takes(op, first, p) implies 0 <= p < 64 * count
        && bitmap_bit(before, first, p) by {}
    assert forall|p: int| 0 <= p < 64 * count implies #[trigger] bitmap_bit(after, first, p) == ((
    bitmap_bit(before, first, p) && !op_takes(op, first, p)) || op_frees(op, first, p)) by {
        match op {
            MemOp::Load { .. } => {},
            MemOp::Exchange { index, current, new, found } => {
                if found == current {
                    if first + p / 64 == index {
                        assert(bit(new, p % 64) == (bit(current, p % 64) && !op_takes(
                            op,
                            first,
                            p,
                        ))) by {
                            if let PageCall::Allocated(Some(page)) = calls[history[n].call] {
                                assert(bit(new, p % 64) == (bit(current, p % 64) && p % 64
                                    != page as int % 64));
                                if op_takes(op, first, p) {
                                    lemma_takes_one(op, first, p, page as int);
                                }
                            }
                        }
                    } else {
                        assert(after[first + p / 64] == before[first + p / 64]);
                    }
                }
            },
            MemOp::SetBits { index, mask, found } => {
                if let PageCall::Freed(page) = calls[history[n].call] {
                    if first + p / 64 == index {
                        lemma_bit_set(found, page as int % 64, p % 64);
                        if op_frees(op, first, p) {
                            lemma_bit_set(0, page as int % 64, p % 64);
                            lemma_bit_set(0, p % 64, p % 64);
                            lemma_bit_zero(p % 64);
                        }
                    } else {
                        assert(after[first + p / 64] == before[first + p / 64]);
                    }
                }
            },
        }
    }
}

/// The window keeps its length.
proof fn lemma_len_at(
    words: Words,
    history: Seq<Step>,
    calls: Seq<PageCall>,
    first: int,
    count: int,
    n: int,
)
    requires
        call_history(words, history, calls, first, count),
        0 <= n <= history.len(),
    ensures
        words_at(words, history, n).len() == words.len(),
    decreases n,
{
    if n > 0 {
        lemma_len_at(words, history, calls, first, count, n - 1);
        lemma_step_bits(words, history, calls, first, count, n - 1);
    } else {
        assert(ops_of(history).take(0) =~= Seq::<MemOp>::empty());
    }
}

/// A page that is not available does not become available unless it is freed.
proof fn lemma_stays_taken(
    words: Words,
    history: Seq<Step>,
    calls: Seq<PageCall>,
    first: int,
    count: int,
    from: int,
    to: int,
    page: u64,
)
    requires
        call_history(words, history, calls, first, count),
        0 <= from <= to <= history.len(),
        page < 64 * count,
        !bitmap_bit(words_at(words, history, from), first, page as int),
        !freed_in(history, calls, first, from, to, page),
    ensures
        !bitmap_bit(words_at(words, history, to), first, page as int),
    decreases to - from,
{
    if from < to {
        assert(!freed_in(history, calls, first, from, to - 1, page)) by {
            if freed_in(history, calls, first, from, to - 1, page) {
                let k = choose|k: int|
                    {
                        &&& from <= k < to - 1
                        &&& op_frees((#[trigger] history[k]).op, first, page as int)
                        &&& calls[history[k].call] == PageCall::Freed(page)
                    };
                assert(from <= k < to && op_frees(history[k].op, first, page as int));
            }
        }
        lemma_stays_taken(words, history, calls, first, count, from, to - 1, page);
        lemma_len_at(words, history, calls, first, count, to - 1);
        lemma_step_bits(words, history, calls, first, count, to - 1);
        lemma_step_kind(words, history, calls, first, count, to - 1);
        if op_frees(history[to - 1].op, first, page as int) {
            if let PageCall::Freed(other) = calls[history[to - 1].call] {
                lemma_frees_one(history[to - 1].op, first, page as int, other as int);
            }
            assert(calls[history[to - 1].call] == PageCall::Freed(page));
        }
    }
}

/// An operation frees one page only.
proof fn lemma_frees_one(op: MemOp, first: int, p: int, q: int)
    requires
        op_frees(op, first, p),
        op_frees(op, first, q),
        0 <= p,
        0 <= q,
    ensures
        p == q,
{
    lemma_bit_set(0, p % 64, p % 64);
    lemma_bit_set(0, q % 64, p % 64);
    lemma_bit_zero(p % 64);
}

/// The step by which a call takes the page that it returns.
proof fn lemma_taking_step(
    words: Words,
    history: Seq<Step>,
    calls: Seq<PageCall>,
    first: int,
    count: int,
    c: int,
    page: u64,
) -> (i: int)
    requires
        call_history(words, history, calls, first, count),
        0 <= c < calls.len(),
        calls[c] == PageCall::Allocated(Some(page)),
    ensures
        0 <= i < history.len(),
        history[i].call == c,
        op_takes(history[i].op, first, page as int),
        page < 64 * count,
        bitmap_bit(words_at(words, history, i), first, page as int),
        !bitmap_bit(words_at(words, history, i + 1), first, page as int),
{
    let own = ops_by(history, c);
    assert(page_call(own, first, count, Some(page)));
    let i = lemma_call_has_step(history, c, own.len() - 1);
    lemma_len_at(words, history, calls, first, count, i);
    lemma_step_bits(words, history, calls, first, count, i);
    i
}

/// If two calls that run at the same time are given the same page, then the page has been freed
/// after the one has taken it, and before the other has. Gives back the two steps.
pub proof fn law_page_given_twice_was_freed(
    words: Words,
    history: Seq<Step>,
    calls: Seq<PageCall>,
    first: int,
    count: int,
    c: int,
    d: int,
    page: u64,
) -> (steps: (int, int))
    requires
        call_history(words, history, calls, first, count),
        0 <= c < calls.len(),
        0 <= d < calls.len(),
        c != d,
        calls[c] == PageCall::Allocated(Some(page)),
        calls[d] == PageCall::Allocated(Some(page)),
    ensures
        0 <= steps.0 < steps.1 < history.len(),
        (history[steps.0].call == c && history[steps.1].call == d) || (history[steps.0].call == d
            && history[steps.1].call == c),
        op_takes(history[steps.0].op, first, page as int),
        op_takes(history[steps.1].op, first, page as int),
        freed_in(history, calls, first, steps.0 + 1, steps.1, page),
{
    let i = lemma_taking_step(words, history, calls, first, count, c, page);
    let j = lemma_taking_step(words, history, calls, first, count, d, page);
    let (x, y) = if i < j {
        (i, j)
    } else {
        (j, i)
    };
    if !freed_in(history, calls, first, x + 1, y, page) {
        lemma_stays_taken(words, history, calls, first, count, x + 1, y, page);
    }
    (x, y)
}

/// A page that a call is given was available at the start, or has been freed before the call took
/// it. Gives back the step by which it is taken.
pub proof fn law_page_given_was_available(
    words: Words,
    history: Seq<Step>,
    calls: Seq<PageCall>,
    first: int,
    count: int,
    c: int,
    page: u64,
) -> (step: int)
    requires
        call_history(words, history, calls, first, count),
        0 <= c < calls.len(),
        calls[c] == PageCall::Allocated(Some(page)),
    ensures
        0 <= step < history.len(),
        history[step].call == c,
        op_takes(history[step].op, first, page as int),
        bitmap_bit(words, first, page as int) || freed_in(history, calls, first, 0, step, page),
{
    let i = lemma_taking_step(words, history, calls, first, count, c, page);
    assert(ops_of(history).take(0) =~= Seq::<MemOp>::empty());
    if !bitmap_bit(words, first, page as int) && !freed_in(history, calls, first, 0, i, page) {
        lemma_stays_taken(words, history, calls, first, count, 0, i, page);
    }
    i
}

/// Calls that return `results`, and none that frees a page.
pub open spec fn allocations(results: Seq<Option<u64>>) -> Seq<PageCall> {
    results.map_values(|page: Option<u64>| PageCall::Allocated(page))
}

/// Whether one of the first `n` steps takes page `page`.
pub open spec fn taken_by(history: Seq<Step>, first: int, n: int, page: int) -> bool {
    exists|i: int| 0 <= i < n && op_takes((#[trigger] history[i]).op, first, page)
}

/// While no page is freed, the available pages are those that were available at the start and
/// have not been taken.
proof fn lemma_available_after(
    words: Words,
    history: Seq<Step>,
    results: Seq<Option<u64>>,
    first: int,
    count: int,
    n: int,
    p: int,
)
    requires
        call_history(words, history, allocations(results), first, count),
        0 <= n <= history.len(),
        0 <= p < 64 * count,
    ensures
        bitmap_bit(words_at(words, history, n), first, p) == (bitmap_bit(words, first, p)
            && !taken_by(history, first, n, p)),
    decreases n,
{
    let calls = allocations(results);
    if n == 0 {
        assert(ops_of(history).take(0) =~= Seq::<MemOp>::empty());
    } else {
        lemma_available_after(words, history, results, first, count, n - 1, p);
        lemma_len_at(words, history, calls, first, count, n - 1);
        lemma_step_bits(words, history, calls, first, count, n - 1);
        lemma_step_kind(words, history, calls, first, count, n - 1);
        assert(calls[history[n - 1].call] is Allocated);
        if taken_by(history, first, n, p) {
            let i = choose|i: int| 0 <= i < n && op_takes((#[trigger] history[i]).op, first, p);
            if i < n - 1 {
                assert(taken_by(history, first, n - 1, p));
            }
        }
        if taken_by(history, first, n - 1, p) {
            let i = choose|i: int| 0 <= i < n - 1 && op_takes((#[trigger] history[i]).op, first, p);
            assert(op_takes(history[i].op, first, p));
        }
    }
}

/// Calls of [`PhysicalMemoryManager::allocate_shared_page`] that run at the same time share the
/// available pages out among them, while no page is freed: all of the pages that they are given
/// are different and were available before, as many calls are given a page as there are calls,
/// or pages if these are fewer, and the other pages stay available.
pub proof fn law_calls_at_the_same_time(
    words: Words,
    history: Seq<Step>,
    results: Seq<Option<u64>>,
    first: int,
    count: int,
)
    requires
        call_history(words, history, allocations(results), first, count),
    ensures
        shares_out(words, results, run(words, ops_of(history)), first, 64 * count),
{
    let calls = allocations(results);
    let bits = 64 * count;
    let n = history.len() as int;
    let last = run(words, ops_of(history));
    assert(ops_of(history).take(n) =~= ops_of(history));
    assert forall|c: int| 0 <= c < results.len() implies #[trigger] calls[c] == PageCall::Allocated(
        results[c],
    ) by {}
    assert forall|c: int| 0 <= c < results.len() implies (#[trigger] results[c] matches Some(index)
        ==> index < bits && bitmap_bit(words, first, index as int)) by {
        if let Some(index) = results[c] {
            let i = lemma_taking_step(words, history, calls, first, count, c, index);
            lemma_available_after(words, history, results, first, count, i, index as int);
        }
    }
    assert forall|c: int, d: int| 0 <= c < d < results.len() && results[c] is Some implies
        #[trigger] results[c] != #[trigger] results[d] by {
        if results[c] == results[d] {
            let page = results[c]->Some_0;
            let (x, y) = law_page_given_twice_was_freed(
                words,
                history,
                calls,
                first,
                count,
                c,
                d,
                page,
            );
            let k = choose|k: int|
                {
                    &&& x < k < y
                    &&& op_frees((#[trigger] history[k]).op, first, page as int)
                    &&& calls[history[k].call] == PageCall::Freed(page)
                };
            assert(calls[history[k].call] is Allocated);
        }
    }
    assert forall|p: int| 0 <= p < bits implies #[trigger] bitmap_bit(last, first, p) == (
    bitmap_bit(words, first, p) && !given(results, results.len() as int, p)) by {
        lemma_available_after(words, history, results, first, count, n, p);
        if given(results, results.len() as int, p) {
            let c = choose|c: int|
                0 <= c < results.len() && (#[trigger] results[c] matches Some(index) && index
                    == p);
            let i = lemma_taking_step(words, history, calls, first, count, c, p as u64);
            assert(taken_by(history, first, n, p));
        }
        if taken_by(history, first, n, p) {
            let i = choose|i: int| 0 <= i < n && op_takes((#[trigger] history[i]).op, first, p);
            lemma_step_kind(words, history, calls, first, count, i);
            let c = history[i].call;
            assert(results[c] matches Some(index) && index == p);
        }
    }
    assert forall|c: int| 0 <= c < results.len() && #[trigger] results[c] is None implies
        available_pages(last, first, bits) =~= Set::<int>::empty() by {
        let own = ops_by(history, c);
        assert(calls[c] == PageCall::Allocated(None));
        assert(page_call(own, first, count, None));
        assert forall|p: int| 0 <= p < bits implies !#[trigger] bitmap_bit(last, first, p) by {
            let w = first + p / 64;
            assert(finds_zero(own, w));
            let j = choose|j: int|
                0 <= j < own.len() && (#[trigger] own[j]).index() == w && own[j].found() == 0;
            let i = lemma_call_has_step(history, c, j);
            lemma_step(words, history, i);
            lemma_bit_zero(p % 64);
            assert(!bitmap_bit(words_at(words, history, i), first, p));
            lemma_available_after(words, history, results, first, count, i, p);
            lemma_available_after(words, history, results, first, count, n, p);
            if taken_by(history, first, i, p) {
                let k = choose|k: int|
                    0 <= k < i && op_takes((#[trigger] history[k]).op, first, p);
                assert(0 <= k < n && op_takes(history[k].op, first, p));
                assert(taken_by(history, first, n, p));
            }
        }
    }
    lemma_shares_out(words, results, last, first, bits);
}

/// Whether calls of [`PhysicalMemoryManager::allocate_page`], one after the other, take memory
/// from each of the `states` to the next one, and return `results`.
pub open spec fn calls_in_turn<M: LinearMemory>(
    pmm: &PhysicalMemoryManager,
    states: Seq<M>,
    results: Seq<Option<u64>>,
) -> bool {
    &&& states.len() == results.len() + 1
    &&& forall|i: int|
        0 <= i < results.len() ==> pmm.allocates_page(
            &states[i],
            #[trigger] results[i],
            &states[i + 1],
        ) && states[i + 1].base() == states[i].base()
}

/// What the first calls of [`PhysicalMemoryManager::allocate_page`], one after the other, have
/// been given.
proof fn lemma_calls_in_turn<M: LinearMemory>(
    pmm: &PhysicalMemoryManager,
    states: Seq<M>,
    results: Seq<Option<u64>>,
    n: int,
)
    requires
        calls_in_turn(pmm, states, results),
        0 <= n <= results.len(),
    ensures
        states[n].base() == states[0].base(),
        forall|c: int|
            0 <= c < n ==> (#[trigger] results[c] matches Some(index) ==> index < pmm.bit_count()
                && pmm.available(&states[0], index as int)),
        forall|c: int, d: int|
            0 <= c < d < n && results[c] is Some ==> #[trigger] results[c] != #[trigger] results[d],
        forall|p: int|
            0 <= p < pmm.bit_count() ==> #[trigger] pmm.available(&states[n], p) == (
            pmm.available(&states[0], p) && !given(results, n, p)),
        forall|c: int|
            0 <= c < n && #[trigger] results[c] is None ==> forall|p: int|
                0 <= p < pmm.bit_count() ==> !#[trigger] pmm.available(&states[n], p),
    decreases n,
{
    if n > 0 {
        lemma_calls_in_turn(pmm, states, results, n - 1);
        let mem = &states[n - 1];
        let after = &states[n];
        let result = results[n - 1];
        assert(pmm.allocates_page(mem, result, after));
        assert forall|p: int| 0 <= p < pmm.bit_count() implies #[trigger] pmm.available(after, p)
            == (pmm.available(mem, p) && !(result matches Some(index) && index == p)) by {}
        assert forall|p: int| 0 <= p < pmm.bit_count() implies given(results, n, p) == (given(
            results,
            n - 1,
            p,
        ) || (result matches Some(index) && index == p)) by {
            if given(results, n, p) {
                let c = choose|c: int|
                    0 <= c < n && (#[trigger] results[c] matches Some(index) && index == p);
                if c < n - 1 {
                    assert(given(results, n - 1, p));
                }
            }
            if given(results, n - 1, p) {
                let c = choose|c: int|
                    0 <= c < n - 1 && (#[trigger] results[c] matches Some(index) && index == p);
                assert(results[c] matches Some(index) && index == p);
            }
            if result is Some {
                assert(results[n - 1] is Some);
            }
        }
        if let Some(index) = result {
            assert(pmm.available(mem, index as int));
            assert(!given(results, n - 1, index as int));
        }
    }
}

/// Calls of [`PhysicalMemoryManager::allocate_page`] one after the other share the available
/// pages out among them.
pub proof fn law_calls_in_turn<M: LinearMemory>(
    pmm: &PhysicalMemoryManager,
    states: Seq<M>,
    results: Seq<Option<u64>>,
)
    requires
        calls_in_turn(pmm, states, results),
    ensures
        shares_out(
            states[0].words(),
            results,
            states.last().words(),
            pmm.first_word(&states[0]),
            pmm.bit_count(),
        ),
{
    let first = pmm.first_word(&states[0]);
    let before = &states[0];
    let after = &states.last();
    lemma_calls_in_turn(pmm, states, results, results.len() as int);
    assert forall|p: int| 0 <= p < pmm.bit_count() implies #[trigger] bitmap_bit(
        after.words(),
        first,
        p,
    ) == (bitmap_bit(before.words(), first, p) && !given(results, results.len() as int, p)) by {
        assert(pmm.available(after, p) == (pmm.available(before, p) && !given(
            results,
            results.len() as int,
            p,
        )));
    }
    assert forall|c: int| 0 <= c < results.len() && #[trigger] results[c] is None implies
        available_pages(after.words(), first, pmm.bit_count()) =~= Set::<int>::empty() by {
        assert forall|p: int| 0 <= p < pmm.bit_count() implies !#[trigger] bitmap_bit(
            after.words(),
            first,
            p,
        ) by {
            assert(!pmm.available(after, p));
        }
    }
    assert forall|c: int| 0 <= c < results.len() implies (#[trigger] results[c] matches Some(index)
        ==> index < pmm.bit_count() && bitmap_bit(before.words(), first, index as int)) by {
        if let Some(index) = results[c] {
            assert(pmm.available(before, index as int));
        }
    }
    lemma_shares_out(before.words(), results, after.words(), first, pmm.bit_count());
}

/// A usable page lies below the number of pages that the bitmap is for. So the bits that the
/// last word of the bitmap has beyond that number are never set to start with, and no memory is
/// allocated that does not exist.
pub proof fn law_usable_page_exists(descs: Seq<MemoryDescriptor>, page: int)
    requires
        regions_fit(descs),
        usable_page(descs, page),
    ensures
        page < page_limit(descs),
        (page + 1) * PAGE_SIZE <= addr_limit(descs),
{
    lemma_addr_limit(descs);
    let i = choose|i: int|
        0 <= i < descs.len() && #[trigger] usable(descs[i].ty) && page_inside(descs[i], page);
    assert(descs[i].phys_end() <= addr_limit(descs));
}

/// There is only one way to list the runs of free pages.
pub proof fn law_runs_unique(
    a: Seq<Range<u64>>,
    b: Seq<Range<u64>>,
    free: spec_fn(int) -> bool,
    count: int,
)
    requires
        are_runs(a, free, count),
        are_runs(b, free, count),
    ensures
        a == b,
{
    if a.len() <= b.len() {
        lemma_runs_prefix(a, b, free, count, a.len() as int);
        lemma_runs_same_len(a, b, free, count);
    } else {
        lemma_runs_prefix(b, a, free, count, b.len() as int);
        lemma_runs_same_len(b, a, free, count);
    }
    assert(a =~= b);
}

/// If the first `n` runs are the same, the next run of `b`, if any, starts where the one of `a`
/// starts, or later.
proof fn lemma_next_run_start(
    a: Seq<Range<u64>>,
    b: Seq<Range<u64>>,
    free: spec_fn(int) -> bool,
    count: int,
    n: int,
)
    requires
        are_runs(a, free, count),
        are_runs(b, free, count),
        0 <= n < b.len(),
        n <= a.len(),
        forall|i: int| 0 <= i < n ==> a[i] == b[i],
    ensures
        n < a.len(),
        a[n].start <= b[n].start,
{
    assert(is_run(b[n], free, count));
    assert(free(b[n].start as int));
    assert(in_regions(a, b[n].start as int));
    let k = choose|k: int| 0 <= k < a.len() && (#[trigger] a[k]).start <= b[n].start < a[k].end;
    if k < n {
        assert(a[k] == b[k]);
        assert(b[k].end < b[n].start);
    } else if k > n {
        assert(a[n].end < a[k].start);
        assert(is_run(a[n], free, count));
    }
}

proof fn lemma_runs_prefix(
    a: Seq<Range<u64>>,
    b: Seq<Range<u64>>,
    free: spec_fn(int) -> bool,
    count: int,
    n: int,
)
    requires
        are_runs(a, free, count),
        are_runs(b, free, count),
        0 <= n <= a.len() <= b.len(),
    ensures
        forall|i: int| 0 <= i < n ==> a[i] == b[i],
    decreases n,
{
    if n > 0 {
        lemma_runs_prefix(a, b, free, count, n - 1);
        lemma_next_run_start(a, b, free, count, n - 1);
        lemma_next_run_start(b, a, free, count, n - 1);
        let x = a[n - 1];
        let y = b[n - 1];
        assert(is_run(x, free, count));
        assert(is_run(y, free, count));
        if x.end < y.end {
            assert(free(x.end as int));
        }
        if y.end < x.end {
            assert(free(y.end as int));
        }
    }
}

proof fn lemma_runs_same_len(
    a: Seq<Range<u64>>,
    b: Seq<Range<u64>>,
    free: spec_fn(int) -> bool,
    count: int,
)
    requires
        are_runs(a, free, count),
        are_runs(b, free, count),
        a.len() <= b.len(),
        forall|i: int| 0 <= i < a.len() ==> a[i] == b[i],
    ensures
        a.len() == b.len(),
{
    if a.len() < b.len() {
        lemma_next_run_start(a, b, free, count, a.len() as int);
    }
}

/// Whether the physical memory below `limit` is mapped in `mem`, at addresses that pointers can
/// hold.
pub open spec fn window_covers<M: LinearMemory>(mem: &M, limit: int) -> bool {
    &&& limit <= 8 * mem.words().len()
    &&& limit <= 0x10_0000_0000_0000
    &&& 0 < mem.base()
    &&& mem.base() + limit <= u64::MAX
    &&& mem.base() >= 0xFFFF_8000_0000_0000 || mem.base() + limit <= 0x8000_0000_0000
}

/// After the manager was set up, each page that can be allocated is memory that can be used: it
/// exists, it is mapped, and the bitmap is somewhere else.
pub proof fn law_init_pages_ready<M: LinearMemory>(
    pmm: &PhysicalMemoryManager,
    mem: &M,
    descs: Seq<MemoryDescriptor>,
)
    requires
        regions_fit(descs),
        window_covers(mem, addr_limit(descs)),
        bitmap_region(descs) is Some,
        pmm.wf(mem),
        pmm.physical_offset == mem.base(),
        pmm.bitmap_ptr == mem.base() + bitmap_region(descs)->Some_0.phys_start,
        forall|p: int|
            0 <= p < pmm.bit_count() ==> #[trigger] pmm.available(mem, p) == (usable_page(descs, p)
                && !page_touched(
                bitmap_region(descs)->Some_0.phys_start as int,
                8 * pmm.word_count(),
                p,
            )),
    ensures
        pages_ready(pmm, mem),
{
    assert forall|p: int| 0 <= p < pmm.bit_count() && #[trigger] pmm.available(mem, p) implies
        page_ready(pmm, mem, p) by {
        law_usable_page_exists(descs, p);
        assert forall|w: int| word_in_page(w, p) implies !#[trigger] pmm.holds_word(mem, w) by {
            let start = bitmap_region(descs)->Some_0.phys_start as int;
            assert(!page_touched(start, 8 * pmm.word_count(), p));
        }
    }
}

} // verus!
