//! What memory that was written holds when it is read back, and what a lock does to its flag.

use elf::ParseError;
use vstd::prelude::*;
use x86_64::structures::paging::page::AddressNotAligned;

use crate::loader::LoaderError;
use crate::memory::{LinearMemory, PhysicalMemory};
use crate::memory_map::{MemoryDescriptor, MemoryMap, TestMemoryMap};
use crate::spinlock::{acquire, release, SharedFlag, SpinLock, SpinLockGuard};

verus! {

/// New memory holds the words that it was made with: the word at each address is the one that lies
/// as far from the start.
pub proof fn law_new_memory_reads_words(
    base: u64,
    words: Vec<u64>,
    memory: PhysicalMemory,
    addr: u64,
    value: u64,
)
    requires
        base <= addr,
        (addr - base) % 8 == 0,
        (addr - base) / 8 < words@.len(),
        call_ensures(PhysicalMemory::new, (base, words), memory),
        call_ensures(<PhysicalMemory as LinearMemory>::read, (&memory, addr), value),
    ensures
        value == words@[(addr - base) / 8],
{
}

/// A word that is written is read back, and each other word is as it was.
pub proof fn law_write_then_read<M: LinearMemory>(
    mem: &mut M,
    addr: u64,
    value: u64,
    at: u64,
    found: u64,
    earlier: u64,
)
    requires
        old(mem).base() <= addr,
        old(mem).base() <= at,
        (addr - old(mem).base()) % 8 == 0,
        (addr - old(mem).base()) / 8 < old(mem).words().len(),
        (at - old(mem).base()) % 8 == 0,
        (at - old(mem).base()) / 8 < old(mem).words().len(),
        call_ensures(M::write, (mem, addr, value), ()),
        call_ensures(M::read, (&*old(mem), at), earlier),
        call_ensures(M::read, (&*final(mem), at), found),
    ensures
        found == if at == addr {
            value
        } else {
            earlier
        },
        final(mem).base() == old(mem).base(),
        final(mem).words().len() == old(mem).words().len(),
{
}

/// An exchange writes if and only if the word is the one that was looked for, and gives back what
/// the word was. Each other word is as it was.
pub proof fn law_compare_exchange<M: LinearMemory>(
    mem: &mut M,
    addr: u64,
    current: u64,
    new: u64,
    previous: Result<u64, u64>,
    at: u64,
    found: u64,
    earlier: u64,
)
    requires
        old(mem).base() <= addr,
        old(mem).base() <= at,
        (addr - old(mem).base()) % 8 == 0,
        (addr - old(mem).base()) / 8 < old(mem).words().len(),
        (at - old(mem).base()) % 8 == 0,
        (at - old(mem).base()) / 8 < old(mem).words().len(),
        call_ensures(M::compare_exchange, (mem, addr, current, new), previous),
        call_ensures(M::read, (&*old(mem), at), earlier),
        call_ensures(M::read, (&*final(mem), at), found),
    ensures
        at == addr ==> previous == if earlier == current {
            Ok::<u64, u64>(earlier)
        } else {
            Err::<u64, u64>(earlier)
        },
        found == if at == addr && earlier == current {
            new
        } else {
            earlier
        },
        final(mem).base() == old(mem).base(),
        final(mem).words().len() == old(mem).words().len(),
{
}

/// Setting bits gives back what the word was. Of that word, the bits of the mask are set then, and
/// the other ones are as they were. Each other word is as it was.
pub proof fn law_fetch_or<M: LinearMemory>(
    mem: &mut M,
    addr: u64,
    mask: u64,
    previous: u64,
    at: u64,
    found: u64,
    earlier: u64,
    k: u64,
)
    requires
        old(mem).base() <= addr,
        old(mem).base() <= at,
        (addr - old(mem).base()) % 8 == 0,
        (addr - old(mem).base()) / 8 < old(mem).words().len(),
        (at - old(mem).base()) % 8 == 0,
        (at - old(mem).base()) / 8 < old(mem).words().len(),
        k < 64,
        call_ensures(M::fetch_or, (mem, addr, mask), previous),
        call_ensures(M::read, (&*old(mem), at), earlier),
        call_ensures(M::read, (&*final(mem), at), found),
    ensures
        at == addr ==> previous == earlier,
        at == addr ==> ((found >> k) & 1 == 1 <==> ((earlier >> k) & 1 == 1 || (mask >> k) & 1
            == 1)),
        at != addr ==> found == earlier,
        final(mem).base() == old(mem).base(),
        final(mem).words().len() == old(mem).words().len(),
{
    assert(((earlier | mask) >> k) & 1 == 1 <==> ((earlier >> k) & 1 == 1 || (mask >> k) & 1 == 1))
        by (bit_vector)
        requires
            k < 64,
    ;
}

/// An atomic read gives what a plain read gives, and changes no word.
pub proof fn law_load<M: LinearMemory>(mem: &mut M, addr: u64, value: u64, plain: u64)
    requires
        call_ensures(M::load, (mem, addr), value),
        call_ensures(M::read, (&*old(mem), addr), plain),
    ensures
        value == plain,
        final(mem).base() == old(mem).base(),
        final(mem).words() == old(mem).words(),
{
}

/// A memory map that was put together has the descriptors that it was put together from, in the
/// same order.
pub proof fn law_test_memory_map(
    entries: Vec<MemoryDescriptor>,
    map: TestMemoryMap,
    count: usize,
    index: usize,
    desc: MemoryDescriptor,
)
    requires
        call_ensures(TestMemoryMap::new, (entries,), map),
        call_ensures(<TestMemoryMap as MemoryMap>::entry_count, (&map,), count),
        index < entries@.len(),
        call_ensures(<TestMemoryMap as MemoryMap>::entry, (&map, index), desc),
    ensures
        count == entries@.len(),
        desc == entries@[index as int],
{
}

/// Taking a lock is a number of attempts to set the flag. All but the last one find it set, and
/// the last one finds it clear and sets it.
pub proof fn law_acquire<F: SharedFlag>(flag: &mut F)
    requires
        call_ensures(acquire::<F>, (flag,), ()),
    ensures
        ({
            let before = old(flag).seen().record;
            let after = final(flag).seen().record;
            &&& after.len() > before.len()
            &&& forall|i: int| 0 <= i < before.len() ==> #[trigger] after[i] == before[i]
            &&& forall|i: int|
                before.len() <= i < after.len() ==> !(#[trigger] after[i]).current && after[i].new
                    && (after[i].found <==> i < after.len() - 1)
        }),
        old(flag).seen().alone ==> final(flag).seen().flag,
{
    let before = old(flag).seen().record;
    let after = final(flag).seen().record;
    assert forall|i: int| 0 <= i < before.len() implies #[trigger] after[i] == before[i] by {
        assert(after.take(before.len() as int)[i] == after[i]);
    }
}

/// Giving up a lock is one operation, which clears the flag if it is set, and tells whether it
/// was.
pub proof fn law_release<F: SharedFlag>(flag: &mut F, held: bool)
    requires
        call_ensures(release::<F>, (flag,), held),
    ensures
        ({
            let before = old(flag).seen().record;
            let after = final(flag).seen().record;
            &&& after.len() == before.len() + 1
            &&& forall|i: int| 0 <= i < before.len() ==> #[trigger] after[i] == before[i]
            &&& after.last().current && !after.last().new && after.last().found == held
        }),
        old(flag).seen().alone ==> held == old(flag).seen().flag && !final(flag).seen().flag,
{
}

/// An operation on a flag gives back what the flag was, as a success if and only if that was what
/// it looked for. If no other processor uses the flag, it is then what was asked for in that case,
/// and else as it was.
pub proof fn law_flag_exchange<F: SharedFlag>(
    flag: &mut F,
    current: bool,
    new: bool,
    previous: Result<bool, bool>,
)
    requires
        old(flag).seen().alone,
        call_ensures(F::compare_exchange, (flag, current, new), previous),
    ensures
        final(flag).seen().alone,
        old(flag).seen().flag == current ==> previous == Ok::<bool, bool>(current) && final(flag).seen().flag == new,
        old(flag).seen().flag != current ==> previous == Err::<bool, bool>(!current) && final(flag).seen().flag == !current,
{
}

/// A new lock is not held, and holds the data that it was made with.
pub proof fn law_new_lock<T>(data: T, lock: SpinLock<T>)
    requires
        call_ensures(SpinLock::<T>::new, (data,), lock),
    ensures
        lock@ == data,
        !lock.locked(),
{
}

/// Whoever takes a lock finds the data that it holds, and the lock is held then.
pub proof fn law_lock<'a, T>(lock: &'a mut SpinLock<T>, guard: SpinLockGuard<'a, T>)
    requires
        call_ensures(SpinLock::<T>::lock, (lock,), guard),
    ensures
        old(guard.lock)@ == old(lock)@,
        old(guard.lock).locked(),
        *final(lock) == *final(guard.lock),
{
}

/// A lock that is given up is not held, and holds the data that the guard held.
pub proof fn law_unlock<'a, T>(guard: SpinLockGuard<'a, T>)
    requires
        call_ensures(SpinLockGuard::<'a, T>::unlock, (guard,), ()),
    ensures
        final(guard.lock)@ == old(guard.lock)@,
        !final(guard.lock).locked(),
{
}

/// The errors of the outside functions keep their kind: what is not an ELF file, with the error,
/// and what is not aligned.
pub proof fn law_error_kinds(
    parse: ParseError,
    parse_error: LoaderError,
    align: AddressNotAligned,
    align_error: LoaderError,
)
    requires
        call_ensures(<LoaderError as From<ParseError>>::from, (parse,), parse_error),
        call_ensures(<LoaderError as From<AddressNotAligned>>::from, (align,), align_error),
    ensures
        parse_error is ElfParse,
        parse_error->ElfParse_0 == parse,
        align_error is AddressNotAligned,
{
}

} // verus!
