//! Physical memory, as it is seen through a linear mapping into virtual memory.

use vstd::prelude::*;

verus! {

/// Whether the eight bytes at `addr` are an aligned word of a window of `len` words that is
/// mapped at `base`.
pub open spec fn word_in(base: u64, len: nat, addr: int) -> bool {
    &&& base <= addr
    &&& (addr - base) % 8 == 0
    &&& (addr - base) / 8 < len
}

/// The position of the word at `addr` in a window that is mapped at `base`.
pub open spec fn word_index(base: u64, addr: int) -> int {
    (addr - base) / 8
}

/// What a window holds, one element for each aligned word.
pub type Words = Seq<u64>;

/// An atomic operation on a word of a window, and what it found there.
pub enum MemOp {
    /// Reads the word.
    Load { index: int, found: u64 },
    /// Writes `new` if the word is `current`.
    Exchange { index: int, current: u64, new: u64, found: u64 },
    /// Sets the bits of `mask`.
    SetBits { index: int, mask: u64, found: u64 },
}

impl MemOp {
    /// The position of the word.
    pub open spec fn index(self) -> int {
        match self {
            MemOp::Load { index, .. } => index,
            MemOp::Exchange { index, .. } => index,
            MemOp::SetBits { index, .. } => index,
        }
    }

    /// What the word was.
    pub open spec fn found(self) -> u64 {
        match self {
            MemOp::Load { found, .. } => found,
            MemOp::Exchange { found, .. } => found,
            MemOp::SetBits { found, .. } => found,
        }
    }

    /// What the word is then.
    pub open spec fn left(self) -> u64 {
        match self {
            MemOp::Load { found, .. } => found,
            MemOp::Exchange { current, new, found, .. } => if found == current {
                new
            } else {
                found
            },
            MemOp::SetBits { mask, found, .. } => found | mask,
        }
    }

    /// Whether the operation only looks at the word: it reads it, or it is an exchange that fails.
    pub open spec fn quiet(self) -> bool {
        match self {
            MemOp::Load { .. } => true,
            MemOp::Exchange { current, found, .. } => found != current,
            MemOp::SetBits { .. } => false,
        }
    }

    /// What a window that holds `words` holds after the operation.
    pub open spec fn applied(self, words: Words) -> Words {
        if self.quiet() {
            words
        } else {
            words.update(self.index(), self.left())
        }
    }
}

/// The operations that a processor has done so far, from the first to the last.
pub type MemLog = Seq<MemOp>;

/// What a window that holds `words` holds after some operations.
pub open spec fn run(words: Words, ops: MemLog) -> Words
    decreases ops.len(),
{
    if ops.len() == 0 {
        words
    } else {
        ops.last().applied(run(words, ops.drop_last()))
    }
}

/// Whether each of the operations, one after the other, finds what a window holds that holds
/// `words` at the start, and that nothing else changes.
pub open spec fn consistent(words: Words, ops: MemLog) -> bool
    decreases ops.len(),
{
    ops.len() == 0 || {
        &&& consistent(words, ops.drop_last())
        &&& ops.last().found() == run(words, ops.drop_last())[ops.last().index()]
    }
}

/// A window of physical memory. Byte 0 of physical memory is mapped at the virtual address
/// `base`, and the window extends upwards from there without gaps. It is read and written in
/// aligned 64-bit words, and each operation is atomic.
pub trait LinearMemory {
    /// The virtual address at which the window starts.
    spec fn base(&self) -> u64;

    /// What the window holds.
    spec fn words(&self) -> Words;

    /// The atomic operations that were done so far: those that work on memory that is shared,
    /// too.
    spec fn log(&self) -> MemLog;

    /// Reads the word at a virtual address.
    fn read(&self, addr: u64) -> (value: u64)
        requires
            word_in(self.base(), self.words().len(), addr as int),
        ensures
            value == self.words()[word_index(self.base(), addr as int)],
    ;

    /// Reads the word at a virtual address, as one of the atomic operations.
    fn load(&mut self, addr: u64) -> (value: u64)
        requires
            word_in(old(self).base(), old(self).words().len(), addr as int),
        ensures
            value == old(self).words()[word_index(old(self).base(), addr as int)],
            final(self).base() == old(self).base(),
            final(self).words() == old(self).words(),
            final(self).log() == old(self).log().push(
                (MemOp::Load { index: word_index(old(self).base(), addr as int), found: value }),
            ),
    ;

    /// Writes the word at a virtual address.
    fn write(&mut self, addr: u64, value: u64)
        requires
            word_in(old(self).base(), old(self).words().len(), addr as int),
        ensures
            final(self).base() == old(self).base(),
            final(self).log() == old(self).log(),
            final(self).words() == old(self).words().update(
                word_index(old(self).base(), addr as int),
                value,
            ),
    ;

    /// Writes `new` to the word at a virtual address if the word is `current`. Returns what the
    /// word was: as `Ok` if it was written, and as `Err` if not.
    fn compare_exchange(&mut self, addr: u64, current: u64, new: u64) -> (previous: Result<
        u64,
        u64,
    >)
        requires
            word_in(old(self).base(), old(self).words().len(), addr as int),
        ensures
            final(self).base() == old(self).base(),
            ({
                let index = word_index(old(self).base(), addr as int);
                let word = old(self).words()[index];
                if word == current {
                    &&& previous == Ok::<u64, u64>(word)
                    &&& final(self).words() == old(self).words().update(index, new)
                } else {
                    &&& previous == Err::<u64, u64>(word)
                    &&& final(self).words() == old(self).words()
                }
            }),
            final(self).log() == old(self).log().push(
                (MemOp::Exchange {
                    index: word_index(old(self).base(), addr as int),
                    current,
                    new,
                    found: old(self).words()[word_index(old(self).base(), addr as int)],
                }),
            ),
    ;

    /// Sets the bits of `mask` in the word at a virtual address. Returns what the word was.
    fn fetch_or(&mut self, addr: u64, mask: u64) -> (previous: u64)
        requires
            word_in(old(self).base(), old(self).words().len(), addr as int),
        ensures
            previous == old(self).words()[word_index(old(self).base(), addr as int)],
            final(self).base() == old(self).base(),
            final(self).words() == old(self).words().update(
                word_index(old(self).base(), addr as int),
                previous | mask,
            ),
            final(self).log() == old(self).log().push(
                (MemOp::SetBits {
                    index: word_index(old(self).base(), addr as int),
                    mask,
                    found: previous,
                }),
            ),
    ;
}

/// A window of memory that several processors use, as one of them sees it.
#[verifier::ext_equal]
pub struct SharedView {
    /// The virtual address at which the window starts.
    pub base: u64,
    /// The number of words in the window.
    pub len: nat,
    /// The operations that this processor has done so far.
    pub record: MemLog,
    /// Whether no other processor uses the window.
    pub alone: bool,
    /// What the window holds, if no other processor uses it.
    pub words: Words,
    /// At most so many times the others yet change a word that this processor has just seen.
    pub pending: nat,
}

impl SharedView {
    /// Whether the processor has done exactly one more operation. If no other processor uses the
    /// window, the operation has found what the window held. If it has found a word to be other
    /// than the operation before it has left it, then others have changed that word.
    pub open spec fn does(self, op: MemOp, after: SharedView) -> bool {
        &&& after.base == self.base
        &&& after.len == self.len
        &&& after.record == self.record.push(op)
        &&& after.alone == self.alone
        &&& self.alone ==> {
            &&& op.found() == self.words[op.index()]
            &&& after.words == op.applied(self.words)
            &&& after.words.len() == self.words.len()
        }
        &&& after.pending <= self.pending
        &&& !self.alone && self.record.len() > 0 && self.record.last().index() == op.index()
            && self.record.last().left() != op.found() ==> after.pending < self.pending
    }
}

/// A window of physical memory that several processors use at the same time, as one of them sees
/// it. Each operation is atomic, and is recorded with what it found. Between two operations of
/// this processor, the others can change the window in any way, unless it is alone.
pub trait SharedMemory {
    /// What this processor sees.
    spec fn seen(&self) -> SharedView;

    /// Reads the word at a virtual address.
    fn load_shared(&mut self, addr: u64) -> (value: u64)
        requires
            word_in(old(self).seen().base, old(self).seen().len, addr as int),
        ensures
            old(self).seen().does(
                (MemOp::Load {
                    index: word_index(old(self).seen().base, addr as int),
                    found: value,
                }),
                final(self).seen(),
            ),
    ;

    /// Writes `new` to the word at a virtual address if the word is `current`. Returns what the
    /// word was: as `Ok` if it was written, and as `Err` if not.
    fn exchange_shared(&mut self, addr: u64, current: u64, new: u64) -> (previous: Result<
        u64,
        u64,
    >)
        requires
            word_in(old(self).seen().base, old(self).seen().len, addr as int),
        ensures
            ({
                let found = match previous {
                    Ok(word) => word,
                    Err(word) => word,
                };
                &&& previous is Ok <==> found == current
                &&& old(self).seen().does(
                    (MemOp::Exchange {
                        index: word_index(old(self).seen().base, addr as int),
                        current,
                        new,
                        found,
                    }),
                    final(self).seen(),
                )
            }),
    ;

    /// Sets the bits of `mask` in the word at a virtual address. Returns what the word was.
    fn set_shared(&mut self, addr: u64, mask: u64) -> (previous: u64)
        requires
            word_in(old(self).seen().base, old(self).seen().len, addr as int),
        ensures
            old(self).seen().does(
                (MemOp::SetBits {
                    index: word_index(old(self).seen().base, addr as int),
                    mask,
                    found: previous,
                }),
                final(self).seen(),
            ),
    ;
}

/// Memory that one processor has to itself is shared with nobody.
impl<M: LinearMemory> SharedMemory for M {
    open spec fn seen(&self) -> SharedView {
        SharedView {
            base: self.base(),
            len: self.words().len(),
            record: self.log(),
            alone: true,
            words: self.words(),
            pending: 0,
        }
    }

    fn load_shared(&mut self, addr: u64) -> (value: u64) {
        self.load(addr)
    }

    fn exchange_shared(&mut self, addr: u64, current: u64, new: u64) -> (previous: Result<
        u64,
        u64,
    >) {
        self.compare_exchange(addr, current, new)
    }

    fn set_shared(&mut self, addr: u64, mask: u64) -> (previous: u64) {
        self.fetch_or(addr, mask)
    }
}

/// Byte `i` of a word, where byte 0 is the least significant one.
pub open spec fn byte_of(word: u64, i: int) -> u8 {
    ((word >> ((8 * i) as u64)) & 0xFF) as u8
}

/// The bytes of a window that holds `words`.
pub open spec fn bytes_of(words: Seq<u64>) -> Seq<u8> {
    Seq::new(8 * words.len(), |i: int| byte_of(words[i / 8], i % 8))
}

/// The four bytes at position `i`, as a number. The first byte is the least significant one.
pub open spec fn number_at(bytes: Seq<u8>, i: int) -> int {
    bytes[i] + 0x100 * bytes[i + 1] + 0x1_0000 * bytes[i + 2] + 0x100_0000 * bytes[i + 3]
}

/// Whether the `count` bytes at `addr` lie in the window.
pub open spec fn bytes_in<M: LinearMemory>(mem: &M, addr: int, count: int) -> bool {
    mem.base() <= addr && addr + count <= mem.base() + 8 * mem.words().len()
}

/// Reads the byte at a virtual address.
pub fn read_u8<M: LinearMemory>(mem: &M, addr: u64) -> (value: u8)
    requires
        mem.base() % 8 == 0,
        bytes_in(mem, addr as int, 1),
    ensures
        value == bytes_of(mem.words())[addr - mem.base()],
{
    let offset: u64 = addr % 8;
    let ghost at = addr - mem.base();
    assert(at % 8 == offset && (addr - offset - mem.base()) % 8 == 0) by {
        assert(at == 8 * (at / 8) + at % 8);
    }
    assert((addr - offset - mem.base()) / 8 == at / 8);
    let word: u64 = mem.read(addr - offset);
    let shift: u64 = 8 * offset;
    assert((word >> shift) & 0xFF <= 0xFF) by (bit_vector);
    ((word >> shift) & 0xFF) as u8
}

/// Reads four bytes at a virtual address, as a number.
pub fn read_u32<M: LinearMemory>(mem: &M, addr: u64) -> (value: u32)
    requires
        mem.base() % 8 == 0,
        bytes_in(mem, addr as int, 4),
        addr + 4 <= u64::MAX,
    ensures
        value == number_at(bytes_of(mem.words()), addr - mem.base()),
{
    read_u8(mem, addr) as u32 + 0x100 * (read_u8(mem, addr + 1) as u32) + 0x1_0000 * (read_u8(
        mem,
        addr + 2,
    ) as u32) + 0x100_0000 * (read_u8(mem, addr + 3) as u32)
}

/// A region of ordinary memory that acts as the whole of physical memory.
pub struct PhysicalMemory {
    base: u64,
    words: Vec<u64>,
    log: Ghost<MemLog>,
}

impl PhysicalMemory {
    /// Physical memory that holds `words` and is mapped at `base`.
    pub fn new(base: u64, words: Vec<u64>) -> (memory: PhysicalMemory)
        ensures
            memory.base() == base,
            memory.words() == words@,
            memory.log() == Seq::<MemOp>::empty(),
    {
        PhysicalMemory { base, words, log: Ghost(Seq::empty()) }
    }
}

impl LinearMemory for PhysicalMemory {
    closed spec fn base(&self) -> u64 {
        self.base
    }

    closed spec fn words(&self) -> Words {
        self.words@
    }

    closed spec fn log(&self) -> MemLog {
        self.log@
    }

    fn read(&self, addr: u64) -> (value: u64) {
        assert(self.words@.len() == self.words.len());
        self.words[((addr - self.base) / 8) as usize]
    }

    fn load(&mut self, addr: u64) -> (value: u64) {
        let value: u64 = self.read(addr);
        self.log = Ghost(
            self.log@.push(
                MemOp::Load { index: word_index(self.base, addr as int), found: value },
            ),
        );
        value
    }

    fn write(&mut self, addr: u64, value: u64) {
        assert(self.words@.len() == self.words.len());
        let index: usize = ((addr - self.base) / 8) as usize;
        self.words[index] = value;
    }

    fn compare_exchange(&mut self, addr: u64, current: u64, new: u64) -> (previous: Result<
        u64,
        u64,
    >) {
        let word: u64 = self.read(addr);
        self.log = Ghost(
            self.log@.push(
                MemOp::Exchange {
                    index: word_index(self.base, addr as int),
                    current,
                    new,
                    found: word,
                },
            ),
        );
        if word == current {
            self.write(addr, new);
            Ok(word)
        } else {
            Err(word)
        }
    }

    fn fetch_or(&mut self, addr: u64, mask: u64) -> (previous: u64) {
        let word: u64 = self.read(addr);
        self.log = Ghost(
            self.log@.push(
                MemOp::SetBits { index: word_index(self.base, addr as int), mask, found: word },
            ),
        );
        self.write(addr, word | mask);
        word
    }
}

/// Memory in which another processor makes one change before each operation, for as long as
/// there are changes left.
pub struct InterruptedMemory {
    base: u64,
    words: Vec<u64>,
    changes: Vec<(usize, u64)>,
    record: Ghost<MemLog>,
}

impl InterruptedMemory {
    /// What the memory holds.
    pub closed spec fn view(&self) -> Words {
        self.words@
    }

    /// The changes that are left, from the last one to the next one.
    pub closed spec fn changes(&self) -> Seq<(usize, u64)> {
        self.changes@
    }

    /// The next change sets the word at its position, if there is such a word, and no other.
    pub proof fn law_next_change(&self)
        ensures
            self.changes().len() > 0 && self.changes().last().0 < self@.len() ==> {
                &&& self.interrupted().len() == self@.len()
                &&& self.interrupted()[self.changes().last().0 as int] == self.changes().last().1
                &&& forall|i: int|
                    0 <= i < self@.len() && i != self.changes().last().0
                        ==> #[trigger] self.interrupted()[i] == self@[i]
            },
            self.changes().len() == 0 || self.changes().last().0 >= self@.len()
                ==> self.interrupted() == self@,
    {
    }

    /// What the memory holds after the next change.
    pub closed spec fn interrupted(&self) -> Words {
        if self.changes@.len() > 0 && self.changes@.last().0 < self.words@.len() {
            self.words@.update(self.changes@.last().0 as int, self.changes@.last().1)
        } else {
            self.words@
        }
    }

    /// Whether the word of the last operation has changed since.
    closed spec fn stale(&self) -> bool {
        self.record@.len() > 0 && self.words@[self.record@.last().index()]
            != self.record@.last().left()
    }

    /// Memory that holds `words` and is mapped at `base`. Each of the changes is the position of
    /// a word, and what the word becomes. They are made from the last one to the first.
    pub fn new(base: u64, words: Vec<u64>, changes: Vec<(usize, u64)>) -> (memory:
        InterruptedMemory)
        ensures
            memory.seen().base == base,
            memory.seen().len == words@.len(),
            memory.seen().record == Seq::<MemOp>::empty(),
            !memory.seen().alone,
            memory@ == words@,
            memory.changes() == changes@,
    {
        InterruptedMemory { base, words, changes, record: Ghost(Seq::empty()) }
    }

    /// What the memory holds.
    pub fn words(&self) -> (words: &Vec<u64>)
        ensures
            words@ == self@,
    {
        &self.words
    }

    /// Makes the next change.
    fn interrupt(&mut self)
        ensures
            final(self).words@ == old(self).interrupted(),
            final(self).base == old(self).base,
            final(self).record == old(self).record,
            final(self).changes@.len() == if old(self).changes@.len() > 0 {
                old(self).changes@.len() - 1
            } else {
                0
            },
            final(self).changes@ == old(self).changes@.take(final(self).changes@.len() as int),
    {
        if let Some(change) = self.changes.pop() {
            let (index, word) = change;
            if index < self.words.len() {
                self.words[index] = word;
            }
        }
        assert(self.changes@ =~= old(self).changes@.take(self.changes@.len() as int));
    }
}

impl SharedMemory for InterruptedMemory {
    closed spec fn seen(&self) -> SharedView {
        SharedView {
            base: self.base,
            len: self.words@.len(),
            record: self.record@,
            alone: false,
            words: self.words@,
            pending: 2 * self.changes@.len() + if self.stale() {
                1nat
            } else {
                0
            },
        }
    }

    fn load_shared(&mut self, addr: u64) -> (value: u64)
        ensures
            final(self).changes() == if old(self).changes().len() > 0 {
                old(self).changes().drop_last()
            } else {
                old(self).changes()
            },
            final(self)@ == old(self).interrupted(),
            value == final(self)@[word_index(old(self).seen().base, addr as int)],
    {
        self.interrupt();
        assert(self.changes@ =~= if old(self).changes@.len() > 0 {
            old(self).changes@.drop_last()
        } else {
            old(self).changes@
        });
        assert(self.words@.len() == self.words.len());
        let value: u64 = self.words[((addr - self.base) / 8) as usize];
        self.record = Ghost(
            self.record@.push(
                MemOp::Load { index: word_index(self.base, addr as int), found: value },
            ),
        );
        value
    }

    fn exchange_shared(&mut self, addr: u64, current: u64, new: u64) -> (previous: Result<
        u64,
        u64,
    >)
        ensures
            final(self).changes() == if old(self).changes().len() > 0 {
                old(self).changes().drop_last()
            } else {
                old(self).changes()
            },
            ({
                let index = word_index(old(self).seen().base, addr as int);
                let word = old(self).interrupted()[index];
                if word == current {
                    &&& previous == Ok::<u64, u64>(word)
                    &&& final(self)@ == old(self).interrupted().update(index, new)
                } else {
                    &&& previous == Err::<u64, u64>(word)
                    &&& final(self)@ == old(self).interrupted()
                }
            }),
    {
        self.interrupt();
        assert(self.changes@ =~= if old(self).changes@.len() > 0 {
            old(self).changes@.drop_last()
        } else {
            old(self).changes@
        });
        assert(self.words@.len() == self.words.len());
        let index: usize = ((addr - self.base) / 8) as usize;
        let word: u64 = self.words[index];
        self.record = Ghost(
            self.record@.push(
                MemOp::Exchange {
                    index: word_index(self.base, addr as int),
                    current,
                    new,
                    found: word,
                },
            ),
        );
        if word == current {
            self.words[index] = new;
            Ok(word)
        } else {
            Err(word)
        }
    }

    fn set_shared(&mut self, addr: u64, mask: u64) -> (previous: u64)
        ensures
            final(self).changes() == if old(self).changes().len() > 0 {
                old(self).changes().drop_last()
            } else {
                old(self).changes()
            },
            ({
                let index = word_index(old(self).seen().base, addr as int);
                &&& previous == old(self).interrupted()[index]
                &&& final(self)@ == old(self).interrupted().update(index, previous | mask)
            }),
    {
        self.interrupt();
        assert(self.changes@ =~= if old(self).changes@.len() > 0 {
            old(self).changes@.drop_last()
        } else {
            old(self).changes@
        });
        assert(self.words@.len() == self.words.len());
        let index: usize = ((addr - self.base) / 8) as usize;
        let word: u64 = self.words[index];
        self.record = Ghost(
            self.record@.push(
                MemOp::SetBits { index: word_index(self.base, addr as int), mask, found: word },
            ),
        );
        self.words[index] = word | mask;
        word
    }
}

} // verus!
