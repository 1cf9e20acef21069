//! A lock that is waited for by spinning.

use vstd::prelude::*;

verus! {

/// An atomic operation on the flag of a lock, and what it found: it sets the flag to `new` if the
/// flag is `current`.
pub struct FlagOp {
    pub current: bool,
    pub new: bool,
    pub found: bool,
}

impl FlagOp {
    /// What the flag is then.
    pub open spec fn left(self) -> bool {
        if self.found == self.current {
            self.new
        } else {
            self.found
        }
    }
}

/// An attempt to take a lock.
pub open spec fn attempt(found: bool) -> FlagOp {
    FlagOp { current: false, new: true, found }
}

/// An attempt to give up a lock.
pub open spec fn give_up(found: bool) -> FlagOp {
    FlagOp { current: true, new: false, found }
}

/// The flag of a lock that several processors use, as one of them sees it.
#[verifier::ext_equal]
pub struct FlagView {
    /// The operations that this processor has done so far.
    pub record: Seq<FlagOp>,
    /// Whether no other processor uses the flag.
    pub alone: bool,
    /// What the flag is, if no other processor uses it.
    pub flag: bool,
    /// Whether the lock is not held for ever: whoever holds it gives it up.
    pub obtainable: bool,
    /// If the lock is not held for ever, at most so many attempts to take it fail.
    pub patience: nat,
}

impl FlagView {
    /// Whether the processor has done exactly one more operation. If no other processor uses the
    /// flag, the operation has found what the flag was.
    pub open spec fn does(self, op: FlagOp, after: FlagView) -> bool {
        &&& after.record == self.record.push(op)
        &&& after.alone == self.alone
        &&& self.alone ==> op.found == self.flag && after.flag == op.left()
        &&& self.obtainable && op == attempt(true) ==> after.obtainable && after.patience
            < self.patience
    }
}

/// The flag of a lock, which is set while the lock is held, as one of the processors sees it that
/// use it at the same time. Each operation is atomic, and is recorded with what it found. Between
/// two operations of this processor, the others can change the flag, unless it is alone.
pub trait SharedFlag {
    /// What this processor sees.
    spec fn seen(&self) -> FlagView;

    /// Sets the flag to `new` if it is `current`. Returns what the flag was: as `Ok` if it was
    /// set, and as `Err` if not.
    fn compare_exchange(&mut self, current: bool, new: bool) -> (previous: Result<bool, bool>)
        ensures
            ({
                let found = match previous {
                    Ok(flag) => flag,
                    Err(flag) => flag,
                };
                &&& previous is Ok <==> found == current
                &&& old(self).seen().does((FlagOp { current, new, found }), final(self).seen())
            }),
    ;
}

/// Whether the operations that come after `before` in `after` are those of a call that takes the
/// lock: some attempts that find it held, and then one that does not.
pub open spec fn acquires(before: Seq<FlagOp>, after: Seq<FlagOp>) -> bool {
    &&& after.len() > before.len()
    &&& after.take(before.len() as int) == before
    &&& forall|i: int| before.len() <= i < after.len() - 1 ==> #[trigger] after[i] == attempt(true)
    &&& after.last() == attempt(false)
}

/// Takes the lock that a flag belongs to: waits until the flag is not set, and sets it.
pub fn acquire<F: SharedFlag>(flag: &mut F)
    requires
        old(flag).seen().obtainable,
    ensures
        acquires(old(flag).seen().record, final(flag).seen().record),
        final(flag).seen().alone == old(flag).seen().alone,
        old(flag).seen().alone ==> final(flag).seen().flag,
{
    let ghost before = flag.seen().record;
    loop
        invariant
            before == old(flag).seen().record,
            flag.seen().obtainable,
            flag.seen().alone == old(flag).seen().alone,
            flag.seen().record.len() >= before.len(),
            flag.seen().record.take(before.len() as int) == before,
            forall|i: int|
                before.len() <= i < flag.seen().record.len() ==> #[trigger] flag.seen().record[i]
                    == attempt(true),
        decreases flag.seen().patience,
    {
        let ghost ops = flag.seen().record;
        let lock_result = flag.compare_exchange(false, true);
        assert(flag.seen().record.take(before.len() as int) =~= ops.take(before.len() as int));
        if lock_result.is_ok() {
            return ;
        }
    }
}

/// Whether the operation that comes after `before` in `after` is that of a call that gives up the
/// lock, and has found whether it was held.
pub open spec fn releases(before: Seq<FlagOp>, after: Seq<FlagOp>, held: bool) -> bool {
    after == before.push(give_up(held))
}

/// Gives up the lock that a flag belongs to. Returns whether the lock was held.
pub fn release<F: SharedFlag>(flag: &mut F) -> (held: bool)
    ensures
        releases(old(flag).seen().record, final(flag).seen().record, held),
        final(flag).seen().alone == old(flag).seen().alone,
        old(flag).seen().alone ==> held == old(flag).seen().flag && !final(flag).seen().flag,
{
    let unlock_result = flag.compare_exchange(true, false);
    unlock_result.is_ok()
}

/// A flag that one processor has to itself.
pub struct Flag {
    locked: bool,
    record: Ghost<Seq<FlagOp>>,
}

impl Flag {
    /// A flag that is not set.
    fn new() -> (flag: Flag)
        ensures
            !flag.locked,
    {
        Flag { locked: false, record: Ghost(Seq::empty()) }
    }
}

impl SharedFlag for Flag {
    closed spec fn seen(&self) -> FlagView {
        FlagView {
            record: self.record@,
            alone: true,
            flag: self.locked,
            obtainable: !self.locked,
            patience: 0,
        }
    }

    fn compare_exchange(&mut self, current: bool, new: bool) -> (previous: Result<bool, bool>) {
        let previous: bool = self.locked;
        self.record = Ghost(self.record@.push(FlagOp { current, new, found: previous }));
        if previous == current {
            self.locked = new;
            Ok(previous)
        } else {
            Err(previous)
        }
    }
}

/// A flag that another processor has set, and clears before one of the next operations.
pub struct BusyFlag {
    locked: bool,
    /// After how many operations the other processor clears the flag, if it is yet to do so.
    busy: Option<u64>,
    record: Ghost<Seq<FlagOp>>,
}

impl BusyFlag {
    /// After how many operations the other processor clears the flag, if it is yet to do so.
    pub closed spec fn turns(&self) -> Option<u64> {
        self.busy
    }

    /// A flag that is set, and is cleared after `turns` operations, before the next one.
    pub fn new(turns: u64) -> (flag: BusyFlag)
        ensures
            flag.seen().record == Seq::<FlagOp>::empty(),
            flag.seen().obtainable,
            flag.seen().patience == turns,
            !flag.seen().alone,
            flag.seen().flag,
            flag.turns() == Some(turns),
    {
        BusyFlag { locked: true, busy: Some(turns), record: Ghost(Seq::empty()) }
    }

    /// What the other processor does before an operation.
    fn wait(&mut self)
        ensures
            final(self).locked == (old(self).locked && old(self).busy != Some(0u64)),
            final(self).busy == match old(self).busy {
                Some(turns) => if turns == 0 {
                    None
                } else {
                    Some((turns - 1) as u64)
                },
                None => None,
            },
            final(self).record == old(self).record,
    {
        if let Some(turns) = self.busy {
            if turns == 0 {
                self.locked = false;
                self.busy = None;
            } else {
                self.busy = Some(turns - 1);
            }
        }
    }
}

impl SharedFlag for BusyFlag {
    closed spec fn seen(&self) -> FlagView {
        FlagView {
            record: self.record@,
            alone: false,
            flag: self.locked,
            obtainable: !self.locked || self.busy is Some,
            patience: match self.busy {
                Some(turns) => turns as nat,
                None => 0,
            },
        }
    }

    fn compare_exchange(&mut self, current: bool, new: bool) -> (previous: Result<bool, bool>)
        ensures
            final(self).seen().record.last().found == (old(self).seen().flag && old(self).turns()
                != Some(0u64)),
            final(self).seen().flag == final(self).seen().record.last().left(),
            old(self).turns() matches Some(turns) ==> (turns > 0 ==> final(self).turns() == Some(
                (turns - 1) as u64,
            )),
            old(self).turns() is None || old(self).turns() == Some(0u64) ==> final(self).turns() is None,
    {
        self.wait();
        let previous: bool = self.locked;
        self.record = Ghost(self.record@.push(FlagOp { current, new, found: previous }));
        if previous == current {
            self.locked = new;
            Ok(previous)
        } else {
            Err(previous)
        }
    }
}

/// Data that is only reached while holding the lock.
pub struct SpinLock<T> {
    flag: Flag,
    data: T,
}

impl<T> SpinLock<T> {
    /// The data in the lock.
    pub closed spec fn view(&self) -> T {
        self.data
    }

    /// Whether there is a guard.
    pub closed spec fn locked(&self) -> bool {
        self.flag.seen().flag
    }

    /// A lock that nobody holds.
    pub fn new(data: T) -> (lock: Self)
        ensures
            lock@ == data,
            !lock.locked(),
    {
        Self { flag: Flag::new(), data }
    }

    /// Takes the lock. There must be no guard of it: the call would wait for that guard.
    ///
    /// The guard holds the data, and whatever it holds when it is given up stays in the lock.
    pub fn lock(&mut self) -> (guard: SpinLockGuard<'_, T>)
        requires
            !old(self).locked(),
        ensures
            guard@ == old(self)@,
            guard.lock.locked(),
            *final(self) == *final(guard.lock),
    {
        acquire(&mut self.flag);
        SpinLockGuard { lock: self }
    }
}

/// The right to use the data in a lock.
pub struct SpinLockGuard<'a, T> {
    /// The lock that is held.
    pub lock: &'a mut SpinLock<T>,
}

impl<'a, T> SpinLockGuard<'a, T> {
    /// The data in the lock.
    pub open spec fn view(&self) -> T {
        self.lock@
    }

    /// Gives up the lock, which keeps the data.
    pub fn unlock(self)
        requires
            self.lock.locked(),
        ensures
            final(self.lock)@ == self@,
            !final(self.lock).locked(),
    {
        let lock = self.lock;
        let released: bool = release(&mut lock.flag);
        assert(released);
    }

    /// The data in the lock.
    pub fn deref(&self) -> (data: &T)
        ensures
            *data == self@,
    {
        &self.lock.data
    }

    /// The data in the lock, to be changed.
    pub fn deref_mut(&mut self) -> (data: &mut T)
        ensures
            *data == old(self)@,
            final(self)@ == *final(data),
            final(self).lock.locked() == old(self).lock.locked(),
            *final(final(self).lock) == *final(old(self).lock),
    {
        &mut self.lock.data
    }
}

/// Whether a processor that has done the operations in `record` holds the lock.
pub open spec fn holding(record: Seq<FlagOp>) -> bool
    decreases record.len(),
{
    record.len() > 0 && !holding(record.drop_last()) && record.last() == attempt(false)
}

/// Whether a processor has done nothing to the flag but take the lock when it did not hold it, and
/// give up the lock when it did.
pub open spec fn well_used(record: Seq<FlagOp>) -> bool
    decreases record.len(),
{
    record.len() == 0 || {
        &&& well_used(record.drop_last())
        &&& if holding(record.drop_last()) {
            record.last() == give_up(record.last().found)
        } else {
            record.last() == attempt(record.last().found)
        }
    }
}

/// A processor that did not hold the lock holds it once [`acquire`] has returned, and not before.
pub proof fn law_acquire_takes_lock(before: Seq<FlagOp>, after: Seq<FlagOp>, n: int)
    requires
        well_used(before),
        !holding(before),
        acquires(before, after),
        before.len() <= n <= after.len(),
    ensures
        well_used(after.take(n)),
        holding(after.take(n)) <==> n == after.len(),
    decreases n,
{
    if n == before.len() {
    } else {
        law_acquire_takes_lock(before, after, n - 1);
        assert(after.take(n).drop_last() =~= after.take(n - 1));
        assert(after.take(n).last() == after[n - 1]);
    }
}

/// A processor that held the lock does not hold it any more once [`release`] has returned.
pub proof fn law_release_gives_up_lock(before: Seq<FlagOp>, after: Seq<FlagOp>, held: bool)
    requires
        well_used(before),
        holding(before),
        releases(before, after, held),
    ensures
        well_used(after),
        !holding(after),
{
    assert(after.drop_last() =~= before);
}

/// An operation on the flag of a lock, and the processor that does it.
pub struct FlagStep {
    pub cpu: int,
    pub op: FlagOp,
}

/// The operations that one processor does.
pub open spec fn record_of(history: Seq<FlagStep>, cpu: int) -> Seq<FlagOp>
    decreases history.len(),
{
    if history.len() == 0 {
        Seq::empty()
    } else {
        let before = record_of(history.drop_last(), cpu);
        if history.last().cpu == cpu {
            before.push(history.last().op)
        } else {
            before
        }
    }
}

/// What the flag is after some operations, if it is not set at the start.
pub open spec fn flag_after(history: Seq<FlagStep>) -> bool {
    history.len() > 0 && history.last().op.left()
}

/// Whether each operation finds what the one before it has left.
pub open spec fn flag_consistent(history: Seq<FlagStep>) -> bool
    decreases history.len(),
{
    history.len() == 0 || {
        &&& flag_consistent(history.drop_last())
        &&& history.last().op.found == flag_after(history.drop_last())
    }
}

/// Whether `history` is a history of the flag of a lock that is free at the start: the operations
/// of several processors, in the order in which they happen, where each processor does nothing
/// but take and give up the lock.
pub open spec fn lock_history(history: Seq<FlagStep>) -> bool {
    &&& flag_consistent(history)
    &&& forall|cpu: int| well_used(#[trigger] record_of(history, cpu))
}

/// Whether some processor holds the lock.
pub open spec fn held(history: Seq<FlagStep>) -> bool {
    exists|cpu: int| holding(#[trigger] record_of(history, cpu))
}

/// The first part of a history is a history.
proof fn lemma_history_prefix(history: Seq<FlagStep>)
    requires
        lock_history(history),
        history.len() > 0,
    ensures
        lock_history(history.drop_last()),
{
    let shorter = history.drop_last();
    assert forall|cpu: int| well_used(#[trigger] record_of(shorter, cpu)) by {
        assert(well_used(record_of(history, cpu)));
        if history.last().cpu == cpu {
            assert(record_of(history, cpu).drop_last() =~= record_of(shorter, cpu));
        }
    }
}

/// However many processors use a lock at the same time, at most one of them holds it at any time,
/// and the flag is set while one does, and only then. So a lock is not taken while another
/// processor holds it, and giving it up never finds it free.
pub proof fn law_mutual_exclusion(history: Seq<FlagStep>)
    requires
        lock_history(history),
    ensures
        forall|c: int, d: int|
            holding(#[trigger] record_of(history, c)) && holding(#[trigger] record_of(history, d))
                ==> c == d,
        flag_after(history) <==> held(history),
        forall|n: int|
            0 <= n < history.len() && holding(record_of(history.take(n), history[n].cpu))
                ==> (#[trigger] history[n]).op == give_up(true),
    decreases history.len(),
{
    if history.len() > 0 {
        let shorter = history.drop_last();
        let step = history.last();
        let own = record_of(shorter, step.cpu);
        lemma_history_prefix(history);
        law_mutual_exclusion(shorter);
        assert(well_used(record_of(history, step.cpu)));
        assert(record_of(history, step.cpu) == own.push(step.op));
        assert(own.push(step.op).drop_last() =~= own);
        assert forall|c: int| c != step.cpu implies #[trigger] record_of(history, c) == record_of(
            shorter,
            c,
        ) by {}
        if holding(own) {
            assert(held(shorter));
            assert forall|c: int| !holding(#[trigger] record_of(history, c)) by {
                if c != step.cpu {
                    assert(record_of(history, c) == record_of(shorter, c));
                }
            }
        } else if step.op.found {
            let c = choose|c: int| holding(#[trigger] record_of(shorter, c));
            assert(record_of(history, c) == record_of(shorter, c));
            assert forall|c: int, d: int|
                holding(#[trigger] record_of(history, c)) && holding(
                    #[trigger] record_of(history, d),
                ) implies c == d by {
                assert(c != step.cpu && d != step.cpu);
                assert(record_of(history, c) == record_of(shorter, c));
                assert(record_of(history, d) == record_of(shorter, d));
            }
        } else {
            assert(holding(record_of(history, step.cpu)));
            assert forall|c: int| holding(#[trigger] record_of(history, c)) implies c
                == step.cpu by {
                if c != step.cpu {
                    assert(record_of(history, c) == record_of(shorter, c));
                    assert(held(shorter));
                }
            }
        }
        assert forall|n: int|
            0 <= n < history.len() && holding(record_of(history.take(n), history[n].cpu)) implies (
        #[trigger] history[n]).op == give_up(true) by {
            if n < shorter.len() {
                assert(shorter[n] == history[n]);
                assert(shorter.take(n) =~= history.take(n));
            } else {
                assert(history.take(n) =~= shorter);
                assert(held(shorter));
            }
        }
    }
}

} // verus!
