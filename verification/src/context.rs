//! The trail: the reversible context at the heart of a trailing solver.
//!
//! A trail owns the values of the cells created on it, an undo log of
//! restore actions, the stack of checkpoint boundaries into that log and a
//! logical clock that ticks on every `push` and `pop`.
use vstd::prelude::*;

verus! {

/// What a restore action stands for in the model: the slot it writes to and
/// the value it writes back.
pub ghost struct Undo<T> {
    pub slot: nat,
    pub value: T,
}

/// A one-shot restore action: when the checkpoint it was registered under is
/// closed, `value` is written back into the cell stored at `slot`.
pub struct RestoreAction<T> {
    pub slot: usize,
    pub value: T,
}

impl<T> View for RestoreAction<T> {
    type V = Undo<T>;

    open spec fn view(&self) -> Undo<T> {
        Undo { slot: self.slot as nat, value: self.value }
    }
}

/// The mathematical model of a trail.
pub ghost struct TrailView<T> {
    /// Number of `push` and `pop` calls so far.
    pub clock: nat,
    /// Current value of every cell, by slot.
    pub cells: Seq<T>,
    /// Pending restore actions, oldest first.
    pub log: Seq<Undo<T>>,
    /// For every open checkpoint, the length of the log when it was opened.
    pub boundaries: Seq<nat>,
}

/// The cells after the actions of `log` from position `mark` on have been
/// undone, the most recent one first.
pub open spec fn rewind<T>(cells: Seq<T>, log: Seq<Undo<T>>, mark: nat) -> Seq<T>
    decreases log.len(),
{
    if log.len() <= mark {
        cells
    } else {
        rewind(cells.update(log.last().slot as int, log.last().value), log.drop_last(), mark)
    }
}

/// Every action of `log` targets one of the first `slots` slots.
pub open spec fn targets_within<T>(log: Seq<Undo<T>>, slots: nat) -> bool {
    forall|i: int| 0 <= i < log.len() ==> (#[trigger] log[i]).slot < slots
}

/// Some action of `log` at position `mark` or later targets `slot`.
pub open spec fn saved_since<T>(log: Seq<Undo<T>>, mark: nat, slot: nat) -> bool {
    exists|i: int| mark <= i < log.len() && (#[trigger] log[i]).slot == slot
}

/// The action at position `i` is the first one from `mark` on that targets
/// its slot.
pub open spec fn first_for_slot<T>(log: Seq<Undo<T>>, mark: nat, i: int) -> bool {
    &&& mark <= i < log.len()
    &&& forall|j: int| mark <= j < i ==> (#[trigger] log[j]).slot != log[i].slot
}

impl<T> TrailView<T> {
    /// A trail without cells, actions or checkpoints, at clock zero.
    pub open spec fn empty() -> Self {
        TrailView { clock: 0, cells: Seq::empty(), log: Seq::empty(), boundaries: Seq::empty() }
    }

    /// Every action targets an existing slot, and the boundaries form a
    /// non-decreasing stack of positions in the log.
    pub open spec fn wf(self) -> bool {
        &&& targets_within(self.log, self.cells.len())
        &&& forall|i: int|
            0 <= i < self.boundaries.len() ==> #[trigger] self.boundaries[i] <= self.log.len()
        &&& forall|i: int, j: int|
            0 <= i <= j < self.boundaries.len() ==> self.boundaries[i] <= self.boundaries[j]
    }

    /// Number of open checkpoints.
    pub open spec fn level(self) -> nat {
        self.boundaries.len()
    }

    /// Where the innermost open checkpoint starts in the log; zero when no
    /// checkpoint is open.
    pub open spec fn mark(self) -> nat {
        if self.boundaries.len() > 0 {
            self.boundaries.last()
        } else {
            0
        }
    }

    /// The trail after a restore action has been appended to its log.
    pub open spec fn register(self, action: Undo<T>) -> Self {
        TrailView { log: self.log.push(action), ..self }
    }

    /// The trail after a checkpoint has been opened.
    pub open spec fn push(self) -> Self {
        TrailView {
            clock: self.clock + 1,
            boundaries: self.boundaries.push(self.log.len()),
            ..self
        }
    }

    /// The trail after the innermost checkpoint has been closed: the actions
    /// registered since it was opened are undone and leave the log. With no
    /// checkpoint open nothing is undone: the clock ticks, and the cells,
    /// the log and the level stay as they are.
    pub open spec fn pop(self) -> Self {
        if self.boundaries.len() > 0 {
            TrailView {
                clock: self.clock + 1,
                cells: rewind(self.cells, self.log, self.mark()),
                log: self.log.take(self.mark() as int),
                boundaries: self.boundaries.drop_last(),
            }
        } else {
            TrailView { clock: self.clock + 1, ..self }
        }
    }

    /// Undoing the actions of the innermost checkpoint would write into
    /// every cell the value that it holds already: each action since the
    /// mark that is the first for its slot carries the current value of that
    /// slot.
    pub open spec fn settled(self) -> bool {
        forall|i: int| #[trigger]
            first_for_slot(self.log, self.mark(), i) ==> self.log[i].value
                == self.cells[self.log[i].slot as int]
    }

    /// The trail after checkpoints have been closed until at most `level`
    /// of them are open.
    pub open spec fn pop_until(self, level: nat) -> Self {
        if self.level() <= level {
            self
        } else {
            let mark = self.boundaries[level as int];
            TrailView {
                clock: self.clock + (self.level() - level) as nat,
                cells: rewind(self.cells, self.log, mark),
                log: self.log.take(mark as int),
                boundaries: self.boundaries.take(level as int),
            }
        }
    }

    /// The trail after every open checkpoint has been closed.
    pub open spec fn pop_all(self) -> Self {
        self.pop_until(0)
    }

    /// The trail after a new cell holding `initial` has been given the next
    /// free slot.
    pub open spec fn allot(self, initial: T) -> Self {
        TrailView { cells: self.cells.push(initial), ..self }
    }

    /// The trail after `value` has been written into the cell at `slot`,
    /// without a trace in the log.
    pub open spec fn store(self, slot: nat, value: T) -> Self {
        TrailView { cells: self.cells.update(slot as int, value), ..self }
    }
}

/// Undoing actions that all target existing slots neither adds nor removes
/// a cell.
pub proof fn lemma_rewind_len<T>(cells: Seq<T>, log: Seq<Undo<T>>, mark: nat)
    requires
        targets_within(log, cells.len()),
    ensures
        rewind(cells, log, mark).len() == cells.len(),
    decreases log.len(),
{
    if log.len() > mark {
        lemma_rewind_len(
            cells.update(log.last().slot as int, log.last().value),
            log.drop_last(),
            mark,
        );
    }
}

/// Undoing the log down to `hi` and then the rest of it down to `lo` is
/// undoing it down to `lo` at once.
pub proof fn lemma_rewind_in_stages<T>(cells: Seq<T>, log: Seq<Undo<T>>, lo: nat, hi: nat)
    requires
        lo <= hi <= log.len(),
    ensures
        rewind(rewind(cells, log, hi), log.take(hi as int), lo) == rewind(cells, log, lo),
    decreases log.len(),
{
    if log.len() == hi {
        assert(log.take(hi as int) =~= log);
    } else {
        let earlier = log.drop_last();
        assert(earlier.take(hi as int) =~= log.take(hi as int));
        lemma_rewind_in_stages(
            cells.update(log.last().slot as int, log.last().value),
            earlier,
            lo,
            hi,
        );
    }
}

/// What undoing the log leaves in a slot depends on the cells only through
/// that slot's own value, and not even on that once an action targets the
/// slot.
pub proof fn lemma_rewind_slot<T>(
    one: Seq<T>,
    other: Seq<T>,
    log: Seq<Undo<T>>,
    mark: nat,
    slot: int,
)
    requires
        0 <= slot < one.len() <= other.len(),
        targets_within(log, one.len()),
        one[slot] == other[slot] || saved_since(log, mark, slot as nat),
    ensures
        rewind(one, log, mark)[slot] == rewind(other, log, mark)[slot],
    decreases log.len(),
{
    if log.len() > mark {
        let last = log.last();
        let earlier = log.drop_last();
        if last.slot != slot && one[slot] != other[slot] {
            let i = choose|i: int| mark <= i < log.len() && (#[trigger] log[i]).slot == slot;
            assert(earlier[i].slot == slot);
        }
        lemma_rewind_slot(
            one.update(last.slot as int, last.value),
            other.update(last.slot as int, last.value),
            earlier,
            mark,
            slot,
        );
    }
}

/// Undoing the log leaves a slot alone that no action targets.
pub proof fn lemma_rewind_untouched<T>(cells: Seq<T>, log: Seq<Undo<T>>, mark: nat, slot: int)
    requires
        0 <= slot < cells.len(),
        targets_within(log, cells.len()),
        !saved_since(log, mark, slot as nat),
    ensures
        rewind(cells, log, mark)[slot] == cells[slot],
    decreases log.len(),
{
    if log.len() > mark {
        let last = log.last();
        let earlier = log.drop_last();
        assert(log[log.len() - 1].slot != slot);
        if saved_since(earlier, mark, slot as nat) {
            let i = choose|i: int|
                mark <= i < earlier.len() && (#[trigger] earlier[i]).slot == slot as nat;
            assert(log[i].slot == slot);
        }
        lemma_rewind_untouched(cells.update(last.slot as int, last.value), earlier, mark, slot);
    }
}

/// Undoing the log leaves in a slot the value of the first action that
/// targets it.
pub proof fn lemma_rewind_first<T>(cells: Seq<T>, log: Seq<Undo<T>>, mark: nat, i: int)
    requires
        targets_within(log, cells.len()),
        first_for_slot(log, mark, i),
    ensures
        rewind(cells, log, mark)[log[i].slot as int] == log[i].value,
    decreases log.len(),
{
    let last = log.last();
    let earlier = log.drop_last();
    let before = cells.update(last.slot as int, last.value);
    if i == log.len() - 1 {
        if saved_since(earlier, mark, last.slot) {
            let j = choose|j: int|
                mark <= j < earlier.len() && (#[trigger] earlier[j]).slot == last.slot;
            assert(log[j].slot == last.slot);
        }
        lemma_rewind_untouched(before, earlier, mark, last.slot as int);
    } else {
        assert(earlier[i] == log[i]);
        assert forall|j: int| mark <= j < i implies (#[trigger] earlier[j]).slot
            != earlier[i].slot by {
            assert(log[j].slot != log[i].slot);
        }
        lemma_rewind_first(before, earlier, mark, i);
    }
}

/// Finds the first action from `mark` on that targets `slot`.
pub proof fn lemma_first_for_slot<T>(log: Seq<Undo<T>>, mark: nat, slot: nat) -> (i: int)
    requires
        saved_since(log, mark, slot),
    ensures
        first_for_slot(log, mark, i),
        log[i].slot == slot,
    decreases log.len(),
{
    let earlier = log.drop_last();
    if saved_since(earlier, mark, slot) {
        let i = lemma_first_for_slot(earlier, mark, slot);
        assert(log[i] == earlier[i]);
        assert forall|j: int| mark <= j < i implies (#[trigger] log[j]).slot != log[i].slot by {
            assert(earlier[j].slot != earlier[i].slot);
        }
        i
    } else {
        let w = choose|w: int| mark <= w < log.len() && (#[trigger] log[w]).slot == slot;
        let i = log.len() - 1;
        if w < i {
            assert(earlier[w].slot == slot);
        }
        assert forall|j: int| mark <= j < i implies (#[trigger] log[j]).slot != log[i].slot by {
            assert(earlier[j].slot != slot);
        }
        i
    }
}

/// Closing a checkpoint keeps a trail well formed and its cells in place.
pub proof fn lemma_pop_wf<T>(trail: TrailView<T>)
    requires
        trail.wf(),
    ensures
        trail.pop().wf(),
        trail.pop().cells.len() == trail.cells.len(),
{
    lemma_rewind_len(trail.cells, trail.log, trail.mark());
}

/// Closing checkpoints down to a level keeps a trail well formed and its
/// cells in place.
pub proof fn lemma_pop_until_wf<T>(trail: TrailView<T>, level: nat)
    requires
        trail.wf(),
    ensures
        trail.pop_until(level).wf(),
        trail.pop_until(level).cells.len() == trail.cells.len(),
{
    if trail.level() > level {
        lemma_rewind_len(trail.cells, trail.log, trail.boundaries[level as int]);
    }
}

/// Closing the innermost checkpoint first does not change where closing
/// checkpoints down to a lower level ends.
pub proof fn lemma_pop_then_pop_until<T>(trail: TrailView<T>, level: nat)
    requires
        trail.wf(),
        trail.level() > level,
    ensures
        trail.pop().pop_until(level) == trail.pop_until(level),
{
    let lo = trail.boundaries[level as int];
    let hi = trail.mark();
    if trail.level() == level + 1 {
        assert(trail.boundaries.drop_last() =~= trail.boundaries.take(level as int));
    } else {
        lemma_rewind_in_stages(trail.cells, trail.log, lo, hi);
        assert(trail.log.take(hi as int).take(lo as int) =~= trail.log.take(lo as int));
        assert(trail.boundaries.drop_last().take(level as int) =~= trail.boundaries.take(
            level as int,
        ));
    }
}

/// The trail, also known as the reversible context.
///
/// Besides the undo log it holds the storage of the cells created on it, so
/// that a restore action can name its target by slot.
pub struct Trail<T> {
    clock: usize,
    cells: Vec<T>,
    trail: Vec<RestoreAction<T>>,
    limit: Vec<usize>,
}

impl<T> View for Trail<T> {
    type V = TrailView<T>;

    closed spec fn view(&self) -> TrailView<T> {
        TrailView {
            clock: self.clock as nat,
            cells: self.cells@,
            log: self.trail@.map_values(|action: RestoreAction<T>| action@),
            boundaries: self.limit@.map_values(|boundary: usize| boundary as nat),
        }
    }
}

impl<T> Trail<T> {
    /// Creates a new reversible context: no cell, no checkpoint, clock zero.
    pub fn new() -> (trail: Trail<T>)
        ensures
            trail@ == TrailView::<T>::empty(),
            trail@.wf(),
    {
        let trail = Trail { clock: 0, cells: Vec::new(), trail: Vec::new(), limit: Vec::new() };
        assert(trail@.log =~= Seq::empty());
        assert(trail@.boundaries =~= Seq::empty());
        trail
    }

    /// Remembers what needs to be undone when the innermost checkpoint is
    /// closed.
    pub fn push_on_trail(&mut self, entry: RestoreAction<T>)
        requires
            old(self)@.wf(),
            entry.slot < old(self)@.cells.len(),
        ensures
            final(self)@ == old(self)@.register(entry@),
            final(self)@.wf(),
    {
        self.trail.push(entry);
        assert(self@.log =~= old(self)@.log.push(entry@));
    }

    /// Saves the current state so that it can be restored with a `pop`.
    /// Increases the level by one.
    pub fn push(&mut self)
        requires
            old(self)@.wf(),
            old(self)@.clock < usize::MAX,
        ensures
            final(self)@ == old(self)@.push(),
            final(self)@.level() == old(self)@.level() + 1,
            final(self)@.clock == old(self)@.clock + 1,
            final(self)@.wf(),
    {
        self.clock += 1;
        self.limit.push(self.trail.len());
        assert(self@.boundaries =~= old(self)@.boundaries.push(old(self)@.log.len()));
    }

    /// Restores the state as it was when the innermost checkpoint was opened
    /// and closes that checkpoint. With no checkpoint open this is no error
    /// and restores nothing: only the clock ticks.
    pub fn pop(&mut self)
        requires
            old(self)@.wf(),
            old(self)@.clock < usize::MAX,
        ensures
            final(self)@ == old(self)@.pop(),
            final(self)@.level() == if old(self)@.level() > 0 {
                old(self)@.level() - 1
            } else {
                0
            },
            final(self)@.clock == old(self)@.clock + 1,
            old(self)@.level() == 0 ==> final(self)@.cells == old(self)@.cells && final(self)@.log
                == old(self)@.log,
            final(self)@.cells.len() == old(self)@.cells.len(),
            final(self)@.wf(),
    {
        let ghost before = self@;
        match self.limit.pop() {
            Some(mark) => {
                assert(self@.boundaries =~= before.boundaries.drop_last());
                assert(mark == before.mark());
                while self.trail.len() > mark
                    invariant
                        self@.wf(),
                        self@.clock == before.clock,
                        self@.boundaries == before.boundaries.drop_last(),
                        mark <= self@.log.len() <= before.log.len(),
                        forall|i: int|
                            0 <= i < self@.boundaries.len() ==> #[trigger] self@.boundaries[i]
                                <= mark,
                        self@.log == before.log.take(self@.log.len() as int),
                        rewind(self@.cells, self@.log, mark as nat) == rewind(
                            before.cells,
                            before.log,
                            mark as nat,
                        ),
                    decreases self.trail.len(),
                {
                    let ghost earlier = self@;
                    let action = self.trail.pop().unwrap();
                    assert(self@.log =~= earlier.log.drop_last());
                    assert(action@ == earlier.log.last());
                    self.cells.set(action.slot, action.value);
                }
                assert(self@.log =~= before.log.take(mark as int));
            },
            None => {
                assert(self@.boundaries =~= before.boundaries);
            },
        }
        self.clock += 1;
        proof {
            lemma_pop_wf(before);
        }
    }

    /// Restores the state as it was when the first checkpoint was opened.
    /// The level is zero afterwards.
    pub fn pop_all(&mut self)
        requires
            old(self)@.wf(),
            old(self)@.clock + old(self)@.level() <= usize::MAX,
        ensures
            final(self)@ == old(self)@.pop_all(),
            final(self)@.level() == 0,
            final(self)@.cells.len() == old(self)@.cells.len(),
            final(self)@.wf(),
    {
        self.pop_until(0)
    }

    /// Restores the state as it was when the checkpoint that raised the
    /// level above `level` was opened. A trail at or below `level` is left
    /// untouched.
    pub fn pop_until(&mut self, level: usize)
        requires
            old(self)@.wf(),
            old(self)@.level() > level ==> old(self)@.clock + old(self)@.level() - level
                <= usize::MAX,
        ensures
            final(self)@ == old(self)@.pop_until(level as nat),
            final(self)@.level() == if old(self)@.level() > level {
                level as nat
            } else {
                old(self)@.level()
            },
            final(self)@.cells.len() == old(self)@.cells.len(),
            final(self)@.wf(),
    {
        let ghost before = self@;
        while self.level() > level
            invariant
                self@.wf(),
                self@.level() > level ==> self@.clock + self@.level() - level <= usize::MAX,
                self@.pop_until(level as nat) == before.pop_until(level as nat),
            decreases self@.level(),
        {
            proof {
                lemma_pop_then_pop_until(self@, level as nat);
            }
            self.pop()
        }
        proof {
            lemma_pop_until_wf(before, level as nat);
        }
    }

    /// Gives the next free slot to a new cell holding `initial` and returns
    /// that slot.
    pub fn allot(&mut self, initial: T) -> (slot: usize)
        requires
            old(self)@.wf(),
        ensures
            slot == old(self)@.cells.len(),
            final(self)@ == old(self)@.allot(initial),
            final(self)@.wf(),
    {
        let slot = self.cells.len();
        self.cells.push(initial);
        slot
    }

    /// Writes `value` into the cell at `slot` and leaves the log alone.
    pub fn store(&mut self, slot: usize, value: T)
        requires
            old(self)@.wf(),
            slot < old(self)@.cells.len(),
        ensures
            final(self)@ == old(self)@.store(slot as nat, value),
            final(self)@.wf(),
    {
        self.cells.set(slot, value);
        assert(self@.log == old(self)@.log);
        assert(self@.boundaries == old(self)@.boundaries);
    }

    /// Returns the value of the cell at `slot`.
    pub fn load(&self, slot: usize) -> (value: T) where T: Copy
        requires
            slot < self@.cells.len(),
        ensures
            value == self@.cells[slot as int],
    {
        self.cells[slot]
    }

    /// Returns the number of cells created on this trail.
    pub fn slots(&self) -> (slots: usize)
        ensures
            slots == self@.cells.len(),
    {
        self.cells.len()
    }

    /// Returns the number of restore actions that wait in the log.
    pub fn pending(&self) -> (pending: usize)
        ensures
            pending == self@.log.len(),
    {
        self.trail.len()
    }

    /// Returns the current level: the number of open checkpoints.
    pub fn level(&self) -> (level: usize)
        ensures
            level == self@.level(),
    {
        self.limit.len()
    }

    /// Returns the current value of the clock.
    pub fn clock(&self) -> (clock: usize)
        ensures
            clock == self@.clock,
    {
        self.clock
    }
}

} // verus!
