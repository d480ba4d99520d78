//! What backtracking guarantees: the laws that relate checkpoints, writes
//! to cells and the closing of checkpoints.
use vstd::prelude::*;
use crate::context::{
    first_for_slot, lemma_first_for_slot, lemma_pop_wf, lemma_rewind_first,
    lemma_rewind_in_stages, lemma_rewind_len, lemma_rewind_slot, lemma_rewind_untouched, rewind,
    saved_since, TrailView, Undo,
};
use crate::reversible::{assign, CellView};
use crate::search::{changes, writes_only, writes_to, Search, Step};

verus! {

/// How a search `now` relates to the search `base` it grew from by opening
/// a checkpoint that is still open: what `base` knew is still in place,
/// and undoing the log down to the checkpoint gives back the values that
/// the cells of `base` had.
spec fn pending<T>(base: Search<T>, now: Search<T>) -> bool {
    let level = base.trail.level() as int;
    let mark = base.trail.log.len();
    let slots = base.trail.cells.len();
    &&& now.wf()
    &&& now.trail.level() > level
    &&& now.trail.clock > base.trail.clock
    &&& now.trail.boundaries.take(level) == base.trail.boundaries
    &&& now.trail.boundaries[level] == mark
    &&& now.trail.log.len() >= mark
    &&& now.trail.log.take(mark as int) == base.trail.log
    &&& now.trail.cells.len() >= slots
    &&& now.cells.len() >= base.cells.len()
    &&& forall|i: int|
        0 <= i < base.cells.len() ==> (#[trigger] now.cells[i]).slot == base.cells[i].slot
    &&& forall|i: int|
        0 <= i < now.cells.len() && (#[trigger] now.cells[i]).clock == now.trail.clock
            && now.cells[i].slot < slots ==> saved_since(
            now.trail.log,
            now.trail.mark(),
            now.cells[i].slot,
        )
    &&& forall|k: int|
        0 <= k < slots ==> rewind(now.trail.cells, now.trail.log, mark)[k]
            == #[trigger] base.trail.cells[k]
}

/// Right after the checkpoint is opened, nothing has to be undone.
proof fn lemma_pending_at_push<T>(base: Search<T>)
    requires
        base.wf(),
    ensures
        pending(base, base.step(Step::Push)),
{
    let now = base.step(Step::Push);
    let level = base.trail.level() as int;
    assert(now.trail.boundaries.take(level) =~= base.trail.boundaries);
    assert(now.trail.log.take(base.trail.log.len() as int) =~= base.trail.log);
}

/// Opening a further checkpoint keeps the relation.
proof fn lemma_pending_push<T>(base: Search<T>, now: Search<T>)
    requires
        base.wf(),
        pending(base, now),
    ensures
        pending(base, now.step(Step::Push)),
{
    let next = now.step(Step::Push);
    let level = base.trail.level() as int;
    assert(next.trail.boundaries.take(level) =~= now.trail.boundaries.take(level));
}

/// Closing a checkpoint above the one of `base` keeps the relation.
proof fn lemma_pending_pop<T>(base: Search<T>, now: Search<T>)
    requires
        base.wf(),
        pending(base, now),
        now.trail.level() > base.trail.level() + 1,
    ensures
        pending(base, now.step(Step::Pop)),
{
    let next = now.step(Step::Pop);
    let level = base.trail.level() as int;
    let mark = base.trail.log.len();
    let inner = now.trail.mark();
    lemma_pop_wf(now.trail);
    assert(mark <= inner) by {
        assert(now.trail.boundaries[level] <= now.trail.boundaries[now.trail.level() - 1]);
    }
    lemma_rewind_in_stages(now.trail.cells, now.trail.log, mark, inner);
    assert(next.trail.boundaries.take(level) =~= now.trail.boundaries.take(level));
    assert(next.trail.log.take(mark as int) =~= now.trail.log.take(mark as int));
}

/// Creating a cell keeps the relation.
proof fn lemma_pending_create<T>(base: Search<T>, now: Search<T>, initial: T)
    requires
        base.wf(),
        pending(base, now),
    ensures
        pending(base, now.step(Step::Create { initial })),
{
    let next = now.step(Step::Create { initial });
    let mark = base.trail.log.len();
    let slots = base.trail.cells.len();
    assert forall|k: int| 0 <= k < slots implies rewind(next.trail.cells, next.trail.log, mark)[k]
        == #[trigger] base.trail.cells[k] by {
        lemma_rewind_slot(now.trail.cells, next.trail.cells, now.trail.log, mark, k);
    }
    assert forall|i: int|
        0 <= i < next.cells.len() && (#[trigger] next.cells[i]).clock == next.trail.clock
            && next.cells[i].slot < slots implies saved_since(
        next.trail.log,
        next.trail.mark(),
        next.cells[i].slot,
    ) by {
        assert(i < now.cells.len());
        assert(next.cells[i] == now.cells[i]);
    }
}

/// Writing to a cell keeps the relation.
proof fn lemma_pending_write<T>(base: Search<T>, now: Search<T>, cell: nat, value: T, same: bool)
    requires
        base.wf(),
        pending(base, now),
        cell < now.cells.len(),
    ensures
        pending(base, now.step(Step::Write { cell, value, same })),
{
    let next = now.step(Step::Write { cell, value, same });
    let level = base.trail.level() as int;
    let mark = base.trail.log.len();
    let slots = base.trail.cells.len();
    let writer = now.cells[cell as int];
    let inner = now.trail.mark();
    assert(mark <= inner) by {
        assert(now.trail.boundaries[level] <= now.trail.boundaries[now.trail.level() - 1]);
    }
    if !same {
        if writer.clock != now.trail.clock {
            let saved = Undo { slot: writer.slot, value: writer.value(now.trail) };
            assert(next.trail.log.drop_last() =~= now.trail.log);
            assert(next.trail.log.last() == saved);
            assert(next.trail.cells.update(saved.slot as int, saved.value) =~= now.trail.cells);
            assert(rewind(next.trail.cells, next.trail.log, mark) == rewind(
                now.trail.cells,
                now.trail.log,
                mark,
            ));
            assert(next.trail.log.take(mark as int) =~= now.trail.log.take(mark as int));
            assert forall|i: int|
                0 <= i < next.cells.len() && (#[trigger] next.cells[i]).clock == next.trail.clock
                    && next.cells[i].slot < slots implies saved_since(
                next.trail.log,
                next.trail.mark(),
                next.cells[i].slot,
            ) by {
                if i == cell {
                    assert(next.trail.log[now.trail.log.len() as int].slot == writer.slot);
                } else {
                    assert(next.cells[i] == now.cells[i]);
                    let j = choose|j: int|
                        inner <= j < now.trail.log.len() && (#[trigger] now.trail.log[j]).slot
                            == now.cells[i].slot;
                    assert(next.trail.log[j].slot == now.cells[i].slot);
                }
            }
        } else {
            assert forall|k: int| 0 <= k < slots implies rewind(
                next.trail.cells,
                next.trail.log,
                mark,
            )[k] == #[trigger] base.trail.cells[k] by {
                if k == writer.slot {
                    let j = choose|j: int|
                        inner <= j < now.trail.log.len() && (#[trigger] now.trail.log[j]).slot
                            == writer.slot;
                    assert(now.trail.log[j].slot == k as nat);
                    assert(saved_since(now.trail.log, mark, k as nat));
                }
                lemma_rewind_slot(next.trail.cells, now.trail.cells, now.trail.log, mark, k);
            }
            assert forall|i: int|
                0 <= i < next.cells.len() && (#[trigger] next.cells[i]).clock == next.trail.clock
                    && next.cells[i].slot < slots implies saved_since(
                next.trail.log,
                next.trail.mark(),
                next.cells[i].slot,
            ) by {
                assert(next.cells[i] == now.cells[i]);
            }
        }
    } else {
        assert(next.cells =~= now.cells);
    }
}

/// One admitted move keeps the relation.
proof fn lemma_pending_step<T>(base: Search<T>, now: Search<T>, step: Step<T>)
    requires
        base.wf(),
        pending(base, now),
        now.admits(step, base.trail.level() + 1),
    ensures
        pending(base, now.step(step)),
{
    match step {
        Step::Push => lemma_pending_push(base, now),
        Step::Pop => lemma_pending_pop(base, now),
        Step::Create { initial } => lemma_pending_create(base, now, initial),
        Step::Write { cell, value, same } => lemma_pending_write(base, now, cell, value, same),
    }
}

/// The relation holds after any admitted sequence of moves that starts by
/// opening a checkpoint.
proof fn lemma_pending_run<T>(base: Search<T>, steps: Seq<Step<T>>)
    requires
        base.wf(),
        base.step(Step::Push).admits_all(steps, base.trail.level() + 1),
    ensures
        pending(base, base.step(Step::Push).run(steps)),
    decreases steps.len(),
{
    if steps.len() == 0 {
        lemma_pending_at_push(base);
    } else {
        lemma_pending_run(base, steps.drop_last());
        lemma_pending_step(base, base.step(Step::Push).run(steps.drop_last()), steps.last());
    }
}

/// Writes to existing cells can always be made. They keep a search well
/// formed and leave the clock, the checkpoints and the number of cells as
/// they are.
proof fn lemma_writes_frame<T>(from: Search<T>, writes: Seq<Step<T>>, floor: nat)
    requires
        from.wf(),
        writes_only(writes, from.cells.len()),
    ensures
        from.admits_all(writes, floor),
        from.run(writes).wf(),
        from.run(writes).trail.clock == from.trail.clock,
        from.run(writes).trail.boundaries == from.trail.boundaries,
        from.run(writes).trail.cells.len() == from.trail.cells.len(),
        from.run(writes).cells.len() == from.cells.len(),
    decreases writes.len(),
{
    if writes.len() > 0 {
        let earlier = writes.drop_last();
        assert forall|i: int| 0 <= i < earlier.len() implies (#[trigger] earlier[i] matches Step::Write {
            cell,
            ..
        } && cell < from.cells.len()) by {
            assert(earlier[i] == writes[i]);
        }
        lemma_writes_frame(from, earlier, floor);
        assert(writes.last() == writes[writes.len() - 1]);
    }
}

/// Open a checkpoint, then make any moves that never close it: open and
/// close further checkpoints, create cells, write to cells in any order.
/// Closing checkpoints down to the level from before then gives every cell
/// that existed before the value it had then, and gives the log and the
/// checkpoints back as they were.
pub proof fn law_checkpoint_restores<T>(start: Search<T>, steps: Seq<Step<T>>)
    requires
        start.wf(),
        start.step(Step::Push).admits_all(steps, start.trail.level() + 1),
    ensures
        ({
            let end = start.step(Step::Push).run(steps);
            let back = end.trail.pop_until(start.trail.level());
            &&& back.cells.take(start.trail.cells.len() as int) == start.trail.cells
            &&& back.cells.len() == end.trail.cells.len()
            &&& back.log == start.trail.log
            &&& back.boundaries == start.trail.boundaries
            &&& back.level() == start.trail.level()
            &&& forall|i: int|
                0 <= i < start.cells.len() ==> #[trigger] end.cells[i].value(back) == start.value(
                    i,
                )
        }),
{
    let end = start.step(Step::Push).run(steps);
    let back = end.trail.pop_until(start.trail.level());
    let mark = start.trail.log.len();
    lemma_pending_run(start, steps);
    lemma_rewind_len(end.trail.cells, end.trail.log, mark);
    assert(back.cells.take(start.trail.cells.len() as int) =~= start.trail.cells) by {
        assert forall|k: int| 0 <= k < start.trail.cells.len() implies back.cells[k]
            == start.trail.cells[k] by {
            assert(back.cells[k] == #[trigger] start.trail.cells[k]);
        }
    }
    assert forall|i: int| 0 <= i < start.cells.len() implies #[trigger] end.cells[i].value(back)
        == start.value(i) by {
        assert(end.cells[i].slot == start.cells[i].slot);
        assert(start.cells[i].is_cell_of(start.trail));
        assert(back.cells[start.cells[i].slot as int] == start.trail.cells[start.cells[i].slot as int]);
    }
}

/// From a search without open checkpoints, open one and make any moves
/// that never close it, to any depth. `pop_all` then gives every cell that
/// existed at level zero the value it had there, and leaves no checkpoint
/// open.
pub proof fn law_pop_all_restores<T>(start: Search<T>, steps: Seq<Step<T>>)
    requires
        start.wf(),
        start.trail.level() == 0,
        start.step(Step::Push).admits_all(steps, 1),
    ensures
        ({
            let end = start.step(Step::Push).run(steps);
            let back = end.trail.pop_all();
            &&& back.level() == 0
            &&& back.cells.take(start.trail.cells.len() as int) == start.trail.cells
            &&& forall|i: int|
                0 <= i < start.cells.len() ==> #[trigger] end.cells[i].value(back) == start.value(
                    i,
                )
        }),
{
    law_checkpoint_restores(start, steps);
}

/// Within one checkpoint, write to any of the cells any number of times in
/// any order. Closing the checkpoint gives every cell the value it had when
/// the checkpoint was opened, whichever cell registered its restore action
/// first, and the level is what it was.
pub proof fn law_pop_restores_written_cells<T>(start: Search<T>, writes: Seq<Step<T>>)
    requires
        start.wf(),
        writes_only(writes, start.cells.len()),
    ensures
        ({
            let end = start.step(Step::Push).run(writes);
            let back = end.trail.pop();
            &&& back.cells == start.trail.cells
            &&& back.level() == start.trail.level()
            &&& back.log == start.trail.log
            &&& back.boundaries == start.trail.boundaries
            &&& forall|i: int|
                0 <= i < start.cells.len() ==> #[trigger] end.cells[i].value(back) == start.value(
                    i,
                )
        }),
{
    let opened = start.step(Step::Push);
    let end = opened.run(writes);
    let level = start.trail.level();
    lemma_writes_frame(opened, writes, level + 1);
    law_checkpoint_restores(start, writes);
    assert(end.trail.pop() == end.trail.pop_until(level)) by {
        assert(end.trail.boundaries.drop_last() =~= end.trail.boundaries.take(level as int));
    }
    let back = end.trail.pop();
    assert(back.cells.take(start.trail.cells.len() as int) =~= back.cells);
}

/// Writes to one cell right after a checkpoint was opened: until a write
/// changes the value nothing moves, and from then on the log holds one more
/// action, which carries the value from before the checkpoint.
proof fn lemma_coalesced<T>(start: Search<T>, cell: nat, writes: Seq<Step<T>>)
    requires
        start.wf(),
        cell < start.cells.len(),
        writes_to(writes, cell),
    ensures
        ({
            let opened = start.step(Step::Push);
            let end = opened.run(writes);
            let first = Undo { slot: start.cells[cell as int].slot, value: start.value(cell as int) };
            &&& end.cells.len() == start.cells.len()
            &&& end.cells[cell as int].slot == start.cells[cell as int].slot
            &&& end.trail.clock == opened.trail.clock
            &&& end.trail.cells.len() == start.trail.cells.len()
            &&& !changes(writes) ==> end == opened
            &&& changes(writes) ==> end.trail.log == opened.trail.log.push(first)
                && end.cells[cell as int].clock == end.trail.clock
        }),
    decreases writes.len(),
{
    let opened = start.step(Step::Push);
    assert(start.cells[cell as int].is_cell_of(start.trail));
    if writes.len() > 0 {
        let earlier = writes.drop_last();
        let last = writes.last();
        assert(last == writes[writes.len() - 1]);
        assert forall|i: int| 0 <= i < earlier.len() implies (#[trigger] earlier[i] matches Step::Write {
            cell: c,
            ..
        } && c == cell) by {
            assert(earlier[i] == writes[i]);
        }
        lemma_coalesced(start, cell, earlier);
        let quiet = last matches Step::Write { same, .. } && same;
        if changes(earlier) {
            let i = choose|i: int|
                0 <= i < earlier.len() && (#[trigger] earlier[i] matches Step::Write { same, .. }
                    && !same);
            assert(writes[i] == earlier[i]);
        } else if changes(writes) {
            let i = choose|i: int|
                0 <= i < writes.len() && (#[trigger] writes[i] matches Step::Write { same, .. }
                    && !same);
            if i < earlier.len() {
                assert(earlier[i] == writes[i]);
            }
            assert(!quiet);
        } else {
            assert(quiet);
        }
        let before = opened.run(earlier);
        let end = before.step(last);
        if quiet {
            assert(end.cells =~= before.cells);
        } else if changes(earlier) {
            assert(end.trail.log == before.trail.log);
        }
    }
}

/// Within one checkpoint, any number of writes to one cell register one
/// restore action if any of them changed the value, and none otherwise. The
/// action carries the value that the cell had when the checkpoint was
/// opened, and closing the checkpoint restores that value, never one from in
/// between.
pub proof fn law_writes_coalesce<T>(start: Search<T>, cell: nat, writes: Seq<Step<T>>)
    requires
        start.wf(),
        cell < start.cells.len(),
        writes_to(writes, cell),
    ensures
        ({
            let end = start.step(Step::Push).run(writes);
            let back = end.trail.pop();
            let first = Undo { slot: start.cells[cell as int].slot, value: start.value(cell as int) };
            &&& end.trail.log == if changes(writes) {
                start.trail.log.push(first)
            } else {
                start.trail.log
            }
            &&& end.cells[cell as int].value(back) == start.value(cell as int)
            &&& back.cells == start.trail.cells
        }),
{
    lemma_coalesced(start, cell, writes);
    law_pop_restores_written_cells(start, writes);
}

/// Open a checkpoint, write any value to a cell, close the checkpoint: the
/// cell, and every other one, holds what it held before, and the level is
/// what it was.
pub proof fn law_round_trip<T>(trail: TrailView<T>, cell: CellView, value: T, same: bool)
    requires
        trail.wf(),
        cell.is_cell_of(trail),
    ensures
        ({
            let written = assign(cell, trail.push(), value, same);
            let back = written.1.pop();
            &&& written.0.value(back) == cell.value(trail)
            &&& back.level() == trail.level()
            &&& back.cells == trail.cells
            &&& back.log == trail.log
            &&& back.boundaries == trail.boundaries
            &&& back.clock == trail.clock + 2
        }),
{
    let start = Search { trail, cells: seq![cell] };
    let write = Step::Write { cell: 0, value, same };
    let opened = start.step(Step::Push);
    assert(opened.run(seq![write]) == opened.step(write)) by {
        assert(seq![write].drop_last() =~= Seq::<Step<T>>::empty());
        assert(opened.run(Seq::<Step<T>>::empty()) == opened);
        assert(seq![write].last() == write);
    }
    law_pop_restores_written_cells(start, seq![write]);
}

/// Closing a checkpoint when none is open is no error and restores nothing:
/// the clock ticks, and every cell, the log and the level stay as they are,
/// whatever the log holds.
pub proof fn law_idle_pop<T>(trail: TrailView<T>)
    requires
        trail.wf(),
        trail.level() == 0,
    ensures
        trail.pop() == (TrailView { clock: trail.clock + 1, ..trail }),
        trail.pop().cells == trail.cells,
        trail.pop().log == trail.log,
        trail.pop().level() == 0,
{
}

/// Closing an open checkpoint leaves every cell as it is exactly on a
/// settled trail.
pub proof fn law_pop_keeps_settled_cells<T>(trail: TrailView<T>)
    requires
        trail.wf(),
        trail.level() > 0,
    ensures
        trail.pop().cells == trail.cells <==> trail.settled(),
{
    let mark = trail.mark();
    let undone = rewind(trail.cells, trail.log, mark);
    lemma_rewind_len(trail.cells, trail.log, mark);
    if trail.settled() {
        assert forall|k: int| 0 <= k < trail.cells.len() implies undone[k] == trail.cells[k] by {
            if saved_since(trail.log, mark, k as nat) {
                let i = lemma_first_for_slot(trail.log, mark, k as nat);
                lemma_rewind_first(trail.cells, trail.log, mark, i);
            } else {
                lemma_rewind_untouched(trail.cells, trail.log, mark, k);
            }
        }
        assert(undone =~= trail.cells);
    }
    if undone == trail.cells {
        assert forall|i: int| #[trigger] first_for_slot(trail.log, mark, i) implies trail.log[i].value
            == trail.cells[trail.log[i].slot as int] by {
            lemma_rewind_first(trail.cells, trail.log, mark, i);
        }
    }
}

} // verus!
