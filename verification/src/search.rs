//! A model of a whole search: a trail, the cells created on it, and the
//! moves that a solver makes with them.
use vstd::prelude::*;
use crate::context::TrailView;
use crate::reversible::{assign, CellView};

verus! {

/// One move of a search.
pub ghost enum Step<T> {
    /// Open a checkpoint.
    Push,
    /// Close the innermost checkpoint.
    Pop,
    /// Create a cell that holds `initial`.
    Create { initial: T },
    /// Assign `value` to the cell with number `cell`. `same` tells whether
    /// `value` compared equal to the value that the cell held.
    Write { cell: nat, value: T, same: bool },
}

/// A trail together with the cells created on it, in the order of their
/// creation.
pub ghost struct Search<T> {
    pub trail: TrailView<T>,
    pub cells: Seq<CellView>,
}

impl<T> Search<T> {
    /// The trail is well formed and every cell lives on it.
    pub open spec fn wf(self) -> bool {
        &&& self.trail.wf()
        &&& forall|i: int|
            0 <= i < self.cells.len() ==> (#[trigger] self.cells[i]).is_cell_of(self.trail)
    }

    /// The current value of the cell with number `cell`.
    pub open spec fn value(self, cell: int) -> T {
        self.cells[cell].value(self.trail)
    }

    /// The search after one move.
    pub open spec fn step(self, step: Step<T>) -> Self {
        match step {
            Step::Push => Search { trail: self.trail.push(), cells: self.cells },
            Step::Pop => Search { trail: self.trail.pop(), cells: self.cells },
            Step::Create { initial } => Search {
                trail: self.trail.allot(initial),
                cells: self.cells.push(
                    CellView { slot: self.trail.cells.len(), clock: self.trail.clock },
                ),
            },
            Step::Write { cell, value, same } => {
                let after = assign(self.cells[cell as int], self.trail, value, same);
                Search { trail: after.1, cells: self.cells.update(cell as int, after.0) }
            },
        }
    }

    /// The move can be made here: a write names a cell that exists, and a
    /// pop leaves at least `floor` checkpoints open.
    pub open spec fn admits(self, step: Step<T>, floor: nat) -> bool {
        match step {
            Step::Pop => self.trail.level() > floor,
            Step::Write { cell, .. } => cell < self.cells.len(),
            _ => true,
        }
    }

    /// The search after a sequence of moves.
    pub open spec fn run(self, steps: Seq<Step<T>>) -> Self
        decreases steps.len(),
    {
        if steps.len() == 0 {
            self
        } else {
            self.run(steps.drop_last()).step(steps.last())
        }
    }

    /// Each move of the sequence can be made where it is reached, and none
    /// of them leaves fewer than `floor` checkpoints open.
    pub open spec fn admits_all(self, steps: Seq<Step<T>>, floor: nat) -> bool
        decreases steps.len(),
    {
        steps.len() == 0 || (self.admits_all(steps.drop_last(), floor) && self.run(
            steps.drop_last(),
        ).admits(steps.last(), floor))
    }
}

/// Every move of the sequence writes to a cell with a number below `cells`.
pub open spec fn writes_only<T>(steps: Seq<Step<T>>, cells: nat) -> bool {
    forall|i: int|
        0 <= i < steps.len() ==> (#[trigger] steps[i] matches Step::Write { cell, .. } && cell
            < cells)
}

/// Every move of the sequence writes to the cell with number `cell`.
pub open spec fn writes_to<T>(steps: Seq<Step<T>>, cell: nat) -> bool {
    forall|i: int|
        0 <= i < steps.len() ==> (#[trigger] steps[i] matches Step::Write { cell: c, .. } && c
            == cell)
}

/// Some move of the sequence is a write of a value that did not compare
/// equal to the one the cell held.
pub open spec fn changes<T>(steps: Seq<Step<T>>) -> bool {
    exists|i: int|
        0 <= i < steps.len() && (#[trigger] steps[i] matches Step::Write { same, .. } && !same)
}

} // verus!
