//! The basic type to build the variables of a model on: `Reversible`, a cell
//! whose value is put back automatically when the trail backtracks.
use core::marker::PhantomData;
use vstd::prelude::*;
use vstd::std_specs::cmp::PartialEqSpec;
use crate::context::{RestoreAction, Trail, TrailView, Undo};

verus! {

/// The mathematical model of a reversible cell: where its value is stored
/// on the trail, and the clock of the trail when the cell last saved its
/// value (or was created).
pub ghost struct CellView {
    pub slot: nat,
    pub clock: nat,
}

impl CellView {
    /// The cell lives on `trail`: it has a slot there and its clock is not
    /// ahead of the trail's.
    pub open spec fn is_cell_of<T>(self, trail: TrailView<T>) -> bool {
        self.slot < trail.cells.len() && self.clock <= trail.clock
    }

    /// The current value of the cell.
    pub open spec fn value<T>(self, trail: TrailView<T>) -> T {
        trail.cells[self.slot as int]
    }
}

/// The cell and the trail after the cell has made sure that its current
/// value is saved for the current tick of the clock: a cell whose clock
/// differs from the trail's registers a restore action and takes the
/// trail's clock; a cell that has the trail's clock does nothing.
pub open spec fn record<T>(cell: CellView, trail: TrailView<T>) -> (CellView, TrailView<T>) {
    if cell.clock != trail.clock {
        (
            CellView { slot: cell.slot, clock: trail.clock },
            trail.register(Undo { slot: cell.slot, value: cell.value(trail) }),
        )
    } else {
        (cell, trail)
    }
}

/// The cell and the trail after `value` has been assigned to the cell.
/// `same` tells whether `value` compared equal to the current value: then
/// nothing changes. Otherwise the current value is saved, if it is not yet,
/// and `value` is written.
pub open spec fn assign<T>(cell: CellView, trail: TrailView<T>, value: T, same: bool) -> (
    CellView,
    TrailView<T>,
) {
    if same {
        (cell, trail)
    } else {
        (record(cell, trail).0, record(cell, trail).1.store(cell.slot, value))
    }
}

/// A reversible cell. Its value lives on the trail it was created on, and
/// every method that reads or writes the value takes that trail.
pub struct Reversible<T> where T: Copy + PartialEq {
    slot: usize,
    clock: usize,
    kind: PhantomData<T>,
}

impl<T> View for Reversible<T> where T: Copy + PartialEq {
    type V = CellView;

    closed spec fn view(&self) -> CellView {
        CellView { slot: self.slot as nat, clock: self.clock as nat }
    }
}

impl<T> Reversible<T> where T: Copy + PartialEq {
    /// Creates a new reversible cell on the given trail, initialized with
    /// the given value.
    pub fn new(trail: &mut Trail<T>, initial: T) -> (cell: Reversible<T>)
        requires
            old(trail)@.wf(),
        ensures
            final(trail)@ == old(trail)@.allot(initial),
            final(trail)@.wf(),
            cell@ == (CellView { slot: old(trail)@.cells.len(), clock: old(trail)@.clock }),
            cell@.is_cell_of(final(trail)@),
    {
        let clock = trail.clock();
        let slot = trail.allot(initial);
        Reversible { slot, clock, kind: PhantomData }
    }

    /// Posts an entry on the trail that restores the current value, unless
    /// the cell has done so since the clock last ticked.
    fn trail(&mut self, context: &mut Trail<T>)
        requires
            old(context)@.wf(),
            old(self)@.is_cell_of(old(context)@),
        ensures
            (final(self)@, final(context)@) == record(old(self)@, old(context)@),
            final(context)@.wf(),
            final(self)@.is_cell_of(final(context)@),
    {
        let trail_time = context.clock();
        if trail_time != self.clock {
            self.clock = trail_time;
            let val = context.load(self.slot);
            context.push_on_trail(RestoreAction { slot: self.slot, value: val });
        }
    }

    /// Returns the current value of the cell.
    pub fn get_value(&self, trail: &Trail<T>) -> (value: T)
        requires
            self@.is_cell_of(trail@),
        ensures
            value == self@.value(trail@),
    {
        trail.load(self.slot)
    }

    /// Writes `v` into the cell without comparing it with the current value,
    /// which is saved first unless it is saved already, and returns `v`.
    pub fn overwrite(&mut self, trail: &mut Trail<T>, v: T) -> (value: T)
        requires
            old(trail)@.wf(),
            old(self)@.is_cell_of(old(trail)@),
        ensures
            (final(self)@, final(trail)@) == assign(old(self)@, old(trail)@, v, false),
            value == v,
            final(trail)@.wf(),
            final(self)@.is_cell_of(final(trail)@),
    {
        self.trail(trail);
        trail.store(self.slot, v);
        v
    }

    /// Changes the current value of the cell and returns the value that it
    /// holds afterwards. A value that compares equal to the current one
    /// leaves the cell and the trail untouched: no entry is added to the
    /// log. Any other value is written as by `overwrite`.
    ///
    /// The comparison is the `!=` of `T`, applied to `v` and the current
    /// value. Where `T` keeps to its own specification of equality, the
    /// outcome is fixed by `eq_spec`.
    pub fn set_value(&mut self, trail: &mut Trail<T>, v: T) -> (value: T)
        requires
            old(trail)@.wf(),
            old(self)@.is_cell_of(old(trail)@),
        ensures
            exists|differs: bool|
                {
                    &&& call_ensures(T::ne, (&v, &old(self)@.value(old(trail)@)), differs)
                    &&& (final(self)@, final(trail)@) == assign(
                        old(self)@,
                        old(trail)@,
                        v,
                        !differs,
                    )
                },
            T::obeys_eq_spec() ==> (final(self)@, final(trail)@) == assign(
                old(self)@,
                old(trail)@,
                v,
                v.eq_spec(&old(self)@.value(old(trail)@)),
            ),
            T::obeys_eq_spec() && v.eq_spec(&old(self)@.value(old(trail)@)) ==> final(self)@
                == old(self)@ && final(trail)@ == old(trail)@,
            value == final(self)@.value(final(trail)@),
            final(trail)@.wf(),
            final(self)@.is_cell_of(final(trail)@),
    {
        let current = trail.load(self.slot);
        if v != current {
            self.overwrite(trail, v)
        } else {
            current
        }
    }

    /// Tells whether the cell can be used with `trail`.
    pub fn is_cell_of(&self, trail: &Trail<T>) -> (yes: bool)
        ensures
            yes == self@.is_cell_of(trail@),
    {
        self.slot < trail.slots() && self.clock <= trail.clock()
    }
}

} // verus!
