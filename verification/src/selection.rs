//! Spreadsheet-style rectangular cell selection.

use vstd::prelude::*;
use core::ops::RangeInclusive;

verus! {

/// A rectangular cell-range selection, like a spreadsheet. `anchor` is where
/// the drag started; `focus` is the cell currently under the pointer. Cells
/// are `(row, column)` pairs.
#[derive(Clone, Copy, Debug)]
pub struct CellSel {
    pub anchor: (u64, usize),
    pub focus: (u64, usize),
}

/// Smaller of two integers.
pub open spec fn min_of(a: int, b: int) -> int {
    if a <= b { a } else { b }
}

/// Larger of two integers.
pub open spec fn max_of(a: int, b: int) -> int {
    if a <= b { b } else { a }
}

impl CellSel {
    /// First and last selected rows.
    pub open spec fn rows(self) -> (int, int) {
        (min_of(self.anchor.0 as int, self.focus.0 as int), max_of(self.anchor.0 as int, self.focus.0 as int))
    }

    /// First and last selected columns.
    pub open spec fn cols(self) -> (int, int) {
        (min_of(self.anchor.1 as int, self.focus.1 as int), max_of(self.anchor.1 as int, self.focus.1 as int))
    }

    /// Cell `(row, col)` lies in the selected rectangle.
    pub open spec fn covers(self, row: int, col: int) -> bool {
        &&& self.rows().0 <= row <= self.rows().1
        &&& self.cols().0 <= col <= self.cols().1
    }

    /// A selection of the one cell `(row, col)`.
    pub fn single(row: u64, col: usize) -> (s: CellSel)
        ensures
            s.anchor == (row, col),
            s.focus == (row, col),
    {
        CellSel { anchor: (row, col), focus: (row, col) }
    }

    /// First and last selected row.
    pub fn row_bounds(&self) -> (r: (u64, u64))
        ensures
            r.0 == self.rows().0,
            r.1 == self.rows().1,
    {
        if self.anchor.0 < self.focus.0 { (self.anchor.0, self.focus.0) } else { (self.focus.0, self.anchor.0) }
    }

    /// First and last selected column.
    pub fn col_bounds(&self) -> (r: (usize, usize))
        ensures
            r.0 == self.cols().0,
            r.1 == self.cols().1,
    {
        if self.anchor.1 < self.focus.1 { (self.anchor.1, self.focus.1) } else { (self.focus.1, self.anchor.1) }
    }

    /// The selected rows, first to last.
    pub fn row_range(&self) -> (r: RangeInclusive<u64>)
        ensures
            r@.start == self.rows().0,
            r@.end == self.rows().1,
            !r@.exhausted,
    {
        let lo = if self.anchor.0 < self.focus.0 { self.anchor.0 } else { self.focus.0 };
        let hi = if self.anchor.0 < self.focus.0 { self.focus.0 } else { self.anchor.0 };
        RangeInclusive::new(lo, hi)
    }

    /// The selected columns, first to last.
    pub fn col_range(&self) -> (r: RangeInclusive<usize>)
        ensures
            r@.start == self.cols().0,
            r@.end == self.cols().1,
            !r@.exhausted,
    {
        let lo = if self.anchor.1 < self.focus.1 { self.anchor.1 } else { self.focus.1 };
        let hi = if self.anchor.1 < self.focus.1 { self.focus.1 } else { self.anchor.1 };
        RangeInclusive::new(lo, hi)
    }

    /// Whether cell `(row, col)` is inside the selection.
    pub fn contains(&self, row: u64, col: usize) -> (b: bool)
        ensures
            b == self.covers(row as int, col as int),
    {
        self.row_range().contains(&row) && self.col_range().contains(&col)
    }
}


/// What the pointer did on one table cell during a frame.
#[derive(Clone, Copy, Debug)]
pub struct CellInput {
    /// A drag started on the cell.
    pub drag_started: bool,
    /// The cell was clicked with the primary button.
    pub clicked: bool,
    /// The cell was clicked with the secondary button.
    pub secondary_clicked: bool,
    /// Shift is held.
    pub shift: bool,
    /// The primary button is held down.
    pub primary_down: bool,
    /// The pointer is over the cell.
    pub pointer_inside: bool,
}

/// The current selection and whether a drag-select is in progress.
#[derive(Clone, Copy, Debug)]
pub struct SelectionState {
    pub sel: Option<CellSel>,
    /// True while the primary mouse button is held during a drag-select.
    pub selecting: bool,
}

/// Selection after a press on `cell`: a plain click or a drag start selects
/// only that cell and begins a drag; a shift-click moves the focus there (or
/// selects the cell when nothing is selected).
pub open spec fn after_press(st: SelectionState, cell: (u64, usize), ev: CellInput) -> SelectionState {
    if ev.drag_started || (ev.clicked && !ev.shift) {
        SelectionState { sel: Some(CellSel { anchor: cell, focus: cell }), selecting: true }
    } else if ev.shift && ev.clicked {
        match st.sel {
            Some(s) => SelectionState { sel: Some(CellSel { anchor: s.anchor, focus: cell }), ..st },
            None => SelectionState { sel: Some(CellSel { anchor: cell, focus: cell }), ..st },
        }
    } else {
        st
    }
}

/// Selection after the pointer is seen over `cell`: while dragging with the
/// button held, the focus follows the pointer.
pub open spec fn after_drag(st: SelectionState, cell: (u64, usize), ev: CellInput) -> SelectionState {
    if st.selecting && ev.primary_down && ev.pointer_inside {
        match st.sel {
            Some(s) => SelectionState { sel: Some(CellSel { anchor: s.anchor, focus: cell }), ..st },
            None => st,
        }
    } else {
        st
    }
}

/// Selection after a secondary click on `cell`: it selects the cell unless
/// the cell is already inside the selection.
pub open spec fn after_context(st: SelectionState, cell: (u64, usize), ev: CellInput) -> SelectionState {
    if ev.secondary_clicked {
        let inside = match st.sel {
            Some(s) => s.covers(cell.0 as int, cell.1 as int),
            None => false,
        };
        if inside {
            st
        } else {
            SelectionState { sel: Some(CellSel { anchor: cell, focus: cell }), ..st }
        }
    } else {
        st
    }
}

impl SelectionState {
    /// Nothing selected, no drag in progress.
    pub fn new() -> (st: SelectionState)
        ensures
            st.sel is None,
            !st.selecting,
    {
        SelectionState { sel: None, selecting: false }
    }

    /// Apply what the pointer did on cell `(row, col)`: press, then drag,
    /// then context click.
    pub fn cell_event(&mut self, row: u64, col: usize, ev: CellInput)
        ensures
            *final(self) == after_context(after_drag(after_press(*old(self), (row, col), ev), (row, col), ev),
                (row, col), ev),
    {
        if ev.drag_started || (ev.clicked && !ev.shift) {
            self.sel = Some(CellSel::single(row, col));
            self.selecting = true;
        } else if ev.shift && ev.clicked {
            match self.sel {
                Some(s) => {
                    self.sel = Some(CellSel { anchor: s.anchor, focus: (row, col) });
                },
                None => {
                    self.sel = Some(CellSel::single(row, col));
                },
            }
        }
        if self.selecting && ev.primary_down && ev.pointer_inside {
            match self.sel {
                Some(s) => {
                    self.sel = Some(CellSel { anchor: s.anchor, focus: (row, col) });
                },
                None => {},
            }
        }
        if ev.secondary_clicked {
            let inside = match self.sel {
                Some(s) => s.contains(row, col),
                None => false,
            };
            if !inside {
                self.sel = Some(CellSel::single(row, col));
            }
        }
    }

    /// Release the drag when the primary button is up.
    pub fn end_drag(&mut self, primary_down: bool)
        ensures
            final(self).sel == old(self).sel,
            final(self).selecting == (old(self).selecting && primary_down),
    {
        if !primary_down {
            self.selecting = false;
        }
    }
}

} // verus!
