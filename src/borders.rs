//! The border store: four edges kept as range sets plus whole-line overrides,
//! and the structural edits that open or close a row or column in it.
use vstd::prelude::*;
use crate::axis::{SparseAxis, shifted_left, shifted_right, has_key_from, keys_below};
use crate::runs::{RunLine, painted, holds_cell, lemma_cells_contains};
use crate::style::{BorderStyle, BorderStyleCell, BorderStyleCellUpdate};
use crate::ops::{Operation, Rect, Selection, SheetId};
use crate::span::{spans, range_set, widen};
use crate::axis::opt_at;

verus! {

/// Every line stored in `a` is well formed.
pub open spec fn lines_wf(a: SparseAxis<RunLine>) -> bool {
    &&& a.wf()
    &&& forall|k: int| #[trigger] a@.contains_key(k) ==> a@[k].wf()
}

/// Every line of `a` holds cells strictly below `bound`.
pub open spec fn lines_below(a: SparseAxis<RunLine>, bound: int) -> bool {
    forall|k: int| #[trigger] a@.contains_key(k) ==> keys_below(a@[k]@, bound)
}

/// Some line of `a` holds a cell at or above `at`.
pub open spec fn lines_reach(a: SparseAxis<RunLine>, at: int) -> bool {
    exists|k: int| #[trigger] a@.contains_key(k) && has_key_from(a@[k]@, at)
}

/// `a` and `b` have the same lines, and each line of `b` is the matching line
/// of `a` with a cell opened at `at`.
pub open spec fn lines_shifted_right(a: Map<int, RunLine>, b: Map<int, RunLine>, at: int) -> bool {
    &&& b.dom() == a.dom()
    &&& forall|k: int| #[trigger] b.contains_key(k) ==> b[k]@ == shifted_right(a[k]@, at)
}

/// `a` and `b` have the same lines, and each line of `b` is the matching line
/// of `a` with the cell at `at` closed.
pub open spec fn lines_shifted_left(a: Map<int, RunLine>, b: Map<int, RunLine>, at: int) -> bool {
    &&& b.dom() == a.dom()
    &&& forall|k: int| #[trigger] b.contains_key(k) ==> b[k]@ == shifted_left(a[k]@, at)
}

/// Whether some line of `axis` reaches `at`: with its end included when
/// `to_end` is set (what opening a cell touches), else from `at` on.
fn any_line_reaches(axis: &SparseAxis<RunLine>, at: i64, to_end: bool) -> (r: bool)
    requires
        lines_wf(*axis),
    ensures
        r == lines_reach(*axis, if to_end { at - 1 } else { at as int }),
{
    let q: Ghost<int> = Ghost(if to_end { at - 1 } else { at as int });
    let mut i: usize = 0;
    while i < axis.keys.len()
        invariant
            lines_wf(*axis),
            q@ == if to_end { at - 1 } else { at as int },
            i <= axis.keys@.len(),
            forall|j: int| 0 <= j < i ==> !has_key_from((#[trigger] axis.vals@[j])@, q@),
        decreases axis.keys@.len() - i,
    {
        proof {
            axis.lemma_entry(i as int);
        }
        let hit = if to_end {
            axis.vals[i].reaches_to(at)
        } else {
            axis.vals[i].reaches_from(at)
        };
        if hit {
            return true;
        }
        i = i + 1;
    }
    proof {
        if lines_reach(*axis, q@) {
            let k = choose|k: int| #[trigger] axis@.contains_key(k) && has_key_from(axis@[k]@, q@);
            let j = axis.index_of(k);
        }
    }
    false
}

/// Opens cell `at` in every line of `axis`.
fn shift_lines_right(axis: &mut SparseAxis<RunLine>, at: i64) -> (r: bool)
    requires
        lines_wf(*old(axis)),
        lines_below(*old(axis), i64::MAX - 1),
    ensures
        lines_wf(*final(axis)),
        final(axis).keys@ == old(axis).keys@,
        lines_shifted_right(old(axis)@, final(axis)@, at as int),
        r == lines_reach(*old(axis), at - 1),
        !r ==> *final(axis) == *old(axis),
{
    let ghost pre = *axis;
    let n = axis.keys.len();
    if !any_line_reaches(axis, at, true) {
        proof {
            assert forall|k: int| #[trigger] pre@.contains_key(k) implies pre@[k]@ == shifted_right(pre@[k]@, at as int) by {
                assert(!has_key_from(pre@[k]@, at - 1));
                assert(pre@[k]@ =~= shifted_right(pre@[k]@, at as int));
            }
        }
        return false;
    }
    let mut changed = false;
    let mut i: usize = 0;
    while i < n
        invariant
            pre.wf(),
            lines_wf(pre),
            lines_below(pre, i64::MAX - 1),
            n == pre.keys@.len(),
            axis.keys@ == pre.keys@,
            axis.vals@.len() == n,
            i <= n,
            forall|j: int| 0 <= j < i ==> (#[trigger] axis.vals@[j]).wf() && axis.vals@[j]@
                == shifted_right(pre.vals@[j]@, at as int),
            forall|j: int| i <= j < n ==> #[trigger] axis.vals@[j] == pre.vals@[j],
            changed == exists|j: int| 0 <= j < i && has_key_from(#[trigger] pre.vals@[j]@, at - 1),
        decreases n - i,
    {
        proof {
            pre.lemma_entry(i as int);
        }
        let moved = axis.vals[i].insert_and_shift_right(at);
        if moved {
            changed = true;
        }
        i = i + 1;
    }
    proof {
        assert forall|k: int| #[trigger] axis@.contains_key(k) implies axis@[k].wf() && axis@[k]@
            == shifted_right(pre@[k]@, at as int) && pre@.contains_key(k) by {
            let j = axis.index_of(k);
            axis.lemma_entry(j);
            pre.lemma_entry(j);
        }
        assert forall|k: int| #[trigger] pre@.contains_key(k) implies axis@.contains_key(k) by {
            let j = pre.index_of(k);
            axis.lemma_entry(j);
        }
        assert(axis@.dom() =~= pre@.dom());
        if changed {
            let j = choose|j: int| 0 <= j < n && has_key_from(#[trigger] pre.vals@[j]@, at - 1);
            pre.lemma_entry(j);
        }
        if lines_reach(pre, at - 1) {
            let k = choose|k: int| #[trigger] pre@.contains_key(k) && has_key_from(pre@[k]@, at - 1);
            let j = pre.index_of(k);
        }
    }
    changed
}

/// Closes cell `at` in every line of `axis`.
fn shift_lines_left(axis: &mut SparseAxis<RunLine>, at: i64) -> (r: bool)
    requires
        lines_wf(*old(axis)),
    ensures
        lines_wf(*final(axis)),
        final(axis).keys@ == old(axis).keys@,
        lines_shifted_left(old(axis)@, final(axis)@, at as int),
        r == lines_reach(*old(axis), at as int),
        !r ==> *final(axis) == *old(axis),
{
    let ghost pre = *axis;
    let n = axis.keys.len();
    if !any_line_reaches(axis, at, false) {
        proof {
            assert forall|k: int| #[trigger] pre@.contains_key(k) implies pre@[k]@ == shifted_left(pre@[k]@, at as int) by {
                assert(!has_key_from(pre@[k]@, at as int));
                assert(pre@[k]@ =~= shifted_left(pre@[k]@, at as int));
            }
        }
        return false;
    }
    let mut changed = false;
    let mut i: usize = 0;
    while i < n
        invariant
            pre.wf(),
            lines_wf(pre),
            n == pre.keys@.len(),
            axis.keys@ == pre.keys@,
            axis.vals@.len() == n,
            i <= n,
            forall|j: int| 0 <= j < i ==> (#[trigger] axis.vals@[j]).wf() && axis.vals@[j]@
                == shifted_left(pre.vals@[j]@, at as int),
            forall|j: int| i <= j < n ==> #[trigger] axis.vals@[j] == pre.vals@[j],
            changed == exists|j: int| 0 <= j < i && has_key_from(#[trigger] pre.vals@[j]@, at as int),
        decreases n - i,
    {
        proof {
            pre.lemma_entry(i as int);
        }
        let moved = axis.vals[i].remove_and_shift_left(at);
        if moved {
            changed = true;
        }
        i = i + 1;
    }
    proof {
        assert forall|k: int| #[trigger] axis@.contains_key(k) implies axis@[k].wf() && axis@[k]@
            == shifted_left(pre@[k]@, at as int) && pre@.contains_key(k) by {
            let j = axis.index_of(k);
            axis.lemma_entry(j);
            pre.lemma_entry(j);
        }
        assert forall|k: int| #[trigger] pre@.contains_key(k) implies axis@.contains_key(k) by {
            let j = pre.index_of(k);
            axis.lemma_entry(j);
        }
        assert(axis@.dom() =~= pre@.dom());
        if changed {
            let j = choose|j: int| 0 <= j < n && has_key_from(#[trigger] pre.vals@[j]@, at as int);
            pre.lemma_entry(j);
        }
        if lines_reach(pre, at as int) {
            let k = choose|k: int| #[trigger] pre@.contains_key(k) && has_key_from(pre@[k]@, at as int);
            let j = pre.index_of(k);
        }
    }
    changed
}

/// Cells of an edge whose lines are keyed by row: `(x, y)` is held when line
/// `y` holds cell `x`.
pub open spec fn by_row(a: Map<int, RunLine>) -> Map<(int, int), BorderStyle> {
    Map::new(
        |c: (int, int)| a.contains_key(c.1) && a[c.1]@.contains_key(c.0),
        |c: (int, int)| a[c.1]@[c.0],
    )
}

/// Cells of an edge whose lines are keyed by column: `(x, y)` is held when
/// line `x` holds cell `y`.
pub open spec fn by_col(a: Map<int, RunLine>) -> Map<(int, int), BorderStyle> {
    Map::new(
        |c: (int, int)| a.contains_key(c.0) && a[c.0]@.contains_key(c.1),
        |c: (int, int)| a[c.0]@[c.1],
    )
}

/// The grid after a column is opened at `at`.
pub open spec fn cols_right<V>(m: Map<(int, int), V>, at: int) -> Map<(int, int), V> {
    Map::new(
        |c: (int, int)|
            if c.0 < at {
                m.contains_key(c)
            } else if c.0 == at {
                false
            } else {
                m.contains_key((c.0 - 1, c.1))
            },
        |c: (int, int)|
            if c.0 < at {
                m[c]
            } else {
                m[(c.0 - 1, c.1)]
            },
    )
}

/// The grid after the column at `at` is closed.
pub open spec fn cols_left<V>(m: Map<(int, int), V>, at: int) -> Map<(int, int), V> {
    Map::new(
        |c: (int, int)|
            if c.0 < at {
                m.contains_key(c)
            } else {
                m.contains_key((c.0 + 1, c.1))
            },
        |c: (int, int)|
            if c.0 < at {
                m[c]
            } else {
                m[(c.0 + 1, c.1)]
            },
    )
}

/// The grid after a row is opened at `at`.
pub open spec fn rows_right<V>(m: Map<(int, int), V>, at: int) -> Map<(int, int), V> {
    Map::new(
        |c: (int, int)|
            if c.1 < at {
                m.contains_key(c)
            } else if c.1 == at {
                false
            } else {
                m.contains_key((c.0, c.1 - 1))
            },
        |c: (int, int)|
            if c.1 < at {
                m[c]
            } else {
                m[(c.0, c.1 - 1)]
            },
    )
}

/// The grid after the row at `at` is closed.
pub open spec fn rows_left<V>(m: Map<(int, int), V>, at: int) -> Map<(int, int), V> {
    Map::new(
        |c: (int, int)|
            if c.1 < at {
                m.contains_key(c)
            } else {
                m.contains_key((c.0, c.1 + 1))
            },
        |c: (int, int)|
            if c.1 < at {
                m[c]
            } else {
                m[(c.0, c.1 + 1)]
            },
    )
}

proof fn lemma_by_col_keys_right(a: Map<int, RunLine>, at: int)
    ensures
        by_col(shifted_right(a, at)) == cols_right(by_col(a), at),
{
    assert(by_col(shifted_right(a, at)) =~= cols_right(by_col(a), at));
}

proof fn lemma_by_col_keys_left(a: Map<int, RunLine>, at: int)
    ensures
        by_col(shifted_left(a, at)) == cols_left(by_col(a), at),
{
    assert(by_col(shifted_left(a, at)) =~= cols_left(by_col(a), at));
}

proof fn lemma_by_row_keys_right(a: Map<int, RunLine>, at: int)
    ensures
        by_row(shifted_right(a, at)) == rows_right(by_row(a), at),
{
    assert(by_row(shifted_right(a, at)) =~= rows_right(by_row(a), at));
}

proof fn lemma_by_row_keys_left(a: Map<int, RunLine>, at: int)
    ensures
        by_row(shifted_left(a, at)) == rows_left(by_row(a), at),
{
    assert(by_row(shifted_left(a, at)) =~= rows_left(by_row(a), at));
}

proof fn lemma_by_row_lines_right(a: Map<int, RunLine>, b: Map<int, RunLine>, at: int)
    requires
        lines_shifted_right(a, b, at),
    ensures
        by_row(b) == cols_right(by_row(a), at),
{
    assert forall|c: (int, int)| #[trigger] by_row(b).contains_key(c) == cols_right(by_row(a), at).contains_key(c) by {
        if a.contains_key(c.1) {
            assert(b.contains_key(c.1));
        }
    }
    assert(by_row(b) =~= cols_right(by_row(a), at));
}

proof fn lemma_by_row_lines_left(a: Map<int, RunLine>, b: Map<int, RunLine>, at: int)
    requires
        lines_shifted_left(a, b, at),
    ensures
        by_row(b) == cols_left(by_row(a), at),
{
    assert forall|c: (int, int)| #[trigger] by_row(b).contains_key(c) == cols_left(by_row(a), at).contains_key(c) by {
        if a.contains_key(c.1) {
            assert(b.contains_key(c.1));
        }
    }
    assert(by_row(b) =~= cols_left(by_row(a), at));
}

proof fn lemma_by_col_lines_right(a: Map<int, RunLine>, b: Map<int, RunLine>, at: int)
    requires
        lines_shifted_right(a, b, at),
    ensures
        by_col(b) == rows_right(by_col(a), at),
{
    assert forall|c: (int, int)| #[trigger] by_col(b).contains_key(c) == rows_right(by_col(a), at).contains_key(c) by {
        if a.contains_key(c.0) {
            assert(b.contains_key(c.0));
        }
    }
    assert(by_col(b) =~= rows_right(by_col(a), at));
}

proof fn lemma_by_col_lines_left(a: Map<int, RunLine>, b: Map<int, RunLine>, at: int)
    requires
        lines_shifted_left(a, b, at),
    ensures
        by_col(b) == rows_left(by_col(a), at),
{
    assert forall|c: (int, int)| #[trigger] by_col(b).contains_key(c) == rows_left(by_col(a), at).contains_key(c) by {
        if a.contains_key(c.0) {
            assert(b.contains_key(c.0));
        }
    }
    assert(by_col(b) =~= rows_left(by_col(a), at));
}

/// Borders of a sheet. `top` and `bottom` hold one line per row, whose runs
/// run along the columns; `left` and `right` hold one line per column, whose
/// runs run along the rows. `columns` and `rows` hold whole-line overrides.
#[derive(Debug, PartialEq, Eq)]
pub struct Borders {
    pub top: SparseAxis<RunLine>,
    pub bottom: SparseAxis<RunLine>,
    pub left: SparseAxis<RunLine>,
    pub right: SparseAxis<RunLine>,
    pub columns: SparseAxis<BorderStyleCell>,
    pub rows: SparseAxis<BorderStyleCell>,
}

impl Borders {
    pub open spec fn wf(&self) -> bool {
        &&& lines_wf(self.top)
        &&& lines_wf(self.bottom)
        &&& lines_wf(self.left)
        &&& lines_wf(self.right)
        &&& self.columns.wf()
        &&& self.rows.wf()
    }

    /// Cells with a top border, keyed `(x, y)`.
    pub open spec fn top_cells(&self) -> Map<(int, int), BorderStyle> {
        by_row(self.top@)
    }

    pub open spec fn bottom_cells(&self) -> Map<(int, int), BorderStyle> {
        by_row(self.bottom@)
    }

    pub open spec fn left_cells(&self) -> Map<(int, int), BorderStyle> {
        by_col(self.left@)
    }

    pub open spec fn right_cells(&self) -> Map<(int, int), BorderStyle> {
        by_col(self.right@)
    }

    /// Opening a column needs every coordinate along x to have room to move up.
    pub open spec fn room_for_column(&self) -> bool {
        &&& keys_below(self.left@, i64::MAX as int)
        &&& keys_below(self.right@, i64::MAX as int)
        &&& keys_below(self.columns@, i64::MAX as int)
        &&& lines_below(self.top, i64::MAX - 1)
        &&& lines_below(self.bottom, i64::MAX - 1)
    }

    /// Opening a row needs every coordinate along y to have room to move up.
    pub open spec fn room_for_row(&self) -> bool {
        &&& keys_below(self.top@, i64::MAX as int)
        &&& keys_below(self.bottom@, i64::MAX as int)
        &&& keys_below(self.rows@, i64::MAX as int)
        &&& lines_below(self.left, i64::MAX - 1)
        &&& lines_below(self.right, i64::MAX - 1)
    }

    /// What opening column `c` touches: a stored column at or beyond `c`, or
    /// a run that reaches `c`, its end included.
    pub open spec fn column_insert_touches(&self, c: int) -> bool {
        has_key_from(self.left@, c) || has_key_from(self.right@, c) || lines_reach(self.top, c - 1)
            || lines_reach(self.bottom, c - 1) || has_key_from(self.columns@, c)
    }

    pub open spec fn row_insert_touches(&self, r: int) -> bool {
        has_key_from(self.top@, r) || has_key_from(self.bottom@, r) || lines_reach(self.left, r - 1)
            || lines_reach(self.right, r - 1) || has_key_from(self.rows@, r)
    }

    /// What closing column `c` touches: anything stored at or beyond `c`.
    pub open spec fn column_remove_touches(&self, c: int) -> bool {
        has_key_from(self.left@, c) || has_key_from(self.right@, c) || lines_reach(self.top, c)
            || lines_reach(self.bottom, c) || has_key_from(self.columns@, c)
    }

    pub open spec fn row_remove_touches(&self, r: int) -> bool {
        has_key_from(self.top@, r) || has_key_from(self.bottom@, r) || lines_reach(self.left, r)
            || lines_reach(self.right, r) || has_key_from(self.rows@, r)
    }

    pub fn new() -> (r: Self)
        ensures
            r.wf(),
            r.top@ == Map::<int, RunLine>::empty(),
            r.bottom@ == Map::<int, RunLine>::empty(),
            r.left@ == Map::<int, RunLine>::empty(),
            r.right@ == Map::<int, RunLine>::empty(),
            r.columns@ == Map::<int, BorderStyleCell>::empty(),
            r.rows@ == Map::<int, BorderStyleCell>::empty(),
    {
        Borders {
            top: SparseAxis::new(),
            bottom: SparseAxis::new(),
            left: SparseAxis::new(),
            right: SparseAxis::new(),
            columns: SparseAxis::new(),
            rows: SparseAxis::new(),
        }
    }

    /// Inserts a new column at `column`: every border at or right of it moves
    /// one column right, and runs across it are split around the new column.
    /// Returns true if borders were changed.
    pub fn insert_column(&mut self, column: i64) -> (r: bool)
        requires
            old(self).wf(),
            old(self).room_for_column(),
        ensures
            final(self).wf(),
            final(self).top_cells() == cols_right(old(self).top_cells(), column as int),
            final(self).bottom_cells() == cols_right(old(self).bottom_cells(), column as int),
            final(self).left_cells() == cols_right(old(self).left_cells(), column as int),
            final(self).right_cells() == cols_right(old(self).right_cells(), column as int),
            final(self).columns@ == shifted_right(old(self).columns@, column as int),
            final(self).rows@ == old(self).rows@,
            final(self).top@.dom() == old(self).top@.dom(),
            final(self).bottom@.dom() == old(self).bottom@.dom(),
            r == old(self).column_insert_touches(column as int),
            !r ==> *final(self) == *old(self),
    {
        let ghost pre = *self;
        let a = self.left.insert_and_shift_right(column);
        let b = self.right.insert_and_shift_right(column);
        let c = shift_lines_right(&mut self.top, column);
        let d = shift_lines_right(&mut self.bottom, column);
        let e = self.columns.insert_and_shift_right(column);
        proof {
            lemma_by_col_keys_right(pre.left@, column as int);
            lemma_by_col_keys_right(pre.right@, column as int);
            lemma_by_row_lines_right(pre.top@, self.top@, column as int);
            lemma_by_row_lines_right(pre.bottom@, self.bottom@, column as int);
        }
        a || b || c || d || e
    }

    /// Inserts a new row at `row`: every border at or below it moves one row
    /// down, and runs across it are split around the new row.
    /// Returns true if borders were changed.
    pub fn insert_row(&mut self, row: i64) -> (r: bool)
        requires
            old(self).wf(),
            old(self).room_for_row(),
        ensures
            final(self).wf(),
            final(self).top_cells() == rows_right(old(self).top_cells(), row as int),
            final(self).bottom_cells() == rows_right(old(self).bottom_cells(), row as int),
            final(self).left_cells() == rows_right(old(self).left_cells(), row as int),
            final(self).right_cells() == rows_right(old(self).right_cells(), row as int),
            final(self).rows@ == shifted_right(old(self).rows@, row as int),
            final(self).columns@ == old(self).columns@,
            final(self).left@.dom() == old(self).left@.dom(),
            final(self).right@.dom() == old(self).right@.dom(),
            r == old(self).row_insert_touches(row as int),
            !r ==> *final(self) == *old(self),
    {
        let ghost pre = *self;
        let a = self.top.insert_and_shift_right(row);
        let b = self.bottom.insert_and_shift_right(row);
        let c = shift_lines_right(&mut self.left, row);
        let d = shift_lines_right(&mut self.right, row);
        let e = self.rows.insert_and_shift_right(row);
        proof {
            lemma_by_row_keys_right(pre.top@, row as int);
            lemma_by_row_keys_right(pre.bottom@, row as int);
            lemma_by_col_lines_right(pre.left@, self.left@, row as int);
            lemma_by_col_lines_right(pre.right@, self.right@, row as int);
        }
        a || b || c || d || e
    }

    /// Removes the column at `column`: its borders are dropped and every
    /// border right of it moves one column left.
    /// Returns true if borders were changed.
    pub fn remove_column(&mut self, column: i64) -> (r: bool)
        requires
            old(self).wf(),
        ensures
            final(self).wf(),
            final(self).top_cells() == cols_left(old(self).top_cells(), column as int),
            final(self).bottom_cells() == cols_left(old(self).bottom_cells(), column as int),
            final(self).left_cells() == cols_left(old(self).left_cells(), column as int),
            final(self).right_cells() == cols_left(old(self).right_cells(), column as int),
            final(self).columns@ == shifted_left(old(self).columns@, column as int),
            final(self).rows@ == old(self).rows@,
            final(self).top@.dom() == old(self).top@.dom(),
            final(self).bottom@.dom() == old(self).bottom@.dom(),
            r == old(self).column_remove_touches(column as int),
            !r ==> *final(self) == *old(self),
    {
        let ghost pre = *self;
        let a = self.left.remove_and_shift_left(column);
        let b = self.right.remove_and_shift_left(column);
        let c = shift_lines_left(&mut self.top, column);
        let d = shift_lines_left(&mut self.bottom, column);
        let e = self.columns.remove_and_shift_left(column);
        proof {
            lemma_by_col_keys_left(pre.left@, column as int);
            lemma_by_col_keys_left(pre.right@, column as int);
            lemma_by_row_lines_left(pre.top@, self.top@, column as int);
            lemma_by_row_lines_left(pre.bottom@, self.bottom@, column as int);
        }
        a || b || c || d || e
    }

    /// Removes the row at `row`: its borders are dropped and every border
    /// below it moves one row up.
    /// Returns true if borders were changed.
    pub fn remove_row(&mut self, row: i64) -> (r: bool)
        requires
            old(self).wf(),
        ensures
            final(self).wf(),
            final(self).top_cells() == rows_left(old(self).top_cells(), row as int),
            final(self).bottom_cells() == rows_left(old(self).bottom_cells(), row as int),
            final(self).left_cells() == rows_left(old(self).left_cells(), row as int),
            final(self).right_cells() == rows_left(old(self).right_cells(), row as int),
            final(self).rows@ == shifted_left(old(self).rows@, row as int),
            final(self).columns@ == old(self).columns@,
            final(self).left@.dom() == old(self).left@.dom(),
            final(self).right@.dom() == old(self).right@.dom(),
            r == old(self).row_remove_touches(row as int),
            !r ==> *final(self) == *old(self),
    {
        let ghost pre = *self;
        let a = self.top.remove_and_shift_left(row);
        let b = self.bottom.remove_and_shift_left(row);
        let c = shift_lines_left(&mut self.left, row);
        let d = shift_lines_left(&mut self.right, row);
        let e = self.rows.remove_and_shift_left(row);
        proof {
            lemma_by_row_keys_left(pre.top@, row as int);
            lemma_by_row_keys_left(pre.bottom@, row as int);
            lemma_by_col_lines_left(pre.left@, self.left@, row as int);
            lemma_by_col_lines_left(pre.right@, self.right@, row as int);
        }
        a || b || c || d || e
    }
}

/// Keys of `a` whose line holds `cell`.
pub open spec fn keys_holding(a: Map<int, RunLine>, cell: int) -> Set<int> {
    Set::new(|k: int| a.contains_key(k) && a[k]@.contains_key(cell))
}

/// Cells held by line `key` of `a`.
pub open spec fn line_cells(a: Map<int, RunLine>, key: int) -> Set<int> {
    Set::new(|c: int| a.contains_key(key) && a[key]@.contains_key(c))
}

/// Widens `sp` over the cells of `line`.
fn widen_line(line: &RunLine, sp: Option<(i64, i64)>, Ghost(s): Ghost<Set<int>>) -> (r: Option<(i64, i64)>)
    requires
        line.wf(),
        spans(sp, s),
    ensures
        spans(r, s.union(line@.dom())),
{
    let mut cur = sp;
    let ghost mut acc = s;
    let mut t: usize = 0;
    while t < line.runs.len()
        invariant
            line.wf(),
            t <= line.runs@.len(),
            spans(cur, acc),
            acc == s.union(Set::new(|y: int| exists|u: int| 0 <= u < t && #[trigger] holds_cell(line.runs@[u], y))),
        decreases line.runs@.len() - t,
    {
        let r = line.runs[t];
        cur = widen(cur, r.start, r.end - 1, Ghost(acc));
        proof {
            let next = s.union(Set::new(|y: int| exists|u: int| 0 <= u < t + 1 && #[trigger] holds_cell(line.runs@[u], y)));
            assert forall|y: int| next.contains(y) == acc.union(range_set(r.start as int, r.end - 1)).contains(y) by {
                if exists|u: int| 0 <= u < t + 1 && #[trigger] holds_cell(line.runs@[u], y) {
                    let u = choose|u: int| 0 <= u < t + 1 && #[trigger] holds_cell(line.runs@[u], y);
                    if u < t {
                        assert(exists|u: int| 0 <= u < t && #[trigger] holds_cell(line.runs@[u], y));
                    }
                }
                if range_set(r.start as int, r.end - 1).contains(y) {
                    assert(holds_cell(line.runs@[t as int], y));
                }
                if exists|u: int| 0 <= u < t && #[trigger] holds_cell(line.runs@[u], y) {
                    let u = choose|u: int| 0 <= u < t && #[trigger] holds_cell(line.runs@[u], y);
                    assert(holds_cell(line.runs@[u], y));
                }
            }
            assert(next =~= acc.union(range_set(r.start as int, r.end - 1)));
            acc = next;
        }
        t = t + 1;
    }
    proof {
        assert forall|y: int| acc.contains(y) == s.union(line@.dom()).contains(y) by {
            lemma_cells_contains(line.runs@, y);
        }
        assert(acc =~= s.union(line@.dom()));
    }
    cur
}

/// Widens `sp` over the keys of `axis` whose line holds `cell`.
fn widen_keys(axis: &SparseAxis<RunLine>, cell: i64, sp: Option<(i64, i64)>, Ghost(s): Ghost<Set<int>>) -> (r: Option<(i64, i64)>)
    requires
        lines_wf(*axis),
        spans(sp, s),
    ensures
        spans(r, s.union(keys_holding(axis@, cell as int))),
{
    let mut cur = sp;
    let ghost mut acc = s;
    let mut i: usize = 0;
    while i < axis.keys.len()
        invariant
            lines_wf(*axis),
            i <= axis.keys@.len(),
            spans(cur, acc),
            acc == s.union(Set::new(|k: int| exists|j: int| 0 <= j < i && axis.keys@[j] == k && (#[trigger] axis.vals@[j])@.contains_key(cell as int))),
        decreases axis.keys@.len() - i,
    {
        proof {
            axis.lemma_entry(i as int);
        }
        let k = axis.keys[i];
        let held = axis.vals[i].get(cell).is_some();
        let ghost before = acc;
        if held {
            cur = widen(cur, k, k, Ghost(acc));
            proof {
                acc = acc.union(range_set(k as int, k as int));
            }
        }
        proof {
            let next = s.union(Set::new(|q: int| exists|j: int| 0 <= j < i + 1 && axis.keys@[j] == q && (#[trigger] axis.vals@[j])@.contains_key(cell as int)));
            assert forall|q: int| next.contains(q) == acc.contains(q) by {
                if exists|j: int| 0 <= j < i + 1 && axis.keys@[j] == q && (#[trigger] axis.vals@[j])@.contains_key(cell as int) {
                    let j = choose|j: int| 0 <= j < i + 1 && axis.keys@[j] == q && (#[trigger] axis.vals@[j])@.contains_key(cell as int);
                    if j < i {
                        assert(axis.vals@[j]@.contains_key(cell as int));
                    }
                }
                if before.contains(q) && !s.contains(q) {
                    let j = choose|j: int| 0 <= j < i && axis.keys@[j] == q && (#[trigger] axis.vals@[j])@.contains_key(cell as int);
                    assert(axis.vals@[j]@.contains_key(cell as int));
                }
                if held && q == k {
                    assert(axis.vals@[i as int]@.contains_key(cell as int));
                }
            }
            assert(next =~= acc);
        }
        i = i + 1;
    }
    proof {
        assert forall|q: int| acc.contains(q) == s.union(keys_holding(axis@, cell as int)).contains(q) by {
            if axis@.contains_key(q) {
                let j = axis.index_of(q);
                axis.lemma_entry(j);
                if axis@[q]@.contains_key(cell as int) {
                    assert(axis.vals@[j]@.contains_key(cell as int));
                }
            }
            if exists|j: int| 0 <= j < axis.keys@.len() && axis.keys@[j] == q && (#[trigger] axis.vals@[j])@.contains_key(cell as int) {
                let j = choose|j: int| 0 <= j < axis.keys@.len() && axis.keys@[j] == q && (#[trigger] axis.vals@[j])@.contains_key(cell as int);
                axis.lemma_entry(j);
            }
        }
        assert(acc =~= s.union(keys_holding(axis@, cell as int)));
    }
    cur
}

/// The style at cell `cell` of line `key`, if any.
fn line_get(axis: &SparseAxis<RunLine>, key: i64, cell: i64) -> (r: Option<BorderStyle>)
    requires
        lines_wf(*axis),
    ensures
        r == (if axis@.contains_key(key as int) && axis@[key as int]@.contains_key(cell as int) {
            Some(axis@[key as int]@[cell as int])
        } else {
            None
        }),
{
    match axis.get(key) {
        Some(line) => line.get(cell),
        None => None,
    }
}

/// The view of line `key` of `a`, empty where there is none.
pub open spec fn line_view(a: Map<int, RunLine>, key: int) -> Map<int, BorderStyle> {
    if a.contains_key(key) {
        a[key]@
    } else {
        Map::empty()
    }
}

/// Sets cells `a..b` of line `key` to `style`, making the line if needed.
fn paint_line(axis: &mut SparseAxis<RunLine>, key: i64, a: i64, b: i64, style: Option<BorderStyle>)
    requires
        lines_wf(*old(axis)),
        a <= b,
    ensures
        lines_wf(*final(axis)),
        final(axis)@.dom() == old(axis)@.dom().insert(key as int),
        forall|k: int| k != key && #[trigger] old(axis)@.contains_key(k) ==> final(axis)@[k] == old(axis)@[k],
        final(axis)@[key as int]@ == painted(line_view(old(axis)@, key as int), a as int, b as int, style),
{
    let ghost pre = *axis;
    let mut line = match axis.remove(key) {
        Some(l) => l,
        None => RunLine::new(),
    };
    line.set_range(a, b, style);
    axis.set(key, line);
    proof {
        assert(axis@.dom() =~= pre@.dom().insert(key as int));
    }
}

/// `m` with the cells of the rectangle `x0..=x1` by `y0..=y1` set to `s`, or
/// cleared where `s` is `None`.
pub open spec fn filled<V>(m: Map<(int, int), V>, x0: int, y0: int, x1: int, y1: int, s: Option<V>) -> Map<(int, int), V> {
    Map::new(
        |c: (int, int)|
            if x0 <= c.0 <= x1 && y0 <= c.1 <= y1 {
                s.is_some()
            } else {
                m.contains_key(c)
            },
        |c: (int, int)|
            if x0 <= c.0 <= x1 && y0 <= c.1 <= y1 {
                s.unwrap()
            } else {
                m[c]
            },
    )
}

/// Paints cells `a..=b` of each line `k0..=k1` of `axis`.
fn paint_lines(axis: &mut SparseAxis<RunLine>, k0: i64, k1: i64, a: i64, b: i64, style: Option<BorderStyle>)
    requires
        lines_wf(*old(axis)),
        k0 <= k1,
        a <= b < i64::MAX,
    ensures
        lines_wf(*final(axis)),
        final(axis)@.dom() == old(axis)@.dom().union(range_set(k0 as int, k1 as int)),
        by_row(final(axis)@) == filled(by_row(old(axis)@), a as int, k0 as int, b as int, k1 as int, style),
        by_col(final(axis)@) == filled(by_col(old(axis)@), k0 as int, a as int, k1 as int, b as int, style),
{
    let ghost pre = *axis;
    let mut k = k0;
    proof {
        assert(filled(by_row(pre@), a as int, k0 as int, b as int, k0 - 1, style) =~= by_row(pre@));
        assert(filled(by_col(pre@), k0 as int, a as int, k0 - 1, b as int, style) =~= by_col(pre@));
        assert(pre@.dom().union(range_set(k0 as int, k0 - 1)) =~= pre@.dom());
    }
    loop
        invariant_except_break
            axis@.dom() == pre@.dom().union(range_set(k0 as int, k - 1)),
            by_row(axis@) == filled(by_row(pre@), a as int, k0 as int, b as int, k - 1, style),
            by_col(axis@) == filled(by_col(pre@), k0 as int, a as int, k - 1, b as int, style),
        invariant
            lines_wf(*axis),
            k0 <= k <= k1,
            a <= b < i64::MAX,
        ensures
            lines_wf(*axis),
            axis@.dom() == pre@.dom().union(range_set(k0 as int, k1 as int)),
            by_row(axis@) == filled(by_row(pre@), a as int, k0 as int, b as int, k1 as int, style),
            by_col(axis@) == filled(by_col(pre@), k0 as int, a as int, k1 as int, b as int, style),
        decreases k1 - k,
    {
        let ghost before = *axis;
        paint_line(axis, k, a, b + 1, style);
        proof {
            assert(axis@.dom() =~= pre@.dom().union(range_set(k0 as int, k as int)));
            let want_r = filled(by_row(pre@), a as int, k0 as int, b as int, k as int, style);
            let want_c = filled(by_col(pre@), k0 as int, a as int, k as int, b as int, style);
            assert forall|c: (int, int)| #[trigger] by_row(axis@).contains_key(c) == want_r.contains_key(c)
                && (by_row(axis@).contains_key(c) ==> by_row(axis@)[c] == want_r[c]) by {
                if c.1 != k {
                    assert(by_row(before@).contains_key(c) == by_row(axis@).contains_key(c));
                    if by_row(axis@).contains_key(c) {
                        assert(by_row(before@)[c] == by_row(axis@)[c]);
                    }
                } else {
                    assert(by_row(before@).contains_key(c) == line_view(before@, k as int).contains_key(c.0));
                    if by_row(before@).contains_key(c) {
                        assert(by_row(before@)[c] == line_view(before@, k as int)[c.0]);
                    }
                }
            }
            assert forall|c: (int, int)| #[trigger] by_col(axis@).contains_key(c) == want_c.contains_key(c)
                && (by_col(axis@).contains_key(c) ==> by_col(axis@)[c] == want_c[c]) by {
                if c.0 != k {
                    assert(by_col(before@).contains_key(c) == by_col(axis@).contains_key(c));
                    if by_col(axis@).contains_key(c) {
                        assert(by_col(before@)[c] == by_col(axis@)[c]);
                    }
                } else {
                    assert(by_col(before@).contains_key(c) == line_view(before@, k as int).contains_key(c.1));
                    if by_col(before@).contains_key(c) {
                        assert(by_col(before@)[c] == line_view(before@, k as int)[c.1]);
                    }
                }
            }
            assert(by_row(axis@) =~= want_r);
            assert(by_col(axis@) =~= want_c);
        }
        if k == k1 {
            break;
        }
        k = k + 1;
    }
}

impl Borders {
    /// The four edges of cell `(x, y)`.
    pub open spec fn cell_spec(&self, x: int, y: int) -> BorderStyleCell {
        BorderStyleCell {
            top: opt_at(self.top_cells(), (x, y)),
            bottom: opt_at(self.bottom_cells(), (x, y)),
            left: opt_at(self.left_cells(), (x, y)),
            right: opt_at(self.right_cells(), (x, y)),
        }
    }

    pub fn get(&self, x: i64, y: i64) -> (r: BorderStyleCell)
        requires
            self.wf(),
        ensures
            r == self.cell_spec(x as int, y as int),
    {
        BorderStyleCell {
            top: line_get(&self.top, y, x),
            bottom: line_get(&self.bottom, y, x),
            left: line_get(&self.left, x, y),
            right: line_get(&self.right, x, y),
        }
    }

    /// Sets the four edges of the cells of `rect` to `style`, or clears them
    /// where `style` is `None`.
    pub fn set_rect_borders(&mut self, rect: Rect, style: Option<BorderStyle>)
        requires
            old(self).wf(),
            rect.min.x <= rect.max.x < i64::MAX,
            rect.min.y <= rect.max.y < i64::MAX,
        ensures
            final(self).wf(),
            final(self).top_cells() == filled(old(self).top_cells(), rect.min.x as int, rect.min.y as int, rect.max.x as int, rect.max.y as int, style),
            final(self).bottom_cells() == filled(old(self).bottom_cells(), rect.min.x as int, rect.min.y as int, rect.max.x as int, rect.max.y as int, style),
            final(self).left_cells() == filled(old(self).left_cells(), rect.min.x as int, rect.min.y as int, rect.max.x as int, rect.max.y as int, style),
            final(self).right_cells() == filled(old(self).right_cells(), rect.min.x as int, rect.min.y as int, rect.max.x as int, rect.max.y as int, style),
            final(self).columns@ == old(self).columns@,
            final(self).rows@ == old(self).rows@,
            final(self).top@.dom() == old(self).top@.dom().union(range_set(rect.min.y as int, rect.max.y as int)),
            final(self).bottom@.dom() == old(self).bottom@.dom().union(range_set(rect.min.y as int, rect.max.y as int)),
            final(self).left@.dom() == old(self).left@.dom().union(range_set(rect.min.x as int, rect.max.x as int)),
            final(self).right@.dom() == old(self).right@.dom().union(range_set(rect.min.x as int, rect.max.x as int)),
    {
        paint_lines(&mut self.top, rect.min.y, rect.max.y, rect.min.x, rect.max.x, style);
        paint_lines(&mut self.bottom, rect.min.y, rect.max.y, rect.min.x, rect.max.x, style);
        paint_lines(&mut self.left, rect.min.x, rect.max.x, rect.min.y, rect.max.y, style);
        paint_lines(&mut self.right, rect.min.x, rect.max.x, rect.min.y, rect.max.y, style);
    }

    /// Sets the four edges of cell `(x, y)`; `None` clears an edge.
    pub fn set(
        &mut self,
        x: i64,
        y: i64,
        top: Option<BorderStyle>,
        bottom: Option<BorderStyle>,
        left: Option<BorderStyle>,
        right: Option<BorderStyle>,
    )
        requires
            old(self).wf(),
            x < i64::MAX,
            y < i64::MAX,
        ensures
            final(self).wf(),
            final(self).top_cells() == filled(old(self).top_cells(), x as int, y as int, x as int, y as int, top),
            final(self).bottom_cells() == filled(old(self).bottom_cells(), x as int, y as int, x as int, y as int, bottom),
            final(self).left_cells() == filled(old(self).left_cells(), x as int, y as int, x as int, y as int, left),
            final(self).right_cells() == filled(old(self).right_cells(), x as int, y as int, x as int, y as int, right),
            final(self).columns@ == old(self).columns@,
            final(self).rows@ == old(self).rows@,
            final(self).top@.dom() == old(self).top@.dom().insert(y as int),
            final(self).bottom@.dom() == old(self).bottom@.dom().insert(y as int),
            final(self).left@.dom() == old(self).left@.dom().insert(x as int),
            final(self).right@.dom() == old(self).right@.dom().insert(x as int),
    {
        paint_lines(&mut self.top, y, y, x, x, top);
        paint_lines(&mut self.bottom, y, y, x, x, bottom);
        paint_lines(&mut self.left, x, x, y, y, left);
        paint_lines(&mut self.right, x, x, y, y, right);
        proof {
            assert(range_set(x as int, x as int) =~= set![x as int]);
            assert(range_set(y as int, y as int) =~= set![y as int]);
            assert(old(self).top@.dom().insert(y as int) =~= old(self).top@.dom().union(set![y as int]));
            assert(old(self).bottom@.dom().insert(y as int) =~= old(self).bottom@.dom().union(set![y as int]));
            assert(old(self).left@.dom().insert(x as int) =~= old(self).left@.dom().union(set![x as int]));
            assert(old(self).right@.dom().insert(x as int) =~= old(self).right@.dom().union(set![x as int]));
        }
    }
}

/// One override per cell of a whole-line entry, when `m` has one at `k`.
pub open spec fn override_prefix(m: Map<int, BorderStyleCell>, k: int) -> Seq<BorderStyleCellUpdate> {
    if m.contains_key(k) {
        seq![m[k].override_spec()]
    } else {
        Seq::empty()
    }
}

impl Borders {
    /// Rows at which column `x` has some border.
    pub open spec fn column_rows(&self, x: int) -> Set<int> {
        keys_holding(self.top@, x).union(keys_holding(self.bottom@, x)).union(
            line_cells(self.left@, x),
        ).union(line_cells(self.right@, x))
    }

    /// Columns at which row `y` has some border.
    pub open spec fn row_columns(&self, y: int) -> Set<int> {
        line_cells(self.top@, y).union(line_cells(self.bottom@, y)).union(
            keys_holding(self.left@, y),
        ).union(keys_holding(self.right@, y))
    }

    /// The cell at position `i` along a line: `(fixed, i)` down a column, or
    /// `(i, fixed)` along a row.
    pub open spec fn line_cell(&self, fixed: int, i: int, down: bool) -> BorderStyleCell {
        if down {
            self.cell_spec(fixed, i)
        } else {
            self.cell_spec(i, fixed)
        }
    }

    /// Overrides for the cells `lo..=hi` of a line.
    pub open spec fn line_updates(&self, fixed: int, lo: int, hi: int, down: bool) -> Seq<BorderStyleCellUpdate> {
        Seq::new((hi - lo + 1) as nat, |i: int| self.line_cell(fixed, lo + i, down).override_spec())
    }

    /// The least and greatest row at which column `column` has a border.
    pub fn bounds_column(&self, column: i64) -> (r: Option<(i64, i64)>)
        requires
            self.wf(),
        ensures
            spans(r, self.column_rows(column as int)),
    {
        let ghost e = Set::<int>::empty();
        let sp = widen_keys(&self.top, column, None, Ghost(e));
        let ghost acc = e.union(keys_holding(self.top@, column as int));
        let sp = widen_keys(&self.bottom, column, sp, Ghost(acc));
        let ghost acc = acc.union(keys_holding(self.bottom@, column as int));
        let sp = match self.left.get(column) {
            Some(line) => widen_line(line, sp, Ghost(acc)),
            None => sp,
        };
        let ghost acc = acc.union(line_cells(self.left@, column as int));
        proof {
            if self.left@.contains_key(column as int) {
                assert(line_cells(self.left@, column as int) =~= self.left@[column as int]@.dom());
            } else {
                assert(acc =~= acc.union(line_cells(self.left@, column as int)));
            }
        }
        let sp = match self.right.get(column) {
            Some(line) => widen_line(line, sp, Ghost(acc)),
            None => sp,
        };
        proof {
            if self.right@.contains_key(column as int) {
                assert(line_cells(self.right@, column as int) =~= self.right@[column as int]@.dom());
            } else {
                assert(acc =~= acc.union(line_cells(self.right@, column as int)));
            }
            assert(acc.union(line_cells(self.right@, column as int)) =~= self.column_rows(column as int));
        }
        sp
    }

    /// The least and greatest column at which row `row` has a border.
    pub fn bounds_row(&self, row: i64) -> (r: Option<(i64, i64)>)
        requires
            self.wf(),
        ensures
            spans(r, self.row_columns(row as int)),
    {
        let ghost e = Set::<int>::empty();
        let sp = match self.top.get(row) {
            Some(line) => widen_line(line, None, Ghost(e)),
            None => None,
        };
        let ghost acc = e.union(line_cells(self.top@, row as int));
        proof {
            if self.top@.contains_key(row as int) {
                assert(line_cells(self.top@, row as int) =~= self.top@[row as int]@.dom());
            } else {
                assert(acc =~= e);
            }
        }
        let sp = match self.bottom.get(row) {
            Some(line) => widen_line(line, sp, Ghost(acc)),
            None => sp,
        };
        proof {
            if self.bottom@.contains_key(row as int) {
                assert(line_cells(self.bottom@, row as int) =~= self.bottom@[row as int]@.dom());
            } else {
                assert(acc =~= acc.union(line_cells(self.bottom@, row as int)));
            }
        }
        let ghost acc = acc.union(line_cells(self.bottom@, row as int));
        let sp = widen_keys(&self.left, row, sp, Ghost(acc));
        let ghost acc = acc.union(keys_holding(self.left@, row as int));
        let sp = widen_keys(&self.right, row, sp, Ghost(acc));
        proof {
            assert(acc.union(keys_holding(self.right@, row as int)) =~= self.row_columns(row as int));
        }
        sp
    }

    /// Appends the overrides of the cells `lo..=hi` of a line.
    fn push_line_updates(&self, out: &mut Vec<BorderStyleCellUpdate>, fixed: i64, lo: i64, hi: i64, down: bool)
        requires
            self.wf(),
            lo <= hi,
        ensures
            final(out)@ == old(out)@ + self.line_updates(fixed as int, lo as int, hi as int, down),
    {
        let ghost base = out@;
        let mut i = lo;
        proof {
            assert(self.line_updates(fixed as int, lo as int, lo - 1, down) =~= Seq::empty());
            assert(base + Seq::empty() =~= base);
        }
        loop
            invariant_except_break
                out@ == base + self.line_updates(fixed as int, lo as int, i - 1, down),
            invariant
                self.wf(),
                lo <= i <= hi,
            ensures
                out@ == base + self.line_updates(fixed as int, lo as int, hi as int, down),
            decreases hi - i,
        {
            let cell = if down {
                self.get(fixed, i)
            } else {
                self.get(i, fixed)
            };
            out.push(cell.override_border());
            proof {
                assert(self.line_updates(fixed as int, lo as int, i as int, down) =~= self.line_updates(
                    fixed as int,
                    lo as int,
                    i - 1,
                    down,
                ).push(cell.override_spec()));
                assert(out@ =~= base + self.line_updates(fixed as int, lo as int, i as int, down));
            }
            if i == hi {
                break;
            }
            i = i + 1;
        }
    }

    /// What `get_column_ops` returns, for a non-empty result.
    pub open spec fn line_op(&self, sheet_id: SheetId, key: int, op: Operation, down: bool) -> bool {
        let overrides = if down {
            self.columns@
        } else {
            self.rows@
        };
        let held = if down {
            self.column_rows(key)
        } else {
            self.row_columns(key)
        };
        match op {
            Operation::SetBordersSelection { selection, borders } => {
                &&& selection.sheet_id == sheet_id
                &&& !selection.all
                &&& (if down {
                    selection.rows is None && match selection.columns {
                        Some(v) => overrides.contains_key(key) && v@ == seq![key as i64],
                        None => !overrides.contains_key(key),
                    }
                } else {
                    selection.columns is None && match selection.rows {
                        Some(v) => overrides.contains_key(key) && v@ == seq![key as i64],
                        None => !overrides.contains_key(key),
                    }
                })
                &&& match selection.rects {
                    Some(v) => {
                        &&& v@.len() == 1
                        &&& (if down {
                            v@[0].min.x == key && v@[0].max.x == key && spans(
                                Some((v@[0].min.y, v@[0].max.y)),
                                held,
                            ) && borders@ == override_prefix(overrides, key) + self.line_updates(
                                key,
                                v@[0].min.y as int,
                                v@[0].max.y as int,
                                down,
                            )
                        } else {
                            v@[0].min.y == key && v@[0].max.y == key && spans(
                                Some((v@[0].min.x, v@[0].max.x)),
                                held,
                            ) && borders@ == override_prefix(overrides, key) + self.line_updates(
                                key,
                                v@[0].min.x as int,
                                v@[0].max.x as int,
                                down,
                            )
                        })
                    },
                    None => spans(None, held) && borders@ == override_prefix(overrides, key),
                }
            },
            _ => false,
        }
    }

    /// Gets an operation to recreate the column's borders: its whole-column
    /// override, then every cell between the first and last bordered row.
    /// Empty when the column has no border at all.
    pub fn get_column_ops(&self, sheet_id: SheetId, column: i64) -> (r: Vec<Operation>)
        requires
            self.wf(),
        ensures
            r@.len() <= 1,
            (r@.len() == 0) == (!self.columns@.contains_key(column as int) && spans(
                None,
                self.column_rows(column as int),
            )),
            r@.len() == 1 ==> self.line_op(sheet_id, column as int, r@[0], true),
    {
        let mut borders: Vec<BorderStyleCellUpdate> = Vec::new();
        let mut selection = Selection::new(sheet_id);
        match self.columns.get(column) {
            Some(cell) => {
                let mut v: Vec<i64> = Vec::new();
                v.push(column);
                selection.columns = Some(v);
                borders.push(cell.override_border());
                proof {
                    assert(borders@ =~= override_prefix(self.columns@, column as int));
                }
            },
            None => {
                proof {
                    assert(borders@ =~= override_prefix(self.columns@, column as int));
                }
            },
        }
        match self.bounds_column(column) {
            Some((lo, hi)) => {
                self.push_line_updates(&mut borders, column, lo, hi, true);
                let mut rects: Vec<Rect> = Vec::new();
                rects.push(Rect::new(column, lo, column, hi));
                selection.rects = Some(rects);
            },
            None => {},
        }
        if selection.is_empty() {
            Vec::new()
        } else {
            let mut ops: Vec<Operation> = Vec::new();
            ops.push(Operation::SetBordersSelection { selection, borders });
            ops
        }
    }

    /// What `get_row_ops` returns for row `row`.
    pub open spec fn row_ops_ok(&self, sheet_id: SheetId, row: int, s: Seq<Operation>) -> bool {
        &&& s.len() <= 1
        &&& (s.len() == 0) == (!self.rows@.contains_key(row) && spans(None, self.row_columns(row)))
        &&& s.len() == 1 ==> self.line_op(sheet_id, row, s[0], false)
    }

    /// Gets an operation to recreate the row's borders: its whole-row
    /// override, then every cell between the first and last bordered column.
    /// Empty when the row has no border at all.
    pub fn get_row_ops(&self, sheet_id: SheetId, row: i64) -> (r: Vec<Operation>)
        requires
            self.wf(),
        ensures
            r@.len() <= 1,
            (r@.len() == 0) == (!self.rows@.contains_key(row as int) && spans(
                None,
                self.row_columns(row as int),
            )),
            r@.len() == 1 ==> self.line_op(sheet_id, row as int, r@[0], false),
    {
        let mut borders: Vec<BorderStyleCellUpdate> = Vec::new();
        let mut selection = Selection::new(sheet_id);
        match self.rows.get(row) {
            Some(cell) => {
                let mut v: Vec<i64> = Vec::new();
                v.push(row);
                selection.rows = Some(v);
                borders.push(cell.override_border());
                proof {
                    assert(borders@ =~= override_prefix(self.rows@, row as int));
                }
            },
            None => {
                proof {
                    assert(borders@ =~= override_prefix(self.rows@, row as int));
                }
            },
        }
        match self.bounds_row(row) {
            Some((lo, hi)) => {
                self.push_line_updates(&mut borders, row, lo, hi, false);
                let mut rects: Vec<Rect> = Vec::new();
                rects.push(Rect::new(lo, row, hi, row));
                selection.rects = Some(rects);
            },
            None => {},
        }
        if selection.is_empty() {
            Vec::new()
        } else {
            let mut ops: Vec<Operation> = Vec::new();
            ops.push(Operation::SetBordersSelection { selection, borders });
            ops
        }
    }
}

} // verus!
