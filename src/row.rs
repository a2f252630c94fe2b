//! Opening and closing a row of a sheet, with the operations that undo it.
use vstd::prelude::*;
use crate::axis::{SparseAxis, opt_at, shifted_left, shifted_right, has_key_from, keys_below};
use crate::borders::{rows_left, rows_right};
use crate::cell::{CellValue, CodeRunKind};
use crate::code::{CodeRuns, key, keeps_order, relocated_order};
use crate::format::{Format, FormatUpdate, blank_format};
use crate::offsets::lists_from;
use crate::ops::{CopyFormats, Operation, Pos, Rect, Selection, SheetId, SheetPos};
use crate::sheet::{
    now_stamp, update_format, Column, RowFormat, Sheet, cols_holding, columns_wf, formats_shifted_left,
    formats_shifted_right, same_formats,
};
use crate::span::spans;
use crate::transaction::{PendingTransaction, add_pos, add_sheet, with};

verus! {

/// Largest number of extra cells in one reverse "set values" operation: a
/// chunk covers at most this many cells after its first.
pub const MAX_OPERATION_SIZE_COL_ROW: i64 = 100;

pub open spec fn op_start(op: Operation) -> int {
    match op {
        Operation::SetCellValues { sheet_pos, values } => sheet_pos.x as int,
        _ => 0,
    }
}

pub open spec fn op_len(op: Operation) -> int {
    match op {
        Operation::SetCellValues { sheet_pos, values } => values@.len() as int,
        _ => 0,
    }
}

impl Sheet {
    /// `op` restores the values of cells `start..start + len` of row `row`.
    pub open spec fn values_chunk(&self, row: int, op: Operation) -> bool {
        match op {
            Operation::SetCellValues { sheet_pos, values } => {
                &&& sheet_pos.sheet_id == self.id
                &&& sheet_pos.y == row
                &&& 1 <= values@.len() <= MAX_OPERATION_SIZE_COL_ROW + 1
                &&& forall|i: int| 0 <= i < values@.len() ==> #[trigger] values@[i] == opt_at(self.values_grid(), (sheet_pos.x + i, row))
            },
            _ => false,
        }
    }

    /// `s` restores every value of row `row`: chunks of full width from the
    /// first to the last column holding a value, each starting where the one
    /// before ended.
    pub open spec fn values_ops_ok(&self, row: int, s: Seq<Operation>) -> bool {
        let held = cols_holding(self.columns@, row, false);
        if s.len() == 0 {
            spans(None, held)
        } else {
            &&& forall|k: int| 0 <= k < s.len() ==> self.values_chunk(row, #[trigger] s[k])
            &&& forall|k: int| 0 <= k < s.len() - 1 ==> op_len(#[trigger] s[k]) == MAX_OPERATION_SIZE_COL_ROW + 1
                && op_start(s[k + 1]) == op_start(s[k]) + op_len(s[k])
            &&& spans(Some((op_start(s[0]) as i64, (op_start(s.last()) + op_len(s.last()) - 1) as i64)), held)
        }
    }

    /// Reverse operations for the values of row `row`, broken up into chunks
    /// of bounded width.
    pub fn reverse_values_ops_for_row(&self, row: i64) -> (r: Vec<Operation>)
        requires
            self.wf(),
        ensures
            self.values_ops_ok(row as int, r@),
    {
        let mut ops: Vec<Operation> = Vec::new();
        match self.row_bounds(row) {
            None => {},
            Some((min, max)) => {
                let mut cur = min;
                loop
                    invariant_except_break
                        min <= cur <= max,
                        ops@.len() == 0 ==> cur == min,
                        ops@.len() > 0 ==> op_start(ops@.last()) + op_len(ops@.last()) == cur,
                        ops@.len() > 0 ==> op_len(ops@.last()) == MAX_OPERATION_SIZE_COL_ROW + 1,
                    invariant
                        self.wf(),
                        spans(Some((min, max)), cols_holding(self.columns@, row as int, false)),
                        forall|k: int| 0 <= k < ops@.len() ==> self.values_chunk(row as int, #[trigger] ops@[k]),
                        forall|k: int| 0 <= k < ops@.len() - 1 ==> op_len(#[trigger] ops@[k]) == MAX_OPERATION_SIZE_COL_ROW + 1
                            && op_start(ops@[k + 1]) == op_start(ops@[k]) + op_len(ops@[k]),
                        ops@.len() > 0 ==> op_start(ops@[0]) == min,
                    ensures
                        ops@.len() > 0,
                        op_start(ops@.last()) + op_len(ops@.last()) - 1 == max,
                        forall|k: int| 0 <= k < ops@.len() ==> self.values_chunk(row as int, #[trigger] ops@[k]),
                        forall|k: int| 0 <= k < ops@.len() - 1 ==> op_len(#[trigger] ops@[k]) == MAX_OPERATION_SIZE_COL_ROW + 1
                            && op_start(ops@[k + 1]) == op_start(ops@[k]) + op_len(ops@[k]),
                        op_start(ops@[0]) == min,
                    decreases max - cur,
                {
                    let last = if (max as i128) - (cur as i128) > MAX_OPERATION_SIZE_COL_ROW as i128 {
                        cur + MAX_OPERATION_SIZE_COL_ROW
                    } else {
                        max
                    };
                    let mut values: Vec<Option<CellValue>> = Vec::new();
                    let mut x = cur;
                    loop
                        invariant_except_break
                            cur <= x <= last,
                            values@.len() == x - cur,
                        invariant
                            self.wf(),
                            cur <= last,
                            forall|i: int| 0 <= i < values@.len() ==> #[trigger] values@[i] == opt_at(self.values_grid(), (cur + i, row as int)),
                        ensures
                            values@.len() == last - cur + 1,
                        decreases last - x,
                    {
                        let v = self.cell_value(Pos { x, y: row });
                        values.push(v);
                        if x == last {
                            break;
                        }
                        x = x + 1;
                    }
                    let ghost before = ops@;
                    ops.push(Operation::SetCellValues { sheet_pos: SheetPos::new(self.id, cur, row), values });
                    proof {
                        assert(ops@[ops@.len() - 1] == ops@.last());
                        if before.len() > 0 {
                            assert(before.last() == ops@[before.len() - 1]);
                        }
                        assert forall|k: int| 0 <= k < ops@.len() - 1 implies op_len(#[trigger] ops@[k]) == MAX_OPERATION_SIZE_COL_ROW + 1
                            && op_start(ops@[k + 1]) == op_start(ops@[k]) + op_len(ops@[k]) by {
                            assert(ops@[k] == before[k]);
                            if k < before.len() - 1 {
                                assert(ops@[k + 1] == before[k + 1]);
                            }
                        }
                    }
                    if last == max {
                        break;
                    }
                    cur = last + 1;
                }
            },
        }
        ops
    }
}

impl Sheet {
    /// Replacing updates for the cell formats of `lo..=hi` along row `row`.
    pub open spec fn row_format_updates(&self, row: int, lo: int, hi: int) -> Seq<FormatUpdate> {
        Seq::new((hi - lo + 1) as nat, |i: int| self.format_grid(lo + i, row).replace_spec())
    }

    /// The row's own format as a replacing update, if it has one.
    pub open spec fn row_format_prefix(&self, row: int) -> Seq<FormatUpdate> {
        if self.formats_rows@.contains_key(row) {
            seq![self.formats_rows@[row].format.replace_spec()]
        } else {
            Seq::empty()
        }
    }

    /// `s` restores the formats of row `row`: the row's own format, then every
    /// cell between the first and last column with a cell format.
    pub open spec fn formats_ops_ok(&self, row: int, s: Seq<Operation>) -> bool {
        let held = cols_holding(self.columns@, row, true);
        let has_row = self.formats_rows@.contains_key(row);
        if s.len() == 0 {
            !has_row && spans(None, held)
        } else {
            &&& s.len() == 1
            &&& match s[0] {
                Operation::SetCellFormatsSelection { selection, formats } => {
                    &&& selection.sheet_id == self.id
                    &&& !selection.all
                    &&& selection.columns is None
                    &&& match selection.rows {
                        Some(v) => has_row && v@ == seq![row as i64],
                        None => !has_row,
                    }
                    &&& match selection.rects {
                        Some(v) => {
                            &&& v@.len() == 1
                            &&& v@[0].min.y == row && v@[0].max.y == row
                            &&& spans(Some((v@[0].min.x, v@[0].max.x)), held)
                            &&& formats@ == self.row_format_prefix(row) + self.row_format_updates(row, v@[0].min.x as int, v@[0].max.x as int)
                        },
                        None => spans(None, held) && formats@ == self.row_format_prefix(row),
                    }
                },
                _ => false,
            }
        }
    }

    /// Creates reverse operations for cell formatting within the row.
    pub fn reverse_formats_ops_for_row(&self, row: i64) -> (r: Vec<Operation>)
        requires
            self.wf(),
        ensures
            self.formats_ops_ok(row as int, r@),
    {
        let mut formats: Vec<FormatUpdate> = Vec::new();
        let mut selection = Selection::new(self.id);
        match self.try_format_row(row) {
            Some(format) => {
                let mut v: Vec<i64> = Vec::new();
                v.push(row);
                selection.rows = Some(v);
                formats.push(format.to_replace());
                proof {
                    assert(formats@ =~= self.row_format_prefix(row as int));
                }
            },
            None => {
                proof {
                    assert(formats@ =~= self.row_format_prefix(row as int));
                }
            },
        }
        match self.row_bounds_formats(row) {
            Some((min, max)) => {
                let ghost base = formats@;
                let mut x = min;
                proof {
                    assert(self.row_format_updates(row as int, min as int, min - 1) =~= Seq::empty());
                    assert(base + Seq::empty() =~= base);
                }
                loop
                    invariant_except_break
                        formats@ == base + self.row_format_updates(row as int, min as int, x - 1),
                    invariant
                        self.wf(),
                        min <= x <= max,
                    ensures
                        formats@ == base + self.row_format_updates(row as int, min as int, max as int),
                    decreases max - x,
                {
                    let f = self.format_cell(x, row);
                    formats.push(f.to_replace());
                    proof {
                        assert(self.row_format_updates(row as int, min as int, x as int) =~= self.row_format_updates(
                            row as int,
                            min as int,
                            x - 1,
                        ).push(f.replace_spec()));
                        assert(formats@ =~= base + self.row_format_updates(row as int, min as int, x as int));
                    }
                    if x == max {
                        break;
                    }
                    x = x + 1;
                }
                let mut rects: Vec<Rect> = Vec::new();
                rects.push(Rect::new(min, row, max, row));
                selection.rects = Some(rects);
            },
            None => {},
        }
        if selection.is_empty() {
            Vec::new()
        } else {
            let mut ops: Vec<Operation> = Vec::new();
            ops.push(Operation::SetCellFormatsSelection { selection, formats });
            ops
        }
    }

    /// `op` puts back the result at position `i` of the order.
    pub open spec fn code_op_for(&self, op: Operation, i: int) -> bool {
        match op {
            Operation::SetCodeRun { sheet_pos, code_run, index } => {
                &&& index == i
                &&& 0 <= i < self.code_runs.positions@.len()
                &&& sheet_pos == SheetPos { sheet_id: self.id, x: self.code_runs.positions@[i].x, y: self.code_runs.positions@[i].y }
                &&& match code_run {
                    Some(c) => c.kind == self.code_runs.runs@[i].kind && c.vertical == self.code_runs.runs@[i].vertical
                        && c.output@ == self.code_runs.runs@[i].output@,
                    None => false,
                }
            },
            _ => false,
        }
    }

    pub open spec fn code_index(op: Operation) -> int {
        match op {
            Operation::SetCodeRun { sheet_pos, code_run, index } => index as int,
            _ => 0,
        }
    }

    /// `s` puts back every code result of row `row`, in their order.
    pub open spec fn code_ops_ok(&self, row: int, s: Seq<Operation>) -> bool {
        &&& forall|k: int| 0 <= k < s.len() ==> self.code_op_for(#[trigger] s[k], Self::code_index(s[k]))
            && self.code_runs.positions@[Self::code_index(s[k])].y == row
        &&& forall|k: int, l: int| 0 <= k < l < s.len() ==> Self::code_index(#[trigger] s[k]) < Self::code_index(#[trigger] s[l])
        &&& forall|i: int| 0 <= i < self.code_runs.positions@.len() && (#[trigger] self.code_runs.positions@[i]).y == row
            ==> exists|k: int| 0 <= k < s.len() && Self::code_index(#[trigger] s[k]) == i
    }

    /// Creates reverse operations for the code results in the row.
    pub fn code_runs_for_row(&self, row: i64) -> (r: Vec<Operation>)
        requires
            self.wf(),
        ensures
            self.code_ops_ok(row as int, r@),
    {
        let mut ops: Vec<Operation> = Vec::new();
        let mut i: usize = 0;
        while i < self.code_runs.positions.len()
            invariant
                self.wf(),
                i <= self.code_runs.positions@.len(),
                forall|k: int| 0 <= k < ops@.len() ==> self.code_op_for(#[trigger] ops@[k], Self::code_index(ops@[k]))
                    && self.code_runs.positions@[Self::code_index(ops@[k])].y == row
                    && Self::code_index(ops@[k]) < i,
                forall|k: int, l: int| 0 <= k < l < ops@.len() ==> Self::code_index(#[trigger] ops@[k]) < Self::code_index(#[trigger] ops@[l]),
                forall|j: int| 0 <= j < i && (#[trigger] self.code_runs.positions@[j]).y == row
                    ==> exists|k: int| 0 <= k < ops@.len() && Self::code_index(#[trigger] ops@[k]) == j,
            decreases self.code_runs.positions@.len() - i,
        {
            let p = self.code_runs.positions[i];
            let ghost before = ops@;
            if p.y == row {
                let run = self.code_runs.runs[i].duplicate();
                ops.push(Operation::SetCodeRun { sheet_pos: SheetPos::new(self.id, p.x, p.y), code_run: Some(run), index: i });
            }
            proof {
                assert forall|j: int| 0 <= j < i + 1 && (#[trigger] self.code_runs.positions@[j]).y == row
                    implies exists|k: int| 0 <= k < ops@.len() && Self::code_index(#[trigger] ops@[k]) == j by {
                    if j < i {
                        let k = choose|k: int| 0 <= k < before.len() && Self::code_index(#[trigger] before[k]) == j;
                        assert(ops@[k] == before[k]);
                    } else {
                        assert(Self::code_index(ops@[ops@.len() - 1]) == j);
                    }
                }
                assert forall|k: int| 0 <= k < ops@.len() implies self.code_op_for(#[trigger] ops@[k], Self::code_index(ops@[k]))
                    && self.code_runs.positions@[Self::code_index(ops@[k])].y == row
                    && Self::code_index(ops@[k]) < i + 1 by {
                    if k < before.len() {
                        assert(ops@[k] == before[k]);
                    }
                }
            }
            i = i + 1;
        }
        ops
    }
}

/// Every column of `a` has its values shifted into `b` by closing row `row`,
/// its formats untouched.
pub open spec fn values_closed(a: Column, b: Column, row: int) -> bool {
    &&& b.wf()
    &&& b.values@ == shifted_left(a.values@, row)
    &&& same_formats(a, b)
}

pub open spec fn values_opened(a: Column, b: Column, row: int) -> bool {
    &&& b.wf()
    &&& b.values@ == shifted_right(a.values@, row)
    &&& same_formats(a, b)
}

pub open spec fn formats_closed(a: Column, b: Column, row: int) -> bool {
    &&& b.wf()
    &&& b.values == a.values
    &&& formats_shifted_left(a, b, row)
}

pub open spec fn formats_opened(a: Column, b: Column, row: int) -> bool {
    &&& b.wf()
    &&& b.values == a.values
    &&& formats_shifted_right(a, b, row)
}

/// Some column has a fill colour at or below row `row`.
pub open spec fn fill_reaches(cols: Map<int, Column>, row: int) -> bool {
    exists|x: int| #[trigger] cols.contains_key(x) && has_key_from(cols[x].fill_color@, row)
}

/// The format grid of `b` is that of `a` with row `row` closed.
pub open spec fn format_grid_closed(a: Sheet, b: Sheet, row: int) -> bool {
    forall|x: int, y: int| #[trigger] b.format_grid(x, y) == if y < row {
        a.format_grid(x, y)
    } else {
        a.format_grid(x, y + 1)
    }
}

/// The format grid of `b` is that of `a` with a blank row opened at `row`.
pub open spec fn format_grid_opened(a: Sheet, b: Sheet, row: int) -> bool {
    forall|x: int, y: int| #[trigger] b.format_grid(x, y) == if y < row {
        a.format_grid(x, y)
    } else if y == row {
        blank_format()
    } else {
        a.format_grid(x, y - 1)
    }
}

impl Sheet {
    /// Every column's values leave room to open a row.
    pub open spec fn values_room(&self) -> bool {
        forall|x: int| #[trigger] self.columns@.contains_key(x) ==> keys_below(self.columns@[x].values@, i64::MAX as int)
    }

    /// Every column's formats leave room to open a row.
    pub open spec fn formats_room(&self) -> bool {
        forall|x: int| #[trigger] self.columns@.contains_key(x) ==> self.columns@[x].formats_room()
    }

    /// Removes any value at row and shifts the remaining values up by 1.
    pub fn delete_and_shift_values(&mut self, row: i64)
        requires
            old(self).wf(),
        ensures
            final(self).wf(),
            final(self).values_grid() == rows_left(old(self).values_grid(), row as int),
            forall|x: int, y: int| #[trigger] final(self).format_grid(x, y) == old(self).format_grid(x, y),
            final(self).columns@.dom() == old(self).columns@.dom(),
            forall|x: int| #[trigger] final(self).columns@.contains_key(x) ==> final(self).columns@[x].fill_color == old(self).columns@[x].fill_color,
            final(self).id == old(self).id,
            final(self).formats_rows == old(self).formats_rows,
            final(self).code_runs == old(self).code_runs,
            final(self).borders == old(self).borders,
            final(self).offsets == old(self).offsets,
    {
        let ghost pre = self.columns;
        let n = self.columns.keys.len();
        let mut i: usize = 0;
        while i < n
            invariant
                columns_wf(pre),
                pre == old(self).columns,
                old(self).wf(),
                self.id == old(self).id,
                self.formats_rows == old(self).formats_rows,
                self.code_runs == old(self).code_runs,
                self.borders == old(self).borders,
                self.offsets == old(self).offsets,
                n == pre.keys@.len(),
                self.columns.keys@ == pre.keys@,
                self.columns.vals@.len() == n,
                i <= n,
                forall|j: int| 0 <= j < i ==> values_closed(pre.vals@[j], #[trigger] self.columns.vals@[j], row as int),
                forall|j: int| i <= j < n ==> #[trigger] self.columns.vals@[j] == pre.vals@[j],
            decreases n - i,
        {
            proof {
                pre.lemma_entry(i as int);
            }
            self.columns.vals[i].values.remove_and_shift_left(row);
            i = i + 1;
        }
        proof {
            let p = |a: Column, b: Column| values_closed(a, b, row as int);
            SparseAxis::lemma_pointwise(&pre, &self.columns, p);
            assert forall|x: int| #[trigger] self.columns@.contains_key(x) implies values_closed(pre@[x], self.columns@[x], row as int) by {
                assert(pre@.contains_key(x));
            }
            assert(self.values_grid() =~= rows_left(old(self).values_grid(), row as int));
        }
    }
}

proof fn lemma_format_closed(a: Column, b: Column, row: int, y: int)
    requires
        formats_shifted_left(a, b, row),
    ensures
        b.format_spec(y) == if y < row {
            a.format_spec(y)
        } else {
            a.format_spec(y + 1)
        },
{
}

proof fn lemma_format_opened(a: Column, b: Column, row: int, y: int)
    requires
        formats_shifted_right(a, b, row),
    ensures
        b.format_spec(y) == if y < row {
            a.format_spec(y)
        } else if y == row {
            blank_format()
        } else {
            a.format_spec(y - 1)
        },
{
}

impl Sheet {
    /// Removes format at row and shifts the remaining formats up by 1.
    pub fn formats_remove_and_shift_up(&mut self, transaction: &mut PendingTransaction, row: i64)
        requires
            old(self).wf(),
        ensures
            final(self).wf(),
            format_grid_closed(*old(self), *final(self), row as int),
            final(self).values_grid() == old(self).values_grid(),
            final(self).columns@.dom() == old(self).columns@.dom(),
            final(transaction).fill_cells@ == if fill_reaches(old(self).columns@, row as int) {
                with(old(transaction).fill_cells@, old(self).id)
            } else {
                old(transaction).fill_cells@
            },
            final(transaction).reverse_operations == old(transaction).reverse_operations,
            final(transaction).sheet_borders == old(transaction).sheet_borders,
            final(transaction).offsets_modified == old(transaction).offsets_modified,
            final(transaction).undoable == old(transaction).undoable,
            final(transaction).server == old(transaction).server,
            final(self).id == old(self).id,
            final(self).formats_rows == old(self).formats_rows,
            final(self).code_runs == old(self).code_runs,
            final(self).borders == old(self).borders,
            final(self).offsets == old(self).offsets,
            final(transaction).code_cells == old(transaction).code_cells,
            final(transaction).html_cells == old(transaction).html_cells,
            final(transaction).image_cells == old(transaction).image_cells,
    {
        let ghost pre = self.columns;
        let n = self.columns.keys.len();
        let mut fill = false;
        let mut i: usize = 0;
        while i < n
            invariant
                columns_wf(pre),
                pre == old(self).columns,
                old(self).wf(),
                self.id == old(self).id,
                self.formats_rows == old(self).formats_rows,
                self.code_runs == old(self).code_runs,
                self.borders == old(self).borders,
                self.offsets == old(self).offsets,
                n == pre.keys@.len(),
                self.columns.keys@ == pre.keys@,
                self.columns.vals@.len() == n,
                i <= n,
                forall|j: int| 0 <= j < i ==> formats_closed(pre.vals@[j], #[trigger] self.columns.vals@[j], row as int),
                forall|j: int| i <= j < n ==> #[trigger] self.columns.vals@[j] == pre.vals@[j],
                fill == exists|j: int| 0 <= j < i && has_key_from((#[trigger] pre.vals@[j]).fill_color@, row as int),
            decreases n - i,
        {
            proof {
                pre.lemma_entry(i as int);
            }
            let moved = self.columns.vals[i].formats_remove_and_shift_left(row);
            if moved {
                fill = true;
            }
            i = i + 1;
        }
        proof {
            let p = |a: Column, b: Column| formats_closed(a, b, row as int);
            SparseAxis::lemma_pointwise(&pre, &self.columns, p);
            assert forall|x: int| #[trigger] self.columns@.contains_key(x) implies formats_closed(pre@[x], self.columns@[x], row as int) by {
                assert(pre@.contains_key(x));
            }
            assert(self.values_grid() =~= old(self).values_grid());
            assert forall|x: int, y: int| #[trigger] self.format_grid(x, y) == if y < row {
                old(self).format_grid(x, y)
            } else {
                old(self).format_grid(x, y + 1)
            } by {
                if self.columns@.contains_key(x) {
                    lemma_format_closed(pre@[x], self.columns@[x], row as int, y);
                }
            }
            if fill {
                let j = choose|j: int| 0 <= j < n && has_key_from((#[trigger] pre.vals@[j]).fill_color@, row as int);
                pre.lemma_entry(j);
            }
            if fill_reaches(pre@, row as int) {
                let x = choose|x: int| #[trigger] pre@.contains_key(x) && has_key_from(pre@[x].fill_color@, row as int);
                let j = pre.index_of(x);
            }
        }
        if fill {
            add_sheet(&mut transaction.fill_cells, self.id);
        }
    }

    /// Opens a row at `row` in every column's values.
    pub fn insert_and_shift_values(&mut self, row: i64)
        requires
            old(self).wf(),
            old(self).values_room(),
        ensures
            final(self).wf(),
            final(self).values_grid() == rows_right(old(self).values_grid(), row as int),
            old(self).formats_room() ==> final(self).formats_room(),
            forall|x: int, y: int| #[trigger] final(self).format_grid(x, y) == old(self).format_grid(x, y),
            final(self).columns@.dom() == old(self).columns@.dom(),
            forall|x: int| #[trigger] final(self).columns@.contains_key(x) ==> final(self).columns@[x].fill_color == old(self).columns@[x].fill_color,
            final(self).id == old(self).id,
            final(self).formats_rows == old(self).formats_rows,
            final(self).code_runs == old(self).code_runs,
            final(self).borders == old(self).borders,
            final(self).offsets == old(self).offsets,
    {
        let ghost pre = self.columns;
        let n = self.columns.keys.len();
        let mut i: usize = 0;
        while i < n
            invariant
                columns_wf(pre),
                pre == old(self).columns,
                old(self).wf(),
                old(self).values_room(),
                self.id == old(self).id,
                self.formats_rows == old(self).formats_rows,
                self.code_runs == old(self).code_runs,
                self.borders == old(self).borders,
                self.offsets == old(self).offsets,
                n == pre.keys@.len(),
                self.columns.keys@ == pre.keys@,
                self.columns.vals@.len() == n,
                i <= n,
                forall|j: int| 0 <= j < i ==> values_opened(pre.vals@[j], #[trigger] self.columns.vals@[j], row as int),
                forall|j: int| i <= j < n ==> #[trigger] self.columns.vals@[j] == pre.vals@[j],
            decreases n - i,
        {
            proof {
                pre.lemma_entry(i as int);
            }
            self.columns.vals[i].values.insert_and_shift_right(row);
            i = i + 1;
        }
        proof {
            let p = |a: Column, b: Column| values_opened(a, b, row as int);
            SparseAxis::lemma_pointwise(&pre, &self.columns, p);
            assert forall|x: int| #[trigger] self.columns@.contains_key(x) implies values_opened(pre@[x], self.columns@[x], row as int) by {
                assert(pre@.contains_key(x));
            }
            assert(self.values_grid() =~= rows_right(old(self).values_grid(), row as int));
        }
    }

    /// Opens a row at `row` in every column's formats.
    pub fn formats_insert_and_shift_down(&mut self, row: i64, transaction: &mut PendingTransaction)
        requires
            old(self).wf(),
            old(self).formats_room(),
        ensures
            final(self).wf(),
            format_grid_opened(*old(self), *final(self), row as int),
            final(self).values_grid() == old(self).values_grid(),
            final(self).columns@.dom() == old(self).columns@.dom(),
            final(transaction).fill_cells@ == if fill_reaches(old(self).columns@, row as int) {
                with(old(transaction).fill_cells@, old(self).id)
            } else {
                old(transaction).fill_cells@
            },
            final(transaction).reverse_operations == old(transaction).reverse_operations,
            final(transaction).sheet_borders == old(transaction).sheet_borders,
            final(transaction).offsets_modified == old(transaction).offsets_modified,
            final(transaction).undoable == old(transaction).undoable,
            final(transaction).server == old(transaction).server,
            final(self).id == old(self).id,
            final(self).formats_rows == old(self).formats_rows,
            final(self).code_runs == old(self).code_runs,
            final(self).borders == old(self).borders,
            final(self).offsets == old(self).offsets,
            final(transaction).code_cells == old(transaction).code_cells,
            final(transaction).html_cells == old(transaction).html_cells,
            final(transaction).image_cells == old(transaction).image_cells,
    {
        let ghost pre = self.columns;
        let n = self.columns.keys.len();
        let mut fill = false;
        let mut i: usize = 0;
        while i < n
            invariant
                columns_wf(pre),
                pre == old(self).columns,
                old(self).wf(),
                old(self).formats_room(),
                self.id == old(self).id,
                self.formats_rows == old(self).formats_rows,
                self.code_runs == old(self).code_runs,
                self.borders == old(self).borders,
                self.offsets == old(self).offsets,
                n == pre.keys@.len(),
                self.columns.keys@ == pre.keys@,
                self.columns.vals@.len() == n,
                i <= n,
                forall|j: int| 0 <= j < i ==> formats_opened(pre.vals@[j], #[trigger] self.columns.vals@[j], row as int),
                forall|j: int| i <= j < n ==> #[trigger] self.columns.vals@[j] == pre.vals@[j],
                fill == exists|j: int| 0 <= j < i && has_key_from((#[trigger] pre.vals@[j]).fill_color@, row as int),
            decreases n - i,
        {
            proof {
                pre.lemma_entry(i as int);
            }
            let moved = self.columns.vals[i].formats_insert_and_shift_right(row);
            if moved {
                fill = true;
            }
            i = i + 1;
        }
        proof {
            let p = |a: Column, b: Column| formats_opened(a, b, row as int);
            SparseAxis::lemma_pointwise(&pre, &self.columns, p);
            assert forall|x: int| #[trigger] self.columns@.contains_key(x) implies formats_opened(pre@[x], self.columns@[x], row as int) by {
                assert(pre@.contains_key(x));
            }
            assert(self.values_grid() =~= old(self).values_grid());
            assert forall|x: int, y: int| #[trigger] self.format_grid(x, y) == if y < row {
                old(self).format_grid(x, y)
            } else if y == row {
                blank_format()
            } else {
                old(self).format_grid(x, y - 1)
            } by {
                if self.columns@.contains_key(x) {
                    lemma_format_opened(pre@[x], self.columns@[x], row as int, y);
                }
            }
            if fill {
                let j = choose|j: int| 0 <= j < n && has_key_from((#[trigger] pre.vals@[j]).fill_color@, row as int);
                pre.lemma_entry(j);
            }
            if fill_reaches(pre@, row as int) {
                let x = choose|x: int| #[trigger] pre@.contains_key(x) && has_key_from(pre@[x].fill_color@, row as int);
                let j = pre.index_of(x);
            }
        }
        if fill {
            add_sheet(&mut transaction.fill_cells, self.id);
        }
    }
}

/// The reverse resize that removing row `row` records: the row's custom
/// height, if it had one.
pub open spec fn resize_part(heights: Map<int, u32>, id: SheetId, row: int) -> Seq<Operation> {
    if heights.contains_key(row) {
        seq![Operation::ResizeRow { sheet_id: id, row: row as i64, new_size: heights[row], client_resized: false }]
    } else {
        Seq::empty()
    }
}

/// `new` is `old` followed by entries of sheet `id` that each name a custom
/// height of `heights` at or below row `row`.
pub open spec fn noted_from(old: Seq<(SheetId, i64, u32)>, new: Seq<(SheetId, i64, u32)>, id: SheetId, heights: Map<int, u32>, row: int) -> bool {
    &&& new.len() >= old.len()
    &&& new.take(old.len() as int) == old
    &&& forall|i: int| old.len() <= i < new.len() ==> (#[trigger] new[i]).0 == id && new[i].1 >= row
        && heights.contains_key(new[i].1 as int) && heights[new[i].1 as int] == new[i].2
}

/// Every custom height of `heights` at or below row `row` is named by an
/// entry that `new` adds to `old`.
pub open spec fn notes_all(old: Seq<(SheetId, i64, u32)>, new: Seq<(SheetId, i64, u32)>, heights: Map<int, u32>, row: int) -> bool {
    forall|k: int| #[trigger] heights.contains_key(k) && k >= row ==> exists|i: int|
        old.len() <= i < new.len() && (#[trigger] new[i]).1 == k
}

pub proof fn lemma_with_twice<T>(s: Seq<T>, x: T)
    ensures
        with(with(s, x), x) == with(s, x),
{
    if !s.contains(x) {
        assert(s.push(x)[s.len() as int] == x);
    }
}

/// Pushes `(id, k, h)` for each listed height.
fn note_offsets(list: &mut Vec<(SheetId, i64, u32)>, id: SheetId, changed: &Vec<(i64, u32)>, Ghost(heights): Ghost<Map<int, u32>>, row: i64)
    requires
        lists_from(changed@, heights, row as int),
    ensures
        noted_from(old(list)@, final(list)@, id, heights, row as int),
        notes_all(old(list)@, final(list)@, heights, row as int),
{
    let ghost base = list@;
    proof {
        assert(base.take(base.len() as int) =~= base);
    }
    let mut i: usize = 0;
    while i < changed.len()
        invariant
            lists_from(changed@, heights, row as int),
            i <= changed@.len(),
            noted_from(base, list@, id, heights, row as int),
            forall|t: int| 0 <= t < i ==> exists|j: int| base.len() <= j < list@.len() && (#[trigger] list@[j]).1 == (#[trigger] changed@[t]).0,
        decreases changed@.len() - i,
    {
        let (k, h) = changed[i];
        proof {
            assert(changed@[i as int].0 >= row);
        }
        let ghost prev = list@;
        list.push((id, k, h));
        proof {
            assert(list@.take(base.len() as int) =~= base);
            assert forall|t: int| 0 <= t < i + 1 implies exists|j: int| base.len() <= j < list@.len() && (#[trigger] list@[j]).1 == (#[trigger] changed@[t]).0 by {
                if t < i {
                    let j = choose|j: int| base.len() <= j < prev.len() && (#[trigger] prev[j]).1 == (#[trigger] changed@[t]).0;
                    assert(list@[j] == prev[j]);
                } else {
                    assert(list@[list@.len() - 1].1 == changed@[t].0);
                }
            }
        }
        i = i + 1;
    }
    proof {
        assert forall|q: int| #[trigger] heights.contains_key(q) && q >= row implies exists|j: int|
            base.len() <= j < list@.len() && (#[trigger] list@[j]).1 == q by {
            let t = choose|t: int| 0 <= t < changed@.len() && #[trigger] changed@[t].0 == q;
            let j = choose|j: int| base.len() <= j < list@.len() && (#[trigger] list@[j]).1 == (#[trigger] changed@[t]).0;
        }
    }
}

impl Sheet {
    /// Removes the row's custom height and shifts the heights below it up.
    /// Records a reverse resize when the row had a custom height.
    pub fn delete_row_offset(&mut self, transaction: &mut PendingTransaction, row: i64)
        requires
            old(self).wf(),
        ensures
            final(self).wf(),
            final(self).offsets.rows@ == shifted_left(old(self).offsets.rows@, row as int),
            final(transaction).reverse_operations@ == old(transaction).reverse_operations@ + resize_part(
                old(self).offsets.rows@,
                old(self).id,
                row as int,
            ),
            old(transaction).server ==> final(transaction).offsets_modified == old(transaction).offsets_modified,
            noted_from(old(transaction).offsets_modified@, final(transaction).offsets_modified@, old(self).id, final(self).offsets.rows@, row as int),
            !old(transaction).server ==> notes_all(old(transaction).offsets_modified@, final(transaction).offsets_modified@, final(self).offsets.rows@, row as int),
            final(transaction).undoable == old(transaction).undoable,
            final(transaction).server == old(transaction).server,
            final(transaction).fill_cells == old(transaction).fill_cells,
            final(transaction).sheet_borders == old(transaction).sheet_borders,
            final(self).id == old(self).id,
            final(self).columns == old(self).columns,
            final(self).formats_rows == old(self).formats_rows,
            final(self).code_runs == old(self).code_runs,
            final(self).borders == old(self).borders,
            final(transaction).code_cells == old(transaction).code_cells,
            final(transaction).html_cells == old(transaction).html_cells,
            final(transaction).image_cells == old(transaction).image_cells,
    {
        let (changed, new_size) = self.offsets.delete_row(row);
        let ghost before = transaction.reverse_operations@;
        match new_size {
            Some(new_size) => {
                transaction.reverse_operations.push(Operation::ResizeRow { sheet_id: self.id, row, new_size, client_resized: false });
            },
            None => {},
        }
        proof {
            assert(transaction.reverse_operations@ =~= before + resize_part(old(self).offsets.rows@, self.id, row as int));
            assert(transaction.offsets_modified@.take(transaction.offsets_modified@.len() as int) =~= transaction.offsets_modified@);
        }
        if changed.len() > 0 && !transaction.is_server() {
            note_offsets(&mut transaction.offsets_modified, self.id, &changed, Ghost(self.offsets.rows@), row);
        }
    }
}

/// The redraw signals of a code result of kind `kind` at `c` are raised: its
/// cell, and its rich output where it has one.
pub open spec fn signaled(t: PendingTransaction, id: SheetId, c: (int, int), kind: CodeRunKind) -> bool {
    let sp = SheetPos { sheet_id: id, x: c.0 as i64, y: c.1 as i64 };
    &&& t.code_cells@.contains(sp)
    &&& kind == CodeRunKind::Html ==> t.html_cells@.contains(sp)
    &&& kind == CodeRunKind::Image ==> t.image_cells@.contains(sp)
}

/// `b` keeps every redraw signal raised in `a`.
pub open spec fn keeps_signals(a: PendingTransaction, b: PendingTransaction) -> bool {
    &&& forall|p: SheetPos| #[trigger] a.code_cells@.contains(p) ==> b.code_cells@.contains(p)
    &&& forall|p: SheetPos| #[trigger] a.html_cells@.contains(p) ==> b.html_cells@.contains(p)
    &&& forall|p: SheetPos| #[trigger] a.image_cells@.contains(p) ==> b.image_cells@.contains(p)
}

pub proof fn lemma_keeps_trans(a: PendingTransaction, b: PendingTransaction, c: PendingTransaction)
    requires
        keeps_signals(a, b),
        keeps_signals(b, c),
    ensures
        keeps_signals(a, c),
{
}

pub proof fn lemma_keeps_signaled(a: PendingTransaction, b: PendingTransaction, id: SheetId, c: (int, int), kind: CodeRunKind)
    requires
        keeps_signals(a, b),
        signaled(a, id, c, kind),
    ensures
        signaled(b, id, c, kind),
{
}

pub proof fn lemma_with_contains<T>(s: Seq<T>, x: T, y: T)
    ensures
        with(s, x).contains(y) == (s.contains(y) || y == x),
{
    if !s.contains(x) {
        assert(s.push(x)[s.len() as int] == x);
        if s.push(x).contains(y) && y != x {
            let i = choose|i: int| 0 <= i < s.push(x).len() && s.push(x)[i] == y;
            assert(s[i] == y);
        }
        if s.contains(y) {
            let i = choose|i: int| 0 <= i < s.len() && s[i] == y;
            assert(s.push(x)[i] == y);
        }
    }
}

/// Signals that the code cell at `pos` changed, and its rich output if any.
fn signal_code(transaction: &mut PendingTransaction, id: SheetId, pos: Pos, kind: CodeRunKind)
    ensures
        final(transaction).reverse_operations == old(transaction).reverse_operations,
        final(transaction).fill_cells == old(transaction).fill_cells,
        final(transaction).sheet_borders == old(transaction).sheet_borders,
        final(transaction).offsets_modified == old(transaction).offsets_modified,
        final(transaction).undoable == old(transaction).undoable,
        final(transaction).server == old(transaction).server,
        final(transaction).code_cells@ == with(old(transaction).code_cells@, SheetPos { sheet_id: id, x: pos.x, y: pos.y }),
        signaled(*final(transaction), id, key(pos), kind),
        keeps_signals(*old(transaction), *final(transaction)),
{
    let sp = SheetPos::new(id, pos.x, pos.y);
    match kind {
        CodeRunKind::Html => add_pos(&mut transaction.html_cells, sp),
        CodeRunKind::Image => add_pos(&mut transaction.image_cells, sp),
        CodeRunKind::Plain => {},
    }
    add_pos(&mut transaction.code_cells, sp);
    proof {
        assert forall|p: SheetPos| true implies (#[trigger] with(old(transaction).code_cells@, sp).contains(p))
            == (old(transaction).code_cells@.contains(p) || p == sp) by {
            lemma_with_contains(old(transaction).code_cells@, sp, p);
        }
        assert forall|p: SheetPos| true implies (#[trigger] with(old(transaction).html_cells@, sp).contains(p))
            == (old(transaction).html_cells@.contains(p) || p == sp) by {
            lemma_with_contains(old(transaction).html_cells@, sp, p);
        }
        assert forall|p: SheetPos| true implies (#[trigger] with(old(transaction).image_cells@, sp).contains(p))
            == (old(transaction).image_cells@.contains(p) || p == sp) by {
            lemma_with_contains(old(transaction).image_cells@, sp, p);
        }
    }
}

/// Signals each moved code cell, at its old and its new row.
fn signal_moved(transaction: &mut PendingTransaction, id: SheetId, moved: &Vec<(Pos, CodeRunKind)>, down: bool)
    requires
        forall|t: int| 0 <= t < moved@.len() ==> if down {
            (#[trigger] moved@[t]).0.y < i64::MAX
        } else {
            moved@[t].0.y > i64::MIN
        },
    ensures
        final(transaction).reverse_operations == old(transaction).reverse_operations,
        final(transaction).fill_cells == old(transaction).fill_cells,
        final(transaction).sheet_borders == old(transaction).sheet_borders,
        final(transaction).offsets_modified == old(transaction).offsets_modified,
        final(transaction).undoable == old(transaction).undoable,
        final(transaction).server == old(transaction).server,
        keeps_signals(*old(transaction), *final(transaction)),
        forall|t: int| 0 <= t < moved@.len() ==> signaled(*final(transaction), id, key((#[trigger] moved@[t]).0), moved@[t].1)
            && signaled(*final(transaction), id, (moved@[t].0.x as int, if down { moved@[t].0.y + 1 } else { moved@[t].0.y - 1 }), moved@[t].1),
{
    let mut i: usize = 0;
    while i < moved.len()
        invariant
            i <= moved@.len(),
            forall|t: int| 0 <= t < moved@.len() ==> if down {
                (#[trigger] moved@[t]).0.y < i64::MAX
            } else {
                moved@[t].0.y > i64::MIN
            },
            transaction.reverse_operations == old(transaction).reverse_operations,
            transaction.fill_cells == old(transaction).fill_cells,
            transaction.sheet_borders == old(transaction).sheet_borders,
            transaction.offsets_modified == old(transaction).offsets_modified,
            transaction.undoable == old(transaction).undoable,
            transaction.server == old(transaction).server,
            keeps_signals(*old(transaction), *transaction),
            forall|t: int| 0 <= t < i ==> signaled(*transaction, id, key((#[trigger] moved@[t]).0), moved@[t].1)
                && signaled(*transaction, id, (moved@[t].0.x as int, if down { moved@[t].0.y + 1 } else { moved@[t].0.y - 1 }), moved@[t].1),
        decreases moved@.len() - i,
    {
        let (old_pos, kind) = moved[i];
        proof {
            assert(if down { moved@[i as int].0.y < i64::MAX } else { moved@[i as int].0.y > i64::MIN });
        }
        let new_pos = if down {
            Pos { x: old_pos.x, y: old_pos.y + 1 }
        } else {
            Pos { x: old_pos.x, y: old_pos.y - 1 }
        };
        let ghost t0 = *transaction;
        signal_code(transaction, id, old_pos, kind);
        let ghost t1 = *transaction;
        signal_code(transaction, id, new_pos, kind);
        proof {
            lemma_keeps_trans(t0, t1, *transaction);
            lemma_keeps_trans(*old(transaction), t0, *transaction);
            assert forall|t: int| 0 <= t < i + 1 implies signaled(*transaction, id, key((#[trigger] moved@[t]).0), moved@[t].1)
                && signaled(*transaction, id, (moved@[t].0.x as int, if down { moved@[t].0.y + 1 } else { moved@[t].0.y - 1 }), moved@[t].1) by {
                if t < i {
                    lemma_keeps_signaled(t0, *transaction, id, key(moved@[t].0), moved@[t].1);
                    lemma_keeps_signaled(t0, *transaction, id, (moved@[t].0.x as int, if down { moved@[t].0.y + 1 } else { moved@[t].0.y - 1 }), moved@[t].1);
                } else {
                    lemma_keeps_signaled(t1, *transaction, id, key(old_pos), kind);
                }
            }
        }
        i = i + 1;
    }
}

/// Removes every code result of row `row`, signalling each.
fn remove_code_runs_in_row(runs: &mut CodeRuns, transaction: &mut PendingTransaction, id: SheetId, row: i64)
    requires
        old(runs).wf(),
    ensures
        final(runs).wf(),
        final(runs)@ == old(runs)@.restrict(Set::new(|c: (int, int)| c.1 != row)),
        final(transaction).reverse_operations == old(transaction).reverse_operations,
        final(transaction).fill_cells == old(transaction).fill_cells,
        final(transaction).sheet_borders == old(transaction).sheet_borders,
        final(transaction).offsets_modified == old(transaction).offsets_modified,
        final(transaction).undoable == old(transaction).undoable,
        final(transaction).server == old(transaction).server,
        keeps_signals(*old(transaction), *final(transaction)),
        forall|c: (int, int)| #[trigger] old(runs)@.contains_key(c) && c.1 == row ==> signaled(*final(transaction), id, c, old(runs)@[c].kind),
        keeps_order(*old(runs), *final(runs)),
{
    let ghost pre = runs@;
    let ghost start = *runs;
    proof {
        assert forall|i: int, j: int| 0 <= i < j < start.positions@.len()
            implies start.index_of(key(#[trigger] start.positions@[i])) < start.index_of(key(#[trigger] start.positions@[j])) by {
            start.lemma_entry(i);
            start.lemma_entry(j);
        }
    }
    loop
        invariant
            runs.wf(),
            pre == old(runs)@,
            forall|c: (int, int)| #[trigger] runs@.contains_key(c) ==> pre.contains_key(c) && runs@[c] == pre[c],
            forall|c: (int, int)| c.1 != row ==> (#[trigger] runs@.contains_key(c) == pre.contains_key(c)),
            transaction.reverse_operations == old(transaction).reverse_operations,
            transaction.fill_cells == old(transaction).fill_cells,
            transaction.sheet_borders == old(transaction).sheet_borders,
            transaction.offsets_modified == old(transaction).offsets_modified,
            transaction.undoable == old(transaction).undoable,
            transaction.server == old(transaction).server,
            keeps_signals(*old(transaction), *transaction),
            forall|c: (int, int)| #[trigger] pre.contains_key(c) && c.1 == row && !runs@.contains_key(c) ==> signaled(*transaction, id, c, pre[c].kind),
            start == *old(runs),
            keeps_order(start, *runs),
        ensures
            keeps_order(start, *runs),
            runs.wf(),
            forall|c: (int, int)| #[trigger] runs@.contains_key(c) ==> pre.contains_key(c) && runs@[c] == pre[c] && c.1 != row,
            forall|c: (int, int)| c.1 != row ==> (#[trigger] runs@.contains_key(c) == pre.contains_key(c)),
            transaction.reverse_operations == old(transaction).reverse_operations,
            transaction.fill_cells == old(transaction).fill_cells,
            transaction.sheet_borders == old(transaction).sheet_borders,
            transaction.offsets_modified == old(transaction).offsets_modified,
            transaction.undoable == old(transaction).undoable,
            transaction.server == old(transaction).server,
            keeps_signals(*old(transaction), *transaction),
            forall|c: (int, int)| #[trigger] pre.contains_key(c) && c.1 == row && !runs@.contains_key(c) ==> signaled(*transaction, id, c, pre[c].kind),
        decreases runs.positions@.len(),
    {
        let ghost before = *runs;
        match runs.take_first_in_row(row) {
            Some((pos, run)) => {
                proof {
                    let i0 = choose|i: int| 0 <= i < before.positions@.len() && runs.positions@ == before.positions@.remove(i);
                    assert forall|a: int, b: int| 0 <= a < b < runs.positions@.len()
                        implies start.index_of(key(#[trigger] runs.positions@[a])) < start.index_of(key(#[trigger] runs.positions@[b])) by {
                        let a2 = if a < i0 { a } else { a + 1 };
                        let b2 = if b < i0 { b } else { b + 1 };
                        assert(runs.positions@[a] == before.positions@[a2]);
                        assert(runs.positions@[b] == before.positions@[b2]);
                    }
                }
                let ghost t0 = *transaction;
                let ghost r0 = runs@;
                signal_code(transaction, id, pos, run.kind);
                proof {
                    lemma_keeps_trans(*old(transaction), t0, *transaction);
                    assert forall|c: (int, int)| #[trigger] pre.contains_key(c) && c.1 == row && !runs@.contains_key(c) implies signaled(*transaction, id, c, pre[c].kind) by {
                        if c != key(pos) {
                            assert(!r0.contains_key(c));
                            lemma_keeps_signaled(t0, *transaction, id, c, pre[c].kind);
                        }
                    }
                }
            },
            None => {
                break;
            },
        }
    }
    proof {
        assert(runs@ =~= pre.restrict(Set::new(|c: (int, int)| c.1 != row)));
    }
}

/// Some row format at or below row `row` has a fill colour.
pub open spec fn row_fill_from(rows: Map<int, RowFormat>, row: int) -> bool {
    exists|k: int| #[trigger] rows.contains_key(k) && k >= row && rows[k].format.fill_color is Some
}

impl Sheet {
    fn rows_fill_from(&self, row: i64) -> (r: bool)
        requires
            self.wf(),
        ensures
            r == row_fill_from(self.formats_rows@, row as int),
    {
        let mut i: usize = 0;
        while i < self.formats_rows.keys.len()
            invariant
                self.wf(),
                i <= self.formats_rows.keys@.len(),
                forall|j: int| 0 <= j < i ==> !(self.formats_rows.keys@[j] >= row && (#[trigger] self.formats_rows.vals@[j]).format.fill_color is Some),
            decreases self.formats_rows.keys@.len() - i,
        {
            if self.formats_rows.keys[i] >= row && self.formats_rows.vals[i].format.fill_color.is_some() {
                proof {
                    self.formats_rows.lemma_entry(i as int);
                }
                return true;
            }
            i = i + 1;
        }
        proof {
            if row_fill_from(self.formats_rows@, row as int) {
                let k = choose|k: int| #[trigger] self.formats_rows@.contains_key(k) && k >= row && self.formats_rows@[k].format.fill_color is Some;
                let j = self.formats_rows.index_of(k);
                assert(self.formats_rows.vals@[j].format.fill_color is Some);
            }
        }
        false
    }
}

/// `b` is sheet `a` with row `row` deleted: every store loses what stood in
/// the row, and what lay below it moves up by one.
pub open spec fn row_deleted(a: Sheet, b: Sheet, row: int) -> bool {
    &&& b.wf()
    &&& b.id == a.id
    &&& b.values_grid() == rows_left(a.values_grid(), row)
    &&& format_grid_closed(a, b, row)
    &&& b.formats_rows@ == shifted_left(a.formats_rows@, row)
    &&& b.code_runs@ == rows_left(a.code_runs@, row)
    &&& relocated_order(a.code_runs, b.code_runs, row as i64, false, false)
    &&& b.borders.top_cells() == rows_left(a.borders.top_cells(), row)
    &&& b.borders.bottom_cells() == rows_left(a.borders.bottom_cells(), row)
    &&& b.borders.left_cells() == rows_left(a.borders.left_cells(), row)
    &&& b.borders.right_cells() == rows_left(a.borders.right_cells(), row)
    &&& b.borders.rows@ == shifted_left(a.borders.rows@, row)
    &&& b.borders.columns@ == a.borders.columns@
    &&& b.offsets.rows@ == shifted_left(a.offsets.rows@, row)
}

impl Sheet {
    /// The four snapshots taken before row `row` is removed: values, formats,
    /// code results and borders; all empty when the edit is not undoable.
    pub open spec fn snapshot_ok(&self, undoable: bool, row: int, a: Seq<Operation>, b: Seq<Operation>, c: Seq<Operation>, d: Seq<Operation>) -> bool {
        if undoable {
            &&& self.values_ops_ok(row, a)
            &&& self.formats_ops_ok(row, b)
            &&& self.code_ops_ok(row, c)
            &&& self.borders.row_ops_ok(self.id, row, d)
        } else {
            a.len() == 0 && b.len() == 0 && c.len() == 0 && d.len() == 0
        }
    }

    /// The reverse operations that removing row `row` appends to `before`:
    /// the snapshots, the reverse resize, and last the re-insertion of the row,
    /// so that a replay from the end first brings the row back and then its
    /// contents.
    pub open spec fn delete_reverse_ok(&self, undoable: bool, row: int, before: Seq<Operation>, after: Seq<Operation>) -> bool {
        exists|a: Seq<Operation>, b: Seq<Operation>, c: Seq<Operation>, d: Seq<Operation>|
            #[trigger] self.snapshot_ok(undoable, row, a, b, c, d) && after == before + a + b + c + d
                + resize_part(self.offsets.rows@, self.id, row)
                + seq![Operation::InsertRow { sheet_id: self.id, row: row as i64, copy_formats: CopyFormats::NoCopy }]
    }

    /// Deletes row `row` from every store of the sheet, shifting what lies
    /// below it up by one, and records how to undo it.
    pub fn delete_row(&mut self, transaction: &mut PendingTransaction, row: i64)
        requires
            old(self).wf(),
        ensures
            row_deleted(*old(self), *final(self), row as int),
            old(self).delete_reverse_ok(old(transaction).undoable, row as int, old(transaction).reverse_operations@, final(transaction).reverse_operations@),
            final(transaction).sheet_borders@ == if old(self).borders.row_remove_touches(row as int) {
                with(old(transaction).sheet_borders@, old(self).id)
            } else {
                old(transaction).sheet_borders@
            },
            final(transaction).fill_cells@ == if row_fill_from(old(self).formats_rows@, row as int) || fill_reaches(old(self).columns@, row as int) {
                with(old(transaction).fill_cells@, old(self).id)
            } else {
                old(transaction).fill_cells@
            },
            keeps_signals(*old(transaction), *final(transaction)),
            forall|c: (int, int)| #[trigger] old(self).code_runs@.contains_key(c) && c.1 == row
                ==> signaled(*final(transaction), old(self).id, c, old(self).code_runs@[c].kind),
            forall|c: (int, int)| #[trigger] old(self).code_runs@.contains_key(c) && c.1 > row
                ==> signaled(*final(transaction), old(self).id, c, old(self).code_runs@[c].kind)
                && signaled(*final(transaction), old(self).id, (c.0, c.1 - 1), old(self).code_runs@[c].kind),
            final(transaction).undoable == old(transaction).undoable,
            final(transaction).server == old(transaction).server,
    {
        let ghost pre = *self;
        let ghost rev0 = transaction.reverse_operations@;
        let ghost fill0 = transaction.fill_cells@;
        let mut a: Vec<Operation> = Vec::new();
        let mut b: Vec<Operation> = Vec::new();
        let mut c: Vec<Operation> = Vec::new();
        let mut d: Vec<Operation> = Vec::new();
        if transaction.is_user_undo_redo() {
            a = self.reverse_values_ops_for_row(row);
            b = self.reverse_formats_ops_for_row(row);
            c = self.code_runs_for_row(row);
            d = self.borders.get_row_ops(self.id, row);
        }
        let ghost ga = a@;
        let ghost gb = b@;
        let ghost gc = c@;
        let ghost gd = d@;
        proof {
            assert(pre.snapshot_ok(transaction.undoable, row as int, ga, gb, gc, gd));
        }
        transaction.reverse_operations.append(&mut a);
        transaction.reverse_operations.append(&mut b);
        transaction.reverse_operations.append(&mut c);
        transaction.reverse_operations.append(&mut d);

        self.delete_row_offset(transaction, row);

        // remove the row's code results
        let ghost ts0 = *transaction;
        remove_code_runs_in_row(&mut self.code_runs, transaction, self.id, row);
        let ghost ts1 = *transaction;

        // mark the rows from here down dirty
        transaction.dirty_rows.push((self.id, row));

        // remove the row's own format and shift the ones below it up
        let row_fill = self.rows_fill_from(row);
        self.formats_rows.remove_and_shift_left(row);
        if row_fill {
            add_sheet(&mut transaction.fill_cells, self.id);
        }
        let ghost fill1 = transaction.fill_cells@;

        // remove the row's borders
        let ghost sb0 = transaction.sheet_borders@;
        if self.borders.remove_row(row) {
            add_sheet(&mut transaction.sheet_borders, self.id);
        }
        let ghost sb1 = transaction.sheet_borders@;

        let ghost s1 = *self;
        self.delete_and_shift_values(row);
        let ghost s2 = *self;

        // move the code results below the row up
        let ghost mid_runs = self.code_runs@;
        let ghost mid_code = self.code_runs;
        let moved = self.code_runs.shift_rows_up(row);
        let ghost end_code = self.code_runs;
        let ghost ts2 = *transaction;
        signal_moved(transaction, self.id, &moved, false);
        let ghost ts3 = *transaction;

        let ghost cols_mid = self.columns@;
        let ghost mid = *self;
        self.formats_remove_and_shift_up(transaction, row);

        transaction.reverse_operations.push(Operation::InsertRow { sheet_id: self.id, row, copy_formats: CopyFormats::NoCopy });
        proof {
            assert(keeps_signals(ts0, ts1));
            assert(keeps_signals(ts1, ts2));
            assert(keeps_signals(ts3, *transaction));
            lemma_keeps_trans(ts0, ts1, ts2);
            lemma_keeps_trans(ts0, ts2, ts3);
            lemma_keeps_trans(ts0, ts3, *transaction);
            assert(keeps_signals(*old(transaction), ts0));
            assert forall|c: (int, int)| #[trigger] pre.code_runs@.contains_key(c) && c.1 == row
                implies signaled(*transaction, pre.id, c, pre.code_runs@[c].kind) by {
                lemma_keeps_trans(ts1, ts2, ts3);
                lemma_keeps_trans(ts1, ts3, *transaction);
                lemma_keeps_signaled(ts1, *transaction, pre.id, c, pre.code_runs@[c].kind);
            }
            assert forall|c: (int, int)| #[trigger] pre.code_runs@.contains_key(c) && c.1 > row
                implies signaled(*transaction, pre.id, c, pre.code_runs@[c].kind)
                && signaled(*transaction, pre.id, (c.0, c.1 - 1), pre.code_runs@[c].kind) by {
                assert(mid_runs.contains_key(c));
                let t = choose|t: int| 0 <= t < moved@.len() && key((#[trigger] moved@[t]).0) == c && moved@[t].1 == mid_runs[c].kind;
                lemma_keeps_signaled(ts3, *transaction, pre.id, c, pre.code_runs@[c].kind);
                lemma_keeps_signaled(ts3, *transaction, pre.id, (c.0, c.1 - 1), pre.code_runs@[c].kind);
            }
            assert(self.code_runs@ =~= rows_left(pre.code_runs@, row as int));
            assert forall|i: int, j: int| 0 <= i < j < end_code.positions@.len() && !crate::code::in_tail(#[trigger] end_code.positions@[j], row, false)
                implies pre.code_runs.index_of(key(#[trigger] end_code.positions@[i])) < pre.code_runs.index_of(key(end_code.positions@[j])) by {
                let ki = key(end_code.positions@[i]);
                let kj = key(end_code.positions@[j]);
                assert(mid_code.index_of(ki) < mid_code.index_of(kj));
                end_code.lemma_entry(i);
                end_code.lemma_entry(j);
                assert(!crate::code::in_tail(end_code.positions@[i], row, false));
                assert(mid_runs.contains_key(ki) && mid_runs.contains_key(kj));
                let ti = mid_code.index_of(ki);
                let tj = mid_code.index_of(kj);
                mid_code.lemma_entry(ti);
                mid_code.lemma_entry(tj);
                assert(pre.code_runs.index_of(key(mid_code.positions@[ti])) < pre.code_runs.index_of(key(mid_code.positions@[tj])));
            }
            assert forall|x: int, y: int| #[trigger] self.format_grid(x, y) == if y < row {
                pre.format_grid(x, y)
            } else {
                pre.format_grid(x, y + 1)
            } by {
                assert(s2.format_grid(x, y) == s1.format_grid(x, y));
                assert(s2.format_grid(x, y + 1) == s1.format_grid(x, y + 1));
                assert(s1.columns == pre.columns);
                assert(mid.columns == s2.columns);
            }
            assert(fill_reaches(cols_mid, row as int) == fill_reaches(pre.columns@, row as int)) by {
                if fill_reaches(cols_mid, row as int) {
                    let x = choose|x: int| #[trigger] cols_mid.contains_key(x) && has_key_from(cols_mid[x].fill_color@, row as int);
                    assert(pre.columns@.contains_key(x));
                }
                if fill_reaches(pre.columns@, row as int) {
                    let x = choose|x: int| #[trigger] pre.columns@.contains_key(x) && has_key_from(pre.columns@[x].fill_color@, row as int);
                    assert(cols_mid.contains_key(x));
                }
            }
            lemma_with_twice(fill0, pre.id);
            assert(transaction.reverse_operations@ == rev0 + ga + gb + gc + gd
                + resize_part(pre.offsets.rows@, pre.id, row as int)
                + seq![Operation::InsertRow { sheet_id: pre.id, row, copy_formats: CopyFormats::NoCopy }]);
        }
    }
}

/// Column `b` is `a` with the cell format of row `src` copied onto row
/// `row`, where `src` has one.
pub open spec fn format_copied(a: Column, b: Column, src: int, row: int) -> bool {
    &&& b.wf()
    &&& b.values == a.values
    &&& forall|y: int| y != row ==> #[trigger] b.format_spec(y) == a.format_spec(y)
    &&& b.format_spec(row) == if a.format_spec(src) != blank_format() {
        a.format_spec(src)
    } else {
        a.format_spec(row)
    }
}

/// The row an inserted row takes its formats from.
pub open spec fn copy_source(row: int, copy: CopyFormats) -> int {
    match copy {
        CopyFormats::After => row + 1,
        CopyFormats::Before => row - 1,
        CopyFormats::NoCopy => row,
    }
}

/// Row `src` has a fill colour: in one of its cells, or in its own format.
pub open spec fn copy_fills(a: Sheet, src: int) -> bool {
    (exists|x: int| (#[trigger] a.format_grid(x, src)).fill_color is Some)
        || (a.formats_rows@.contains_key(src) && a.formats_rows@[src].format.fill_color is Some)
}

pub proof fn lemma_replace_format(f: Format, g: Format)
    ensures
        update_format(f, g.replace_spec()) == g,
{
}

impl Sheet {
    /// Copies the formats of the neighbouring row that `copy_formats` names
    /// onto row `row`: every cell format of that row, and the row's own
    /// format. No reverse operation is needed: undoing the insertion deletes
    /// the whole row, copies included.
    pub fn copy_row_formats(&mut self, transaction: &mut PendingTransaction, row: i64, copy_formats: CopyFormats)
        requires
            old(self).wf(),
            copy_formats == CopyFormats::After ==> row < i64::MAX,
            copy_formats == CopyFormats::Before ==> row > i64::MIN,
        ensures
            final(self).wf(),
            copy_formats == CopyFormats::NoCopy ==> *final(self) == *old(self) && *final(transaction) == *old(transaction),
            final(self).id == old(self).id,
            final(self).values_grid() == old(self).values_grid(),
            forall|x: int, y: int| y != row ==> #[trigger] final(self).format_grid(x, y) == old(self).format_grid(x, y),
            forall|x: int| #[trigger] final(self).format_grid(x, row as int) == if old(self).format_grid(x, copy_source(row as int, copy_formats)) != blank_format() {
                old(self).format_grid(x, copy_source(row as int, copy_formats))
            } else {
                old(self).format_grid(x, row as int)
            },
            forall|k: int| k != row ==> #[trigger] final(self).formats_rows@.contains_key(k) == old(self).formats_rows@.contains_key(k),
            forall|k: int| k != row && #[trigger] old(self).formats_rows@.contains_key(k) ==> final(self).formats_rows@[k] == old(self).formats_rows@[k],
            old(self).formats_rows@.contains_key(copy_source(row as int, copy_formats)) ==> final(self).formats_rows@.contains_key(row as int)
                && final(self).formats_rows@[row as int].format == old(self).formats_rows@[copy_source(row as int, copy_formats)].format,
            !old(self).formats_rows@.contains_key(copy_source(row as int, copy_formats)) ==> final(self).formats_rows@.contains_key(row as int)
                == old(self).formats_rows@.contains_key(row as int) && final(self).formats_rows@[row as int] == old(self).formats_rows@[row as int],
            final(self).code_runs == old(self).code_runs,
            final(self).borders == old(self).borders,
            final(self).offsets == old(self).offsets,
            final(transaction).fill_cells@ == if copy_formats != CopyFormats::NoCopy && copy_fills(*old(self), copy_source(row as int, copy_formats)) {
                with(old(transaction).fill_cells@, old(self).id)
            } else {
                old(transaction).fill_cells@
            },
            final(transaction).reverse_operations == old(transaction).reverse_operations,
            final(transaction).sheet_borders == old(transaction).sheet_borders,
            final(transaction).offsets_modified == old(transaction).offsets_modified,
            final(transaction).undoable == old(transaction).undoable,
            final(transaction).server == old(transaction).server,
            final(transaction).code_cells == old(transaction).code_cells,
            final(transaction).html_cells == old(transaction).html_cells,
            final(transaction).image_cells == old(transaction).image_cells,
    {
        let src = match copy_formats {
            CopyFormats::After => row + 1,
            CopyFormats::Before => row - 1,
            CopyFormats::NoCopy => {
                return;
            },
        };
        let ghost pre = self.columns;
        let n = self.columns.keys.len();
        let mut fill = false;
        let mut i: usize = 0;
        while i < n
            invariant
                columns_wf(pre),
                pre == old(self).columns,
                old(self).wf(),
                src != row,
                self.id == old(self).id,
                self.formats_rows == old(self).formats_rows,
                self.code_runs == old(self).code_runs,
                self.borders == old(self).borders,
                self.offsets == old(self).offsets,
                n == pre.keys@.len(),
                self.columns.keys@ == pre.keys@,
                self.columns.vals@.len() == n,
                i <= n,
                forall|j: int| 0 <= j < i ==> format_copied(pre.vals@[j], #[trigger] self.columns.vals@[j], src as int, row as int),
                forall|j: int| i <= j < n ==> #[trigger] self.columns.vals@[j] == pre.vals@[j],
                fill == exists|j: int| 0 <= j < i && (#[trigger] pre.vals@[j]).format_spec(src as int).fill_color is Some,
            decreases n - i,
        {
            proof {
                pre.lemma_entry(i as int);
            }
            if self.columns.vals[i].has_format(src) {
                let f = self.columns.vals[i].format_at(src);
                if f.fill_color.is_some() {
                    fill = true;
                }
                let ghost f0 = self.columns.vals@[i as int].format_spec(row as int);
                self.columns.vals[i].apply_format(row, f.to_replace());
                proof {
                    lemma_replace_format(f0, f);
                }
            }
            i = i + 1;
        }
        proof {
            let p = |a: Column, b: Column| format_copied(a, b, src as int, row as int);
            SparseAxis::lemma_pointwise(&pre, &self.columns, p);
            assert forall|x: int| #[trigger] self.columns@.contains_key(x) implies format_copied(pre@[x], self.columns@[x], src as int, row as int) by {
                assert(pre@.contains_key(x));
            }
            assert(self.values_grid() =~= old(self).values_grid());
            if fill {
                let j = choose|j: int| 0 <= j < n && (#[trigger] pre.vals@[j]).format_spec(src as int).fill_color is Some;
                pre.lemma_entry(j);
                assert(old(self).format_grid(pre.keys@[j] as int, src as int).fill_color is Some);
            }
            if exists|x: int| (#[trigger] old(self).format_grid(x, src as int)).fill_color is Some {
                let x = choose|x: int| (#[trigger] old(self).format_grid(x, src as int)).fill_color is Some;
                let j = pre.index_of(x);
                assert(pre.vals@[j].format_spec(src as int).fill_color is Some);
            }
            lemma_with_twice(old(transaction).fill_cells@, self.id);
        }
        if fill {
            add_sheet(&mut transaction.fill_cells, self.id);
        }
        match self.formats_rows.get(src) {
            Some(rf) => {
                let format = rf.format.duplicate();
                if format.fill_color.is_some() {
                    add_sheet(&mut transaction.fill_cells, self.id);
                }
                let stamp = now_stamp();
                self.formats_rows.set(row, RowFormat { format, stamp });
            },
            None => {},
        }
    }
}

/// `b` is sheet `a` with a row inserted at `row`: what lay at or below it
/// moves down by one, and the new row is blank but for the formats copied
/// from the neighbour that `copy` names.
pub open spec fn row_inserted(a: Sheet, b: Sheet, row: int, copy: CopyFormats) -> bool {
    &&& b.wf()
    &&& b.id == a.id
    &&& b.values_grid() == rows_right(a.values_grid(), row)
    &&& forall|x: int, y: int| y != row ==> #[trigger] b.format_grid(x, y) == if y < row {
        a.format_grid(x, y)
    } else {
        a.format_grid(x, y - 1)
    }
    &&& forall|x: int| #[trigger] b.format_grid(x, row) == a.copied_format(x, row, copy)
    &&& forall|k: int| k != row ==> (#[trigger] b.formats_rows@.contains_key(k)) == shifted_right(a.formats_rows@, row).contains_key(k)
    &&& forall|k: int| k != row && #[trigger] b.formats_rows@.contains_key(k) ==> b.formats_rows@[k] == shifted_right(a.formats_rows@, row)[k]
    &&& b.formats_rows@.contains_key(row) == (copy != CopyFormats::NoCopy
        && a.formats_rows@.contains_key(Sheet::copied_row(row, copy)))
    &&& b.formats_rows@.contains_key(row) ==> b.formats_rows@[row].format
        == a.formats_rows@[Sheet::copied_row(row, copy)].format
    &&& b.code_runs@ == rows_right(a.code_runs@, row)
    &&& relocated_order(a.code_runs, b.code_runs, row as i64, true, true)
    &&& b.borders.top_cells() == rows_right(a.borders.top_cells(), row)
    &&& b.borders.bottom_cells() == rows_right(a.borders.bottom_cells(), row)
    &&& b.borders.left_cells() == rows_right(a.borders.left_cells(), row)
    &&& b.borders.right_cells() == rows_right(a.borders.right_cells(), row)
    &&& b.borders.rows@ == shifted_right(a.borders.rows@, row)
    &&& b.borders.columns@ == a.borders.columns@
    &&& b.offsets.rows@ == shifted_right(a.offsets.rows@, row)
}

impl Sheet {
    /// Every store leaves room to open a row: no key sits on the last row.
    pub open spec fn room_for_row(&self) -> bool {
        &&& self.values_room()
        &&& self.formats_room()
        &&& keys_below(self.formats_rows@, i64::MAX as int)
        &&& keys_below(self.offsets.rows@, i64::MAX as int)
        &&& forall|c: (int, int)| #[trigger] self.code_runs@.contains_key(c) ==> c.1 < i64::MAX
        &&& self.borders.room_for_row()
    }

    /// The format that an inserted row's cell in column `x` ends with: that
    /// of the row it copies, before the insertion moved it.
    pub open spec fn copied_format(&self, x: int, row: int, copy: CopyFormats) -> Format {
        match copy {
            CopyFormats::After => self.format_grid(x, row),
            CopyFormats::Before => self.format_grid(x, row - 1),
            CopyFormats::NoCopy => blank_format(),
        }
    }

    /// The row whose own format an inserted row copies, before the insertion.
    pub open spec fn copied_row(row: int, copy: CopyFormats) -> int {
        match copy {
            CopyFormats::After => row,
            CopyFormats::Before => row - 1,
            CopyFormats::NoCopy => row,
        }
    }

    /// Inserts a blank row at `row` in every store of the sheet, shifting
    /// what lies at or below it down by one, then copies the formats of the
    /// neighbouring row that `copy_formats` names. Always records the deletion
    /// of the new row as its reverse: the new row holds nothing that an undo
    /// would have to restore.
    pub fn insert_row(&mut self, transaction: &mut PendingTransaction, row: i64, copy_formats: CopyFormats)
        requires
            old(self).wf(),
            old(self).room_for_row(),
            copy_formats == CopyFormats::After ==> row < i64::MAX,
            copy_formats == CopyFormats::Before ==> row > i64::MIN,
        ensures
            row_inserted(*old(self), *final(self), row as int, copy_formats),
            final(transaction).reverse_operations@ == old(transaction).reverse_operations@.push(Operation::DeleteRow { sheet_id: old(self).id, row }),
            final(transaction).sheet_borders@ == if old(self).borders.row_insert_touches(row as int) {
                with(old(transaction).sheet_borders@, old(self).id)
            } else {
                old(transaction).sheet_borders@
            },
            final(transaction).fill_cells@ == if fill_reaches(old(self).columns@, row as int) || (copy_formats
                != CopyFormats::NoCopy && copy_fills(*old(self), Self::copied_row(row as int, copy_formats))) {
                with(old(transaction).fill_cells@, old(self).id)
            } else {
                old(transaction).fill_cells@
            },
            keeps_signals(*old(transaction), *final(transaction)),
            forall|c: (int, int)| #[trigger] old(self).code_runs@.contains_key(c) && c.1 >= row
                ==> signaled(*final(transaction), old(self).id, c, old(self).code_runs@[c].kind)
                && signaled(*final(transaction), old(self).id, (c.0, c.1 + 1), old(self).code_runs@[c].kind),
            final(transaction).undoable == old(transaction).undoable,
            final(transaction).server == old(transaction).server,
    {
        let ghost pre = *self;
        let ghost fill0 = transaction.fill_cells@;
        // deleting the row again is the whole reverse
        transaction.reverse_operations.push(Operation::DeleteRow { sheet_id: self.id, row });

        // mark the rows from here down dirty
        transaction.dirty_rows.push((self.id, row));

        let ghost s0 = *self;
        self.insert_and_shift_values(row);
        let ghost s1 = *self;

        // move the code results at or below the row down
        let ghost runs0 = self.code_runs@;
        let ghost ts0 = *transaction;
        let moved = self.code_runs.shift_rows_down(row);
        signal_moved(transaction, self.id, &moved, true);
        let ghost ts1 = *transaction;

        let ghost s2 = *self;
        self.formats_insert_and_shift_down(row, transaction);
        let ghost s3 = *self;

        if self.borders.insert_row(row) {
            add_sheet(&mut transaction.sheet_borders, self.id);
        }

        self.formats_rows.insert_and_shift_right(row);

        let ghost s4 = *self;
        proof {
            assert forall|x: int, y: int| #[trigger] s4.format_grid(x, y) == if y < row {
                pre.format_grid(x, y)
            } else if y == row {
                blank_format()
            } else {
                pre.format_grid(x, y - 1)
            } by {
                assert(s1.format_grid(x, y) == s0.format_grid(x, y));
                assert(s1.format_grid(x, y - 1) == s0.format_grid(x, y - 1));
                assert(s2.columns == s1.columns);
                assert(s4.columns == s3.columns);
                assert(s3.format_grid(x, y) == if y < row {
                    s2.format_grid(x, y)
                } else if y == row {
                    blank_format()
                } else {
                    s2.format_grid(x, y - 1)
                });
            }
        }
        proof {
            assert(fill_reaches(s2.columns@, row as int) == fill_reaches(pre.columns@, row as int)) by {
                if fill_reaches(s2.columns@, row as int) {
                    let x = choose|x: int| #[trigger] s2.columns@.contains_key(x) && has_key_from(s2.columns@[x].fill_color@, row as int);
                    assert(pre.columns@.contains_key(x));
                }
                if fill_reaches(pre.columns@, row as int) {
                    let x = choose|x: int| #[trigger] pre.columns@.contains_key(x) && has_key_from(pre.columns@[x].fill_color@, row as int);
                    assert(s2.columns@.contains_key(x));
                }
            }
            if copy_formats != CopyFormats::NoCopy {
                let src = copy_source(row as int, copy_formats);
                let old_src = Self::copied_row(row as int, copy_formats);
                assert forall|x: int| #[trigger] s4.format_grid(x, src) == pre.format_grid(x, old_src) by {}
                assert(copy_fills(s4, src) == copy_fills(pre, old_src)) by {
                    if exists|x: int| (#[trigger] s4.format_grid(x, src)).fill_color is Some {
                        let x = choose|x: int| (#[trigger] s4.format_grid(x, src)).fill_color is Some;
                        assert(pre.format_grid(x, old_src).fill_color is Some);
                    }
                    if exists|x: int| (#[trigger] pre.format_grid(x, old_src)).fill_color is Some {
                        let x = choose|x: int| (#[trigger] pre.format_grid(x, old_src)).fill_color is Some;
                        assert(s4.format_grid(x, src).fill_color is Some);
                    }
                }
            }
            lemma_with_twice(fill0, pre.id);
        }
        self.copy_row_formats(transaction, row, copy_formats);
        let ghost s5 = *self;
        proof {
            assert forall|x: int| #[trigger] s5.format_grid(x, row as int) == pre.copied_format(x, row as int, copy_formats) by {
                assert(s4.format_grid(x, row as int) == blank_format());
                if copy_formats == CopyFormats::After {
                    assert(s4.format_grid(x, row + 1) == pre.format_grid(x, row as int));
                } else if copy_formats == CopyFormats::Before {
                    assert(s4.format_grid(x, row - 1) == pre.format_grid(x, row - 1));
                }
            }
            assert forall|x: int, y: int| y != row implies #[trigger] s5.format_grid(x, y) == if y < row {
                pre.format_grid(x, y)
            } else {
                pre.format_grid(x, y - 1)
            } by {
                assert(s4.format_grid(x, y) == s5.format_grid(x, y));
            }
        }

        let changes = self.offsets.insert_row(row);
        note_offsets(&mut transaction.offsets_modified, self.id, &changes, Ghost(self.offsets.rows@), row);
        proof {
            assert(keeps_signals(*old(transaction), ts0));
            assert(keeps_signals(ts1, *transaction));
            lemma_keeps_trans(*old(transaction), ts0, ts1);
            lemma_keeps_trans(*old(transaction), ts1, *transaction);
            assert forall|c: (int, int)| #[trigger] pre.code_runs@.contains_key(c) && c.1 >= row
                implies signaled(*transaction, pre.id, c, pre.code_runs@[c].kind)
                && signaled(*transaction, pre.id, (c.0, c.1 + 1), pre.code_runs@[c].kind) by {
                assert(runs0.contains_key(c));
                let t = choose|t: int| 0 <= t < moved@.len() && key((#[trigger] moved@[t]).0) == c && moved@[t].1 == runs0[c].kind;
                lemma_keeps_signaled(ts1, *transaction, pre.id, c, pre.code_runs@[c].kind);
                lemma_keeps_signaled(ts1, *transaction, pre.id, (c.0, c.1 + 1), pre.code_runs@[c].kind);
            }
            assert(self.columns == s5.columns);
            assert forall|x: int, y: int| #[trigger] self.format_grid(x, y) == s5.format_grid(x, y) by {}
        }
    }
}

} // verus!
