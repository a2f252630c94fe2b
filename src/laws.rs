//! Laws that relate the structural edits to one another.
use vstd::prelude::*;
use crate::axis::{shifted_right, lemma_shift_right_then_left};
use crate::borders::{Borders, rows_left, rows_right};
use crate::ops::CopyFormats;
use crate::row::{row_deleted, row_inserted};
use crate::runs::runs_wf;
use crate::sheet::{Sheet, cols_holding};
use crate::row::{op_len, op_start};
use crate::cell::CellValue;
use crate::format::blank_format;
use crate::ops::Operation;
use crate::borders::override_prefix;

verus! {

/// Closing a row right after opening it at the same place gives back the grid.
pub proof fn lemma_rows_right_then_left<V>(m: Map<(int, int), V>, row: int)
    ensures
        rows_left(rows_right(m, row), row) == m,
{
    assert(rows_left(rows_right(m, row), row) =~= m);
}

/// Inserting a row and then deleting that same row restores every store of
/// the sheet: values, cell and row formats, code results, borders and row
/// heights. Formats copied into the new row leave with it.
pub proof fn lemma_insert_then_delete_row(a: Sheet, b: Sheet, c: Sheet, row: int, copy: CopyFormats)
    requires
        a.wf(),
        row_inserted(a, b, row, copy),
        row_deleted(b, c, row),
    ensures
        c.values_grid() == a.values_grid(),
        forall|x: int, y: int| #[trigger] c.format_grid(x, y) == a.format_grid(x, y),
        c.formats_rows@ == a.formats_rows@,
        c.code_runs@ == a.code_runs@,
        c.borders.top_cells() == a.borders.top_cells(),
        c.borders.bottom_cells() == a.borders.bottom_cells(),
        c.borders.left_cells() == a.borders.left_cells(),
        c.borders.right_cells() == a.borders.right_cells(),
        c.borders.rows@ == a.borders.rows@,
        c.borders.columns@ == a.borders.columns@,
        c.offsets.rows@ == a.offsets.rows@,
{
    lemma_rows_right_then_left(a.values_grid(), row);
    lemma_rows_right_then_left(a.code_runs@, row);
    lemma_rows_right_then_left(a.borders.top_cells(), row);
    lemma_rows_right_then_left(a.borders.bottom_cells(), row);
    lemma_rows_right_then_left(a.borders.left_cells(), row);
    lemma_rows_right_then_left(a.borders.right_cells(), row);
    lemma_shift_right_then_left(a.borders.rows@, row);
    lemma_shift_right_then_left(a.offsets.rows@, row);
    assert forall|x: int, y: int| #[trigger] c.format_grid(x, y) == a.format_grid(x, y) by {
        if y < row {
            assert(b.format_grid(x, y) == a.format_grid(x, y));
        } else {
            assert(b.format_grid(x, y + 1) == a.format_grid(x, y));
        }
    }
    assert forall|k: int| #[trigger] c.formats_rows@.contains_key(k) == a.formats_rows@.contains_key(k)
        && (c.formats_rows@.contains_key(k) ==> c.formats_rows@[k] == a.formats_rows@[k]) by {
        if k < row {
            assert(b.formats_rows@.contains_key(k) == shifted_right(a.formats_rows@, row).contains_key(k));
        } else {
            assert(b.formats_rows@.contains_key(k + 1) == shifted_right(a.formats_rows@, row).contains_key(k + 1));
        }
    }
    assert(c.formats_rows@ =~= a.formats_rows@);
}

/// Deleting row `row` leaves everything above it where it was, in every store.
pub proof fn lemma_delete_keeps_rows_above(a: Sheet, b: Sheet, row: int)
    requires
        row_deleted(a, b, row),
    ensures
        forall|x: int, y: int| y < row ==> opt_grid(b.values_grid(), x, y) == opt_grid(a.values_grid(), x, y),
        forall|x: int, y: int| y < row ==> #[trigger] b.format_grid(x, y) == a.format_grid(x, y),
        forall|k: int| k < row ==> #[trigger] crate::axis::opt_at(b.formats_rows@, k) == crate::axis::opt_at(a.formats_rows@, k),
        forall|x: int, y: int| y < row ==> opt_grid(b.code_runs@, x, y) == opt_grid(a.code_runs@, x, y),
        forall|x: int, y: int| y < row ==> opt_grid(b.borders.top_cells(), x, y) == opt_grid(a.borders.top_cells(), x, y),
        forall|x: int, y: int| y < row ==> opt_grid(b.borders.bottom_cells(), x, y) == opt_grid(a.borders.bottom_cells(), x, y),
        forall|x: int, y: int| y < row ==> opt_grid(b.borders.left_cells(), x, y) == opt_grid(a.borders.left_cells(), x, y),
        forall|x: int, y: int| y < row ==> opt_grid(b.borders.right_cells(), x, y) == opt_grid(a.borders.right_cells(), x, y),
        forall|k: int| k < row ==> #[trigger] crate::axis::opt_at(b.offsets.rows@, k) == crate::axis::opt_at(a.offsets.rows@, k),
{
}

/// Inserting a row at `row` leaves everything above it where it was, in
/// every store.
pub proof fn lemma_insert_keeps_rows_above(a: Sheet, b: Sheet, row: int, copy: CopyFormats)
    requires
        row_inserted(a, b, row, copy),
    ensures
        forall|x: int, y: int| y < row ==> opt_grid(b.values_grid(), x, y) == opt_grid(a.values_grid(), x, y),
        forall|x: int, y: int| y < row ==> #[trigger] b.format_grid(x, y) == a.format_grid(x, y),
        forall|k: int| k < row ==> #[trigger] crate::axis::opt_at(b.formats_rows@, k) == crate::axis::opt_at(a.formats_rows@, k),
        forall|x: int, y: int| y < row ==> opt_grid(b.code_runs@, x, y) == opt_grid(a.code_runs@, x, y),
        forall|x: int, y: int| y < row ==> opt_grid(b.borders.top_cells(), x, y) == opt_grid(a.borders.top_cells(), x, y),
        forall|x: int, y: int| y < row ==> opt_grid(b.borders.bottom_cells(), x, y) == opt_grid(a.borders.bottom_cells(), x, y),
        forall|x: int, y: int| y < row ==> opt_grid(b.borders.left_cells(), x, y) == opt_grid(a.borders.left_cells(), x, y),
        forall|x: int, y: int| y < row ==> opt_grid(b.borders.right_cells(), x, y) == opt_grid(a.borders.right_cells(), x, y),
        forall|k: int| k < row ==> #[trigger] crate::axis::opt_at(b.offsets.rows@, k) == crate::axis::opt_at(a.offsets.rows@, k),
{
    assert forall|k: int| k < row implies #[trigger] crate::axis::opt_at(b.formats_rows@, k) == crate::axis::opt_at(a.formats_rows@, k) by {
        assert(b.formats_rows@.contains_key(k) == shifted_right(a.formats_rows@, row).contains_key(k));
    }
}

/// What a grid holds at `(x, y)`.
pub open spec fn opt_grid<V>(m: Map<(int, int), V>, x: int, y: int) -> Option<V> {
    crate::axis::opt_at(m, (x, y))
}

/// Every run kept by a well-formed border store covers at least one cell,
/// and the runs of a line stand in ascending order without overlapping.
/// Runs are never merged: two adjacent runs of one style may stand side by
/// side. Each edit of the store keeps it well formed.
pub proof fn lemma_border_runs_nonempty(b: Borders, key: int)
    requires
        b.wf(),
    ensures
        b.top@.contains_key(key) ==> runs_wf(b.top@[key].runs@),
        b.bottom@.contains_key(key) ==> runs_wf(b.bottom@[key].runs@),
        b.left@.contains_key(key) ==> runs_wf(b.left@[key].runs@),
        b.right@.contains_key(key) ==> runs_wf(b.right@[key].runs@),
{
}

/// Closing a row and then opening a blank row at the same place gives back
/// the grid everywhere but in that row, which is left empty.
pub proof fn lemma_rows_left_then_right<V>(m: Map<(int, int), V>, row: int)
    ensures
        rows_right(rows_left(m, row), row) == m.restrict(Set::new(|c: (int, int)| c.1 != row)),
{
    assert(rows_right(rows_left(m, row), row) =~= m.restrict(Set::new(|c: (int, int)| c.1 != row)));
}

/// Undoing a row deletion starts by inserting a blank row at the same place
/// (the last reverse operation recorded). That alone restores every store
/// outside the row; the row itself is left blank, and custom heights come
/// back once the recorded resize, if any, is replayed.
pub proof fn lemma_reinsert_restores_other_rows(a: Sheet, b: Sheet, c: Sheet, row: int)
    requires
        row_deleted(a, b, row),
        row_inserted(b, c, row, CopyFormats::NoCopy),
    ensures
        c.values_grid() == a.values_grid().restrict(Set::new(|p: (int, int)| p.1 != row)),
        forall|x: int, y: int| y != row ==> #[trigger] c.format_grid(x, y) == a.format_grid(x, y),
        forall|x: int| #[trigger] c.format_grid(x, row) == crate::format::blank_format(),
        forall|k: int| k != row ==> #[trigger] crate::axis::opt_at(c.formats_rows@, k) == crate::axis::opt_at(a.formats_rows@, k),
        !c.formats_rows@.contains_key(row),
        c.code_runs@ == a.code_runs@.restrict(Set::new(|p: (int, int)| p.1 != row)),
        c.borders.top_cells() == a.borders.top_cells().restrict(Set::new(|p: (int, int)| p.1 != row)),
        c.borders.bottom_cells() == a.borders.bottom_cells().restrict(Set::new(|p: (int, int)| p.1 != row)),
        c.borders.left_cells() == a.borders.left_cells().restrict(Set::new(|p: (int, int)| p.1 != row)),
        c.borders.right_cells() == a.borders.right_cells().restrict(Set::new(|p: (int, int)| p.1 != row)),
        c.borders.rows@ == a.borders.rows@.remove(row),
        c.borders.columns@ == a.borders.columns@,
        (if a.offsets.rows@.contains_key(row) {
            c.offsets.rows@.insert(row, a.offsets.rows@[row])
        } else {
            c.offsets.rows@
        }) == a.offsets.rows@,
{
    lemma_rows_left_then_right(a.values_grid(), row);
    lemma_rows_left_then_right(a.code_runs@, row);
    lemma_rows_left_then_right(a.borders.top_cells(), row);
    lemma_rows_left_then_right(a.borders.bottom_cells(), row);
    lemma_rows_left_then_right(a.borders.left_cells(), row);
    lemma_rows_left_then_right(a.borders.right_cells(), row);
    assert(c.borders.rows@ =~= a.borders.rows@.remove(row));
    assert forall|x: int, y: int| y != row implies #[trigger] c.format_grid(x, y) == a.format_grid(x, y) by {
        if y < row {
            assert(b.format_grid(x, y) == a.format_grid(x, y));
        } else {
            assert(b.format_grid(x, y - 1) == a.format_grid(x, y));
        }
    }
    assert forall|k: int| k != row implies #[trigger] crate::axis::opt_at(c.formats_rows@, k) == crate::axis::opt_at(a.formats_rows@, k) by {
        assert(c.formats_rows@.contains_key(k) == shifted_right(b.formats_rows@, row).contains_key(k));
    }
    if a.offsets.rows@.contains_key(row) {
        assert(c.offsets.rows@.insert(row, a.offsets.rows@[row]) =~= a.offsets.rows@);
    } else {
        assert(c.offsets.rows@ =~= a.offsets.rows@);
    }
}

/// The value a "set values" operation carries for its `i`-th cell.
pub open spec fn chunk_value(op: Operation, i: int) -> Option<CellValue> {
    match op {
        Operation::SetCellValues { sheet_pos, values } => values@[i],
        _ => None,
    }
}

/// Chunks from the `j`-th on cover every column from the start of the
/// `j`-th to the end of the last.
proof fn lemma_chunks_cover(a: Sheet, row: int, s: Seq<Operation>, j: int, x: int)
    requires
        a.values_ops_ok(row, s),
        s.len() > 0,
        0 <= j < s.len(),
        op_start(s[j]) <= x <= op_start(s.last()) + op_len(s.last()) - 1,
    ensures
        exists|k: int| 0 <= k < s.len() && op_start(s[k]) <= x < op_start(s[k]) + op_len(#[trigger] s[k]),
    decreases s.len() - j,
{
    if x < op_start(s[j]) + op_len(s[j]) {
        assert(op_start(s[j]) <= x < op_start(s[j]) + op_len(s[j]));
    } else {
        if j == s.len() - 1 {
            assert(s.last() == s[j]);
        } else {
            assert(op_start(s[j + 1]) == op_start(s[j]) + op_len(s[j]));
            lemma_chunks_cover(a, row, s, j + 1, x);
        }
    }
}

/// What deleting row `row` records before it deletes is enough to refill
/// the row: every value of the row is carried by some chunk at its column,
/// every cell format and the row's own format by the format operation, every
/// bordered cell by the border operation, and every code result of the row by
/// an operation that names its place in the order. (Together with the law
/// that re-inserting the row restores everything else, this is what undoing
/// a deletion relies on.)
pub proof fn lemma_delete_snapshot_complete(
    a: Sheet,
    row: int,
    sv: Seq<Operation>,
    sf: Seq<Operation>,
    sc: Seq<Operation>,
    sb: Seq<Operation>,
)
    requires
        a.wf(),
        a.snapshot_ok(true, row, sv, sf, sc, sb),
    ensures
        forall|x: int| #[trigger] a.values_grid().contains_key((x, row)) ==> exists|k: int, i: int|
            0 <= k < sv.len() && 0 <= i < op_len(sv[k]) && op_start(sv[k]) + i == x
                && #[trigger] chunk_value(sv[k], i) == Some(a.values_grid()[(x, row)]),
        forall|x: int| #[trigger] a.format_grid(x, row) != blank_format() ==> match sf[0] {
            Operation::SetCellFormatsSelection { selection, formats } => match selection.rects {
                Some(v) => v@[0].min.x <= x <= v@[0].max.x && formats@[a.row_format_prefix(row).len() + x - v@[0].min.x]
                    == a.format_grid(x, row).replace_spec(),
                None => false,
            },
            _ => false,
        } && sf.len() == 1,
        a.formats_rows@.contains_key(row) ==> sf.len() == 1 && match sf[0] {
            Operation::SetCellFormatsSelection { selection, formats } => formats@[0] == a.formats_rows@[row].format.replace_spec(),
            _ => false,
        },
        forall|x: int| #[trigger] a.borders.row_columns(row).contains(x) ==> sb.len() == 1 && match sb[0] {
            Operation::SetBordersSelection { selection, borders } => match selection.rects {
                Some(v) => v@[0].min.x <= x <= v@[0].max.x && borders@[override_prefix(a.borders.rows@, row).len() + x - v@[0].min.x]
                    == a.borders.cell_spec(x, row).override_spec(),
                None => false,
            },
            _ => false,
        },
        forall|i: int| 0 <= i < a.code_runs.positions@.len() && (#[trigger] a.code_runs.positions@[i]).y == row
            ==> exists|k: int| 0 <= k < sc.len() && Sheet::code_index(#[trigger] sc[k]) == i && a.code_op_for(sc[k], i),
{
    assert forall|x: int| #[trigger] a.values_grid().contains_key((x, row)) implies exists|k: int, i: int|
        0 <= k < sv.len() && 0 <= i < op_len(sv[k]) && op_start(sv[k]) + i == x
            && #[trigger] chunk_value(sv[k], i) == Some(a.values_grid()[(x, row)]) by {
        let held = cols_holding(a.columns@, row, false);
        assert(held.contains(x));
        if sv.len() == 0 {
            assert(!held.contains(x));
        }
        lemma_chunks_cover(a, row, sv, 0, x);
        let k = choose|k: int| 0 <= k < sv.len() && op_start(sv[k]) <= x < op_start(sv[k]) + op_len(#[trigger] sv[k]);
        let i = x - op_start(sv[k]);
        assert(a.values_chunk(row, sv[k]));
        assert(chunk_value(sv[k], i) == crate::axis::opt_at(a.values_grid(), (op_start(sv[k]) + i, row)));
    }
    assert forall|x: int| #[trigger] a.format_grid(x, row) != blank_format() implies match sf[0] {
        Operation::SetCellFormatsSelection { selection, formats } => match selection.rects {
            Some(v) => v@[0].min.x <= x <= v@[0].max.x && formats@[a.row_format_prefix(row).len() + x - v@[0].min.x]
                == a.format_grid(x, row).replace_spec(),
            None => false,
        },
        _ => false,
    } && sf.len() == 1 by {
        let held = cols_holding(a.columns@, row, true);
        assert(a.columns@.contains_key(x));
        assert(held.contains(x));
    }
}

} // verus!
