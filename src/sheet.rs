//! A sheet: per-column value and format axes, row formats, code results,
//! borders and row heights, all on one coordinate space.
use vstd::prelude::*;
use crate::axis::{SparseAxis, opt_at, shifted_left, shifted_right, keys_below, has_key_from};
use crate::borders::Borders;
use crate::runs::RunLine;
use crate::style::BorderStyleCell;
use crate::cell::{CellValue, CodeRun};
use crate::code::{CodeRuns, key};
use crate::format::{
    CellAlign, CellVerticalAlign, CellWrap, Format, FormatUpdate, NumericFormat, RenderSize,
    blank_format,
};
use crate::offsets::Offsets;
use crate::ops::{Pos, SheetId};
use crate::span::{spans, range_set, widen};

verus! {

/// The attribute after an update: kept, cleared, or set.
pub open spec fn updated<V>(o: Option<V>, u: Option<Option<V>>) -> Option<V> {
    match u {
        Some(n) => n,
        None => o,
    }
}

pub open spec fn applied<V>(m: Map<int, V>, k: int, u: Option<Option<V>>) -> Map<int, V> {
    match u {
        Some(Some(v)) => m.insert(k, v),
        Some(None) => m.remove(k),
        None => m,
    }
}

/// `f` with the update `u` laid over it.
pub open spec fn update_format(f: Format, u: FormatUpdate) -> Format {
    Format {
        align: updated(f.align, u.align),
        vertical_align: updated(f.vertical_align, u.vertical_align),
        wrap: updated(f.wrap, u.wrap),
        numeric_format: updated(f.numeric_format, u.numeric_format),
        numeric_decimals: updated(f.numeric_decimals, u.numeric_decimals),
        numeric_commas: updated(f.numeric_commas, u.numeric_commas),
        bold: updated(f.bold, u.bold),
        italic: updated(f.italic, u.italic),
        text_color: updated(f.text_color, u.text_color),
        fill_color: updated(f.fill_color, u.fill_color),
        render_size: updated(f.render_size, u.render_size),
        date_time: updated(f.date_time, u.date_time),
        underline: updated(f.underline, u.underline),
        strike_through: updated(f.strike_through, u.strike_through),
    }
}

fn apply_update<V>(axis: &mut SparseAxis<V>, k: i64, u: Option<Option<V>>)
    requires
        old(axis).wf(),
    ensures
        final(axis).wf(),
        final(axis)@ == applied(old(axis)@, k as int, u),
{
    match u {
        Some(Some(v)) => axis.set(k, v),
        Some(None) => {
            let _ = axis.remove(k);
        },
        None => {},
    }
}

fn copy_of<V: Copy>(axis: &SparseAxis<V>, k: i64) -> (r: Option<V>)
    requires
        axis.wf(),
    ensures
        r == opt_at(axis@, k as int),
{
    match axis.get(k) {
        Some(v) => Some(*v),
        None => None,
    }
}

fn text_of(axis: &SparseAxis<String>, k: i64) -> (r: Option<String>)
    requires
        axis.wf(),
    ensures
        r == opt_at(axis@, k as int),
{
    match axis.get(k) {
        Some(v) => Some(v.clone()),
        None => None,
    }
}

/// One column of a sheet: its values and, per format attribute, a sparse
/// axis from row to the attribute's value.
#[derive(Debug, PartialEq, Eq)]
pub struct Column {
    pub values: SparseAxis<CellValue>,
    pub align: SparseAxis<CellAlign>,
    pub vertical_align: SparseAxis<CellVerticalAlign>,
    pub wrap: SparseAxis<CellWrap>,
    pub numeric_format: SparseAxis<NumericFormat>,
    pub numeric_decimals: SparseAxis<i16>,
    pub numeric_commas: SparseAxis<bool>,
    pub bold: SparseAxis<bool>,
    pub italic: SparseAxis<bool>,
    pub text_color: SparseAxis<String>,
    pub fill_color: SparseAxis<String>,
    pub render_size: SparseAxis<RenderSize>,
    pub date_time: SparseAxis<String>,
    pub underline: SparseAxis<bool>,
    pub strike_through: SparseAxis<bool>,
}

/// `a` and `b` have the same format axes.
pub open spec fn same_formats(a: Column, b: Column) -> bool {
    &&& b.align == a.align
    &&& b.vertical_align == a.vertical_align
    &&& b.wrap == a.wrap
    &&& b.numeric_format == a.numeric_format
    &&& b.numeric_decimals == a.numeric_decimals
    &&& b.numeric_commas == a.numeric_commas
    &&& b.bold == a.bold
    &&& b.italic == a.italic
    &&& b.text_color == a.text_color
    &&& b.fill_color == a.fill_color
    &&& b.render_size == a.render_size
    &&& b.date_time == a.date_time
    &&& b.underline == a.underline
    &&& b.strike_through == a.strike_through
}

/// Every format axis of `b` is that of `a` with the row `row` closed.
pub open spec fn formats_shifted_left(a: Column, b: Column, row: int) -> bool {
    &&& b.align@ == shifted_left(a.align@, row)
    &&& b.vertical_align@ == shifted_left(a.vertical_align@, row)
    &&& b.wrap@ == shifted_left(a.wrap@, row)
    &&& b.numeric_format@ == shifted_left(a.numeric_format@, row)
    &&& b.numeric_decimals@ == shifted_left(a.numeric_decimals@, row)
    &&& b.numeric_commas@ == shifted_left(a.numeric_commas@, row)
    &&& b.bold@ == shifted_left(a.bold@, row)
    &&& b.italic@ == shifted_left(a.italic@, row)
    &&& b.text_color@ == shifted_left(a.text_color@, row)
    &&& b.fill_color@ == shifted_left(a.fill_color@, row)
    &&& b.render_size@ == shifted_left(a.render_size@, row)
    &&& b.date_time@ == shifted_left(a.date_time@, row)
    &&& b.underline@ == shifted_left(a.underline@, row)
    &&& b.strike_through@ == shifted_left(a.strike_through@, row)
}

/// Every format axis of `b` is that of `a` with a row opened at `row`.
pub open spec fn formats_shifted_right(a: Column, b: Column, row: int) -> bool {
    &&& b.align@ == shifted_right(a.align@, row)
    &&& b.vertical_align@ == shifted_right(a.vertical_align@, row)
    &&& b.wrap@ == shifted_right(a.wrap@, row)
    &&& b.numeric_format@ == shifted_right(a.numeric_format@, row)
    &&& b.numeric_decimals@ == shifted_right(a.numeric_decimals@, row)
    &&& b.numeric_commas@ == shifted_right(a.numeric_commas@, row)
    &&& b.bold@ == shifted_right(a.bold@, row)
    &&& b.italic@ == shifted_right(a.italic@, row)
    &&& b.text_color@ == shifted_right(a.text_color@, row)
    &&& b.fill_color@ == shifted_right(a.fill_color@, row)
    &&& b.render_size@ == shifted_right(a.render_size@, row)
    &&& b.date_time@ == shifted_right(a.date_time@, row)
    &&& b.underline@ == shifted_right(a.underline@, row)
    &&& b.strike_through@ == shifted_right(a.strike_through@, row)
}

impl Column {
    pub open spec fn wf(&self) -> bool {
        &&& self.values.wf()
        &&& self.align.wf()
        &&& self.vertical_align.wf()
        &&& self.wrap.wf()
        &&& self.numeric_format.wf()
        &&& self.numeric_decimals.wf()
        &&& self.numeric_commas.wf()
        &&& self.bold.wf()
        &&& self.italic.wf()
        &&& self.text_color.wf()
        &&& self.fill_color.wf()
        &&& self.render_size.wf()
        &&& self.date_time.wf()
        &&& self.underline.wf()
        &&& self.strike_through.wf()
    }

    /// Every row key of every axis leaves room to move down one row.
    pub open spec fn room_for_row(&self) -> bool {
        keys_below(self.values@, i64::MAX as int) && self.formats_room()
    }

    /// Every row key of every format axis leaves room to move down one row.
    pub open spec fn formats_room(&self) -> bool {
        let m = i64::MAX as int;
        &&& keys_below(self.align@, m)
        &&& keys_below(self.vertical_align@, m)
        &&& keys_below(self.wrap@, m)
        &&& keys_below(self.numeric_format@, m)
        &&& keys_below(self.numeric_decimals@, m)
        &&& keys_below(self.numeric_commas@, m)
        &&& keys_below(self.bold@, m)
        &&& keys_below(self.italic@, m)
        &&& keys_below(self.text_color@, m)
        &&& keys_below(self.fill_color@, m)
        &&& keys_below(self.render_size@, m)
        &&& keys_below(self.date_time@, m)
        &&& keys_below(self.underline@, m)
        &&& keys_below(self.strike_through@, m)
    }

    /// The format of the cell at row `y`.
    pub open spec fn format_spec(&self, y: int) -> Format {
        Format {
            align: opt_at(self.align@, y),
            vertical_align: opt_at(self.vertical_align@, y),
            wrap: opt_at(self.wrap@, y),
            numeric_format: opt_at(self.numeric_format@, y),
            numeric_decimals: opt_at(self.numeric_decimals@, y),
            numeric_commas: opt_at(self.numeric_commas@, y),
            bold: opt_at(self.bold@, y),
            italic: opt_at(self.italic@, y),
            text_color: opt_at(self.text_color@, y),
            fill_color: opt_at(self.fill_color@, y),
            render_size: opt_at(self.render_size@, y),
            date_time: opt_at(self.date_time@, y),
            underline: opt_at(self.underline@, y),
            strike_through: opt_at(self.strike_through@, y),
        }
    }

    pub fn new() -> (r: Self)
        ensures
            r.wf(),
            r.values@ == Map::<int, CellValue>::empty(),
            forall|y: int| #[trigger] r.format_spec(y) == blank_format(),
    {
        Column {
            values: SparseAxis::new(),
            align: SparseAxis::new(),
            vertical_align: SparseAxis::new(),
            wrap: SparseAxis::new(),
            numeric_format: SparseAxis::new(),
            numeric_decimals: SparseAxis::new(),
            numeric_commas: SparseAxis::new(),
            bold: SparseAxis::new(),
            italic: SparseAxis::new(),
            text_color: SparseAxis::new(),
            fill_color: SparseAxis::new(),
            render_size: SparseAxis::new(),
            date_time: SparseAxis::new(),
            underline: SparseAxis::new(),
            strike_through: SparseAxis::new(),
        }
    }

    pub fn format_at(&self, y: i64) -> (r: Format)
        requires
            self.wf(),
        ensures
            r == self.format_spec(y as int),
    {
        Format {
            align: copy_of(&self.align, y),
            vertical_align: copy_of(&self.vertical_align, y),
            wrap: copy_of(&self.wrap, y),
            numeric_format: match self.numeric_format.get(y) {
                Some(n) => Some(n.duplicate()),
                None => None,
            },
            numeric_decimals: copy_of(&self.numeric_decimals, y),
            numeric_commas: copy_of(&self.numeric_commas, y),
            bold: copy_of(&self.bold, y),
            italic: copy_of(&self.italic, y),
            text_color: text_of(&self.text_color, y),
            fill_color: text_of(&self.fill_color, y),
            render_size: match self.render_size.get(y) {
                Some(s) => Some(s.duplicate()),
                None => None,
            },
            date_time: text_of(&self.date_time, y),
            underline: copy_of(&self.underline, y),
            strike_through: copy_of(&self.strike_through, y),
        }
    }

    /// Lays `u` over the format of the cell at row `y`.
    pub fn apply_format(&mut self, y: i64, u: FormatUpdate)
        requires
            old(self).wf(),
        ensures
            final(self).wf(),
            final(self).values == old(self).values,
            final(self).format_spec(y as int) == update_format(old(self).format_spec(y as int), u),
            forall|z: int| z != y ==> #[trigger] final(self).format_spec(z) == old(self).format_spec(z),
            final(self).fill_color@ == applied(old(self).fill_color@, y as int, u.fill_color),
    {
        apply_update(&mut self.align, y, u.align);
        apply_update(&mut self.vertical_align, y, u.vertical_align);
        apply_update(&mut self.wrap, y, u.wrap);
        apply_update(&mut self.numeric_format, y, u.numeric_format);
        apply_update(&mut self.numeric_decimals, y, u.numeric_decimals);
        apply_update(&mut self.numeric_commas, y, u.numeric_commas);
        apply_update(&mut self.bold, y, u.bold);
        apply_update(&mut self.italic, y, u.italic);
        apply_update(&mut self.text_color, y, u.text_color);
        apply_update(&mut self.fill_color, y, u.fill_color);
        apply_update(&mut self.render_size, y, u.render_size);
        apply_update(&mut self.date_time, y, u.date_time);
        apply_update(&mut self.underline, y, u.underline);
        apply_update(&mut self.strike_through, y, u.strike_through);
    }

    /// Closes row `row` in every format axis. Returns whether a fill colour
    /// was dropped or moved.
    pub fn formats_remove_and_shift_left(&mut self, row: i64) -> (r: bool)
        requires
            old(self).wf(),
        ensures
            final(self).wf(),
            final(self).values == old(self).values,
            formats_shifted_left(*old(self), *final(self), row as int),
            r == has_key_from(old(self).fill_color@, row as int),
    {
        self.align.remove_and_shift_left(row);
        self.vertical_align.remove_and_shift_left(row);
        self.wrap.remove_and_shift_left(row);
        self.numeric_format.remove_and_shift_left(row);
        self.numeric_decimals.remove_and_shift_left(row);
        self.numeric_commas.remove_and_shift_left(row);
        self.bold.remove_and_shift_left(row);
        self.italic.remove_and_shift_left(row);
        self.text_color.remove_and_shift_left(row);
        let fill = self.fill_color.remove_and_shift_left(row);
        self.render_size.remove_and_shift_left(row);
        self.date_time.remove_and_shift_left(row);
        self.underline.remove_and_shift_left(row);
        self.strike_through.remove_and_shift_left(row);
        fill
    }

    /// Opens a row at `row` in every format axis. Returns whether a fill
    /// colour moved.
    pub fn formats_insert_and_shift_right(&mut self, row: i64) -> (r: bool)
        requires
            old(self).wf(),
            old(self).formats_room(),
        ensures
            final(self).wf(),
            final(self).values == old(self).values,
            formats_shifted_right(*old(self), *final(self), row as int),
            r == has_key_from(old(self).fill_color@, row as int),
    {
        self.align.insert_and_shift_right(row);
        self.vertical_align.insert_and_shift_right(row);
        self.wrap.insert_and_shift_right(row);
        self.numeric_format.insert_and_shift_right(row);
        self.numeric_decimals.insert_and_shift_right(row);
        self.numeric_commas.insert_and_shift_right(row);
        self.bold.insert_and_shift_right(row);
        self.italic.insert_and_shift_right(row);
        self.text_color.insert_and_shift_right(row);
        let fill = self.fill_color.insert_and_shift_right(row);
        self.render_size.insert_and_shift_right(row);
        self.date_time.insert_and_shift_right(row);
        self.underline.insert_and_shift_right(row);
        self.strike_through.insert_and_shift_right(row);
        fill
    }
}

impl Column {
    /// Whether the cell at row `y` has some format attribute.
    pub fn has_format(&self, y: i64) -> (r: bool)
        requires
            self.wf(),
        ensures
            r == (self.format_spec(y as int) != blank_format()),
    {
        self.align.contains_key(y) || self.vertical_align.contains_key(y) || self.wrap.contains_key(y)
            || self.numeric_format.contains_key(y) || self.numeric_decimals.contains_key(y)
            || self.numeric_commas.contains_key(y) || self.bold.contains_key(y)
            || self.italic.contains_key(y) || self.text_color.contains_key(y)
            || self.fill_color.contains_key(y) || self.render_size.contains_key(y)
            || self.date_time.contains_key(y) || self.underline.contains_key(y)
            || self.strike_through.contains_key(y)
    }

    /// The column holds something at row `y`: a value, or a format when
    /// `formats` is set.
    pub open spec fn holds_at(&self, y: int, formats: bool) -> bool {
        if formats {
            self.format_spec(y) != blank_format()
        } else {
            self.values@.contains_key(y)
        }
    }
}

/// A row's own format, with the time it was set.
#[derive(Debug, PartialEq, Eq)]
pub struct RowFormat {
    pub format: Format,
    pub stamp: i64,
}

/// Relies on chrono's `Utc::now` and `DateTime::timestamp`: the current time
/// in seconds since the Unix epoch, used to stamp a row format. Nothing is
/// promised of the value. `Utc::now` panics only when the system clock reads
/// before 1970, which no argument can rule out.
#[verifier::external_body]
pub(crate) fn now_stamp() -> (r: i64) {
    chrono::Utc::now().timestamp()
}

/// Columns of `cols` that hold something at row `y`.
pub open spec fn cols_holding(cols: Map<int, Column>, y: int, formats: bool) -> Set<int> {
    Set::new(|x: int| cols.contains_key(x) && cols[x].holds_at(y, formats))
}

pub open spec fn columns_wf(cols: SparseAxis<Column>) -> bool {
    &&& cols.wf()
    &&& forall|x: int| #[trigger] cols@.contains_key(x) ==> cols@[x].wf()
}

#[derive(Debug, PartialEq, Eq)]
pub struct Sheet {
    pub id: SheetId,
    pub columns: SparseAxis<Column>,
    pub formats_rows: SparseAxis<RowFormat>,
    pub code_runs: CodeRuns,
    pub borders: Borders,
    pub offsets: Offsets,
}

impl Sheet {
    pub open spec fn wf(&self) -> bool {
        &&& columns_wf(self.columns)
        &&& self.formats_rows.wf()
        &&& self.code_runs.wf()
        &&& self.borders.wf()
        &&& self.offsets.wf()
    }

    /// Cell values, keyed `(x, y)`.
    pub open spec fn values_grid(&self) -> Map<(int, int), CellValue> {
        Map::new(
            |c: (int, int)| self.columns@.contains_key(c.0) && self.columns@[c.0].values@.contains_key(c.1),
            |c: (int, int)| self.columns@[c.0].values@[c.1],
        )
    }

    /// The format of cell `(x, y)`, without the row's own format.
    pub open spec fn format_grid(&self, x: int, y: int) -> Format {
        if self.columns@.contains_key(x) {
            self.columns@[x].format_spec(y)
        } else {
            blank_format()
        }
    }

    pub fn new(id: SheetId) -> (r: Self)
        ensures
            r.wf(),
            r.id == id,
            r.values_grid() == Map::<(int, int), CellValue>::empty(),
            r.columns@ == Map::<int, Column>::empty(),
            r.formats_rows@ == Map::<int, RowFormat>::empty(),
            r.code_runs@ == Map::<(int, int), CodeRun>::empty(),
            r.offsets.rows@ == Map::<int, u32>::empty(),
            r.borders.top@ == Map::<int, RunLine>::empty(),
            r.borders.bottom@ == Map::<int, RunLine>::empty(),
            r.borders.left@ == Map::<int, RunLine>::empty(),
            r.borders.right@ == Map::<int, RunLine>::empty(),
            r.borders.columns@ == Map::<int, BorderStyleCell>::empty(),
            r.borders.rows@ == Map::<int, BorderStyleCell>::empty(),
    {
        let r = Sheet {
            id,
            columns: SparseAxis::new(),
            formats_rows: SparseAxis::new(),
            code_runs: CodeRuns::new(),
            borders: Borders::new(),
            offsets: Offsets::new(),
        };
        assert(r.values_grid() =~= Map::<(int, int), CellValue>::empty());
        r
    }

    /// Takes column `x` out of the sheet, or a new empty one.
    fn take_column(&mut self, x: i64) -> (r: Column)
        requires
            old(self).wf(),
        ensures
            r.wf(),
            final(self).columns.wf(),
            final(self).columns@ == old(self).columns@.remove(x as int),
            forall|k: int| #[trigger] final(self).columns@.contains_key(k) ==> final(self).columns@[k].wf(),
            old(self).columns@.contains_key(x as int) ==> r == old(self).columns@[x as int],
            !old(self).columns@.contains_key(x as int) ==> r.values@ == Map::<int, CellValue>::empty()
                && forall|y: int| #[trigger] r.format_spec(y) == blank_format(),
            final(self).id == old(self).id,
            final(self).formats_rows == old(self).formats_rows,
            final(self).code_runs == old(self).code_runs,
            final(self).borders == old(self).borders,
            final(self).offsets == old(self).offsets,
    {
        match self.columns.remove(x) {
            Some(c) => c,
            None => Column::new(),
        }
    }

    pub fn set_cell_value(&mut self, x: i64, y: i64, value: CellValue)
        requires
            old(self).wf(),
        ensures
            final(self).wf(),
            final(self).values_grid() == old(self).values_grid().insert((x as int, y as int), value),
            forall|a: int, b: int| #[trigger] final(self).format_grid(a, b) == old(self).format_grid(a, b),
            final(self).id == old(self).id,
            final(self).formats_rows == old(self).formats_rows,
            final(self).code_runs == old(self).code_runs,
            final(self).borders == old(self).borders,
            final(self).offsets == old(self).offsets,
    {
        let ghost pre = *self;
        let mut col = self.take_column(x);
        let ghost col0 = col;
        col.values.set(y, value);
        let ghost col1 = col;
        self.columns.set(x, col);
        proof {
            assert(self.values_grid() =~= pre.values_grid().insert((x as int, y as int), value));
            assert forall|a: int, b: int| #[trigger] self.format_grid(a, b) == pre.format_grid(a, b) by {
                if a == x {
                    assert(col1.format_spec(b) == col0.format_spec(b));
                }
            }
        }
    }

    pub fn cell_value(&self, pos: Pos) -> (r: Option<CellValue>)
        requires
            self.wf(),
        ensures
            r == opt_at(self.values_grid(), key(pos)),
    {
        match self.columns.get(pos.x) {
            Some(col) => match col.values.get(pos.y) {
                Some(v) => Some(v.duplicate()),
                None => None,
            },
            None => None,
        }
    }

    /// Lays `update` over the format of cell `pos`.
    pub fn set_format_cell(&mut self, pos: Pos, update: FormatUpdate)
        requires
            old(self).wf(),
        ensures
            final(self).wf(),
            final(self).format_grid(pos.x as int, pos.y as int) == update_format(old(self).format_grid(pos.x as int, pos.y as int), update),
            forall|a: int, b: int| (a, b) != key(pos) ==> #[trigger] final(self).format_grid(a, b) == old(self).format_grid(a, b),
            final(self).values_grid() == old(self).values_grid(),
            final(self).id == old(self).id,
            final(self).formats_rows == old(self).formats_rows,
            final(self).code_runs == old(self).code_runs,
            final(self).borders == old(self).borders,
            final(self).offsets == old(self).offsets,
    {
        let ghost pre = *self;
        let mut col = self.take_column(pos.x);
        col.apply_format(pos.y, update);
        self.columns.set(pos.x, col);
        proof {
            assert(self.values_grid() =~= pre.values_grid());
        }
    }

    /// The format of cell `(x, y)`, without the row's own format.
    pub fn format_cell(&self, x: i64, y: i64) -> (r: Format)
        requires
            self.wf(),
        ensures
            r == self.format_grid(x as int, y as int),
    {
        match self.columns.get(x) {
            Some(col) => col.format_at(y),
            None => Format::default(),
        }
    }

    /// Lays `update` over the row's own format, stamped with the time now.
    pub fn set_row_format(&mut self, row: i64, update: FormatUpdate)
        requires
            old(self).wf(),
        ensures
            final(self).wf(),
            final(self).formats_rows@.contains_key(row as int),
            final(self).formats_rows@[row as int].format == update_format(
                match opt_at(old(self).formats_rows@, row as int) {
                    Some(f) => f.format,
                    None => blank_format(),
                },
                update,
            ),
            forall|k: int| k != row ==> #[trigger] final(self).formats_rows@.contains_key(k) == old(self).formats_rows@.contains_key(k),
            forall|k: int| k != row && #[trigger] old(self).formats_rows@.contains_key(k) ==> final(self).formats_rows@[k] == old(self).formats_rows@[k],
            final(self).id == old(self).id,
            final(self).columns == old(self).columns,
            final(self).code_runs == old(self).code_runs,
            final(self).borders == old(self).borders,
            final(self).offsets == old(self).offsets,
    {
        let base = match self.formats_rows.remove(row) {
            Some(f) => f.format,
            None => Format::default(),
        };
        let mut col = Column::new();
        col.apply_format(0, base.to_replace());
        col.apply_format(0, update);
        let format = col.format_at(0);
        let stamp = now_stamp();
        self.formats_rows.set(row, RowFormat { format, stamp });
    }

    /// The row's own format, if it has one.
    pub fn try_format_row(&self, row: i64) -> (r: Option<Format>)
        requires
            self.wf(),
        ensures
            r == (match opt_at(self.formats_rows@, row as int) {
                Some(f) => Some(f.format),
                None => None,
            }),
    {
        match self.formats_rows.get(row) {
            Some(f) => Some(f.format.duplicate()),
            None => None,
        }
    }

    /// Stores `run` as the code result at `pos`, keeping its place in the
    /// order if `pos` already held one.
    pub fn set_code_run(&mut self, pos: Pos, run: CodeRun)
        requires
            old(self).wf(),
        ensures
            final(self).wf(),
            final(self).code_runs@ == old(self).code_runs@.insert(key(pos), run),
            final(self).id == old(self).id,
            final(self).columns == old(self).columns,
            final(self).formats_rows == old(self).formats_rows,
            final(self).borders == old(self).borders,
            final(self).offsets == old(self).offsets,
    {
        let at = match self.code_runs.find(pos) {
            Some(i) => i,
            None => self.code_runs.len(),
        };
        self.code_runs.insert_at(at, pos, run);
    }

    /// The least and greatest column holding something at row `row`: a value,
    /// or a format when `formats` is set.
    fn span_of_row(&self, row: i64, formats: bool) -> (r: Option<(i64, i64)>)
        requires
            self.wf(),
        ensures
            spans(r, cols_holding(self.columns@, row as int, formats)),
    {
        let mut cur: Option<(i64, i64)> = None;
        let ghost mut acc = Set::<int>::empty();
        let mut i: usize = 0;
        while i < self.columns.keys.len()
            invariant
                self.wf(),
                i <= self.columns.keys@.len(),
                spans(cur, acc),
                acc == Set::new(|x: int| exists|j: int| 0 <= j < i && self.columns.keys@[j] == x && (#[trigger] self.columns.vals@[j]).holds_at(row as int, formats)),
            decreases self.columns.keys@.len() - i,
        {
            proof {
                self.columns.lemma_entry(i as int);
            }
            let x = self.columns.keys[i];
            let held = if formats {
                self.columns.vals[i].has_format(row)
            } else {
                self.columns.vals[i].values.contains_key(row)
            };
            let ghost before = acc;
            if held {
                cur = widen(cur, x, x, Ghost(acc));
                proof {
                    acc = acc.union(range_set(x as int, x as int));
                }
            }
            proof {
                let next = Set::new(|q: int| exists|j: int| 0 <= j < i + 1 && self.columns.keys@[j] == q && (#[trigger] self.columns.vals@[j]).holds_at(row as int, formats));
                assert forall|q: int| next.contains(q) == acc.contains(q) by {
                    if exists|j: int| 0 <= j < i + 1 && self.columns.keys@[j] == q && (#[trigger] self.columns.vals@[j]).holds_at(row as int, formats) {
                        let j = choose|j: int| 0 <= j < i + 1 && self.columns.keys@[j] == q && (#[trigger] self.columns.vals@[j]).holds_at(row as int, formats);
                        if j < i {
                            assert(self.columns.vals@[j].holds_at(row as int, formats));
                        }
                    }
                    if before.contains(q) {
                        let j = choose|j: int| 0 <= j < i && self.columns.keys@[j] == q && (#[trigger] self.columns.vals@[j]).holds_at(row as int, formats);
                        assert(self.columns.vals@[j].holds_at(row as int, formats));
                    }
                    if held && q == x {
                        assert(self.columns.vals@[i as int].holds_at(row as int, formats));
                    }
                }
                assert(next =~= acc);
            }
            i = i + 1;
        }
        proof {
            assert forall|q: int| acc.contains(q) == cols_holding(self.columns@, row as int, formats).contains(q) by {
                if self.columns@.contains_key(q) {
                    let j = self.columns.index_of(q);
                    self.columns.lemma_entry(j);
                    if self.columns@[q].holds_at(row as int, formats) {
                        assert(self.columns.vals@[j].holds_at(row as int, formats));
                    }
                }
                if exists|j: int| 0 <= j < self.columns.keys@.len() && self.columns.keys@[j] == q && (#[trigger] self.columns.vals@[j]).holds_at(row as int, formats) {
                    let j = choose|j: int| 0 <= j < self.columns.keys@.len() && self.columns.keys@[j] == q && (#[trigger] self.columns.vals@[j]).holds_at(row as int, formats);
                    self.columns.lemma_entry(j);
                }
            }
            assert(acc =~= cols_holding(self.columns@, row as int, formats));
        }
        cur
    }

    /// The least and greatest column with a value in row `row`.
    pub fn row_bounds(&self, row: i64) -> (r: Option<(i64, i64)>)
        requires
            self.wf(),
        ensures
            spans(r, cols_holding(self.columns@, row as int, false)),
    {
        self.span_of_row(row, false)
    }

    /// The least and greatest column with a cell format in row `row`.
    pub fn row_bounds_formats(&self, row: i64) -> (r: Option<(i64, i64)>)
        requires
            self.wf(),
        ensures
            spans(r, cols_holding(self.columns@, row as int, true)),
    {
        self.span_of_row(row, true)
    }
}

impl Sheet {
    /// What cell `pos` shows: its value, unless that is code or absent, in
    /// which case the code output that reaches the cell.
    pub open spec fn display_spec(&self, pos: Pos) -> Option<CellValue> {
        match opt_at(self.values_grid(), key(pos)) {
            Some(v) => if v.is_code() {
                self.code_runs.spill_from(0, pos.x as int, pos.y as int)
            } else {
                Some(v)
            },
            None => self.code_runs.spill_from(0, pos.x as int, pos.y as int),
        }
    }

    pub fn display_value(&self, pos: Pos) -> (r: Option<CellValue>)
        requires
            self.wf(),
        ensures
            r == self.display_spec(pos),
    {
        match self.cell_value(pos) {
            Some(CellValue::Code(_, _)) => self.code_runs.output_at(pos),
            Some(v) => Some(v),
            None => self.code_runs.output_at(pos),
        }
    }
}

} // verus!
