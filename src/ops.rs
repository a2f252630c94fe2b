//! Positions, selections and the operations recorded to undo an edit.
use vstd::prelude::*;
use crate::cell::{CellValue, CodeRun};
use crate::format::FormatUpdate;
use crate::style::BorderStyleCellUpdate;

verus! {

#[derive(Clone, Copy, Debug, PartialEq, Eq, Structural)]
pub struct SheetId {
    pub id: u64,
}

#[derive(Clone, Copy, Debug, PartialEq, Eq, Structural)]
pub struct Pos {
    pub x: i64,
    pub y: i64,
}

#[derive(Clone, Copy, Debug, PartialEq, Eq, Structural)]
pub struct SheetPos {
    pub sheet_id: SheetId,
    pub x: i64,
    pub y: i64,
}

impl SheetPos {
    pub fn new(sheet_id: SheetId, x: i64, y: i64) -> (r: Self)
        ensures
            r == (SheetPos { sheet_id, x, y }),
    {
        SheetPos { sheet_id, x, y }
    }
}

/// The cells from `min` to `max`, both included.
#[derive(Clone, Copy, Debug, PartialEq, Eq, Structural)]
pub struct Rect {
    pub min: Pos,
    pub max: Pos,
}

impl Rect {
    pub fn new(x0: i64, y0: i64, x1: i64, y1: i64) -> (r: Self)
        ensures
            r == (Rect { min: Pos { x: x0, y: y0 }, max: Pos { x: x1, y: y1 } }),
    {
        Rect { min: Pos { x: x0, y: y0 }, max: Pos { x: x1, y: y1 } }
    }
}

/// Part of a sheet: rectangles, whole columns, whole rows, or everything.
#[derive(Clone, Debug, PartialEq, Eq)]
pub struct Selection {
    pub sheet_id: SheetId,
    pub rects: Option<Vec<Rect>>,
    pub columns: Option<Vec<i64>>,
    pub rows: Option<Vec<i64>>,
    pub all: bool,
}

impl Selection {
    pub fn new(sheet_id: SheetId) -> (r: Self)
        ensures
            r.sheet_id == sheet_id,
            r.rects is None,
            r.columns is None,
            r.rows is None,
            !r.all,
    {
        Selection { sheet_id, rects: None, columns: None, rows: None, all: false }
    }

    pub open spec fn is_empty_spec(&self) -> bool {
        self.rects is None && self.columns is None && self.rows is None && !self.all
    }

    pub fn is_empty(&self) -> (r: bool)
        ensures
            r == self.is_empty_spec(),
    {
        self.rects.is_none() && self.columns.is_none() && self.rows.is_none() && !self.all
    }
}

impl Default for Selection {
    fn default() -> (r: Self)
        ensures
            r.sheet_id == (SheetId { id: 0 }),
            r.is_empty_spec(),
    {
        Selection::new(SheetId { id: 0 })
    }
}

/// Which neighbouring row an inserted row takes its formats from.
#[derive(Clone, Copy, Debug, PartialEq, Eq, Structural)]
pub enum CopyFormats {
    After,
    Before,
    NoCopy,
}

/// An edit that can be replayed on a sheet; the reverse of an edit is a list
/// of these.
#[derive(Clone, Debug, PartialEq, Eq)]
pub enum Operation {
    /// Values along a row, starting at `sheet_pos`; `None` leaves a blank.
    SetCellValues { sheet_pos: SheetPos, values: Vec<Option<CellValue>> },
    /// One update per cell of the selection: its rows first, then the cells
    /// of its rectangles.
    SetCellFormatsSelection { selection: Selection, formats: Vec<FormatUpdate> },
    /// Puts a code result back at `sheet_pos`, at position `index` of the
    /// sheet's ordered store.
    SetCodeRun { sheet_pos: SheetPos, code_run: Option<CodeRun>, index: usize },
    /// One update per cell of the selection: its whole-line overrides first,
    /// then the cells of its rectangles.
    SetBordersSelection { selection: Selection, borders: Vec<BorderStyleCellUpdate> },
    InsertRow { sheet_id: SheetId, row: i64, copy_formats: CopyFormats },
    DeleteRow { sheet_id: SheetId, row: i64 },
    ResizeRow { sheet_id: SheetId, row: i64, new_size: u32, client_resized: bool },
}

} // verus!
