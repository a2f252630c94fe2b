//! The context of one edit: the reverse operations recorded for undo and the
//! regions and flags that the renderer must refresh.
use vstd::prelude::*;
use crate::ops::{Operation, SheetId, SheetPos};

verus! {

/// `s` with `x` added, unless it is already there.
pub open spec fn with<T>(s: Seq<T>, x: T) -> Seq<T> {
    if s.contains(x) {
        s
    } else {
        s.push(x)
    }
}

#[derive(Debug)]
pub struct PendingTransaction {
    /// The edit comes from a user (or an undo or redo of one), so its reverse
    /// is recorded.
    pub undoable: bool,
    /// The edit comes from the server; the client's own markers are skipped.
    pub server: bool,
    /// Replayed last first, they undo the edit.
    pub reverse_operations: Vec<Operation>,
    /// Sheets whose fill colours changed.
    pub fill_cells: Vec<SheetId>,
    /// Sheets whose borders changed.
    pub sheet_borders: Vec<SheetId>,
    /// Code cells to redraw.
    pub code_cells: Vec<SheetPos>,
    pub html_cells: Vec<SheetPos>,
    pub image_cells: Vec<SheetPos>,
    /// Each entry marks every row from the given one down as dirty.
    pub dirty_rows: Vec<(SheetId, i64)>,
    /// Custom row heights that moved: sheet, row, height.
    pub offsets_modified: Vec<(SheetId, i64, u32)>,
}

impl PendingTransaction {
    pub open spec fn is_fresh(&self) -> bool {
        &&& self.reverse_operations@.len() == 0
        &&& self.fill_cells@.len() == 0
        &&& self.sheet_borders@.len() == 0
        &&& self.code_cells@.len() == 0
        &&& self.html_cells@.len() == 0
        &&& self.image_cells@.len() == 0
        &&& self.dirty_rows@.len() == 0
        &&& self.offsets_modified@.len() == 0
    }

    pub fn new(undoable: bool, server: bool) -> (r: Self)
        ensures
            r.undoable == undoable,
            r.server == server,
            r.is_fresh(),
    {
        PendingTransaction {
            undoable,
            server,
            reverse_operations: Vec::new(),
            fill_cells: Vec::new(),
            sheet_borders: Vec::new(),
            code_cells: Vec::new(),
            html_cells: Vec::new(),
            image_cells: Vec::new(),
            dirty_rows: Vec::new(),
            offsets_modified: Vec::new(),
        }
    }

    /// A transaction for an edit made by the user.
    pub fn user() -> (r: Self)
        ensures
            r.undoable,
            !r.server,
            r.is_fresh(),
    {
        Self::new(true, false)
    }

    pub fn is_user_undo_redo(&self) -> (r: bool)
        ensures
            r == self.undoable,
    {
        self.undoable
    }

    pub fn is_server(&self) -> (r: bool)
        ensures
            r == self.server,
    {
        self.server
    }
}

impl Default for PendingTransaction {
    fn default() -> (r: Self)
        ensures
            !r.undoable,
            !r.server,
            r.is_fresh(),
    {
        PendingTransaction::new(false, false)
    }
}

pub fn add_sheet(list: &mut Vec<SheetId>, id: SheetId)
    ensures
        final(list)@ == with(old(list)@, id),
{
    let mut i: usize = 0;
    while i < list.len()
        invariant
            i <= list@.len(),
            forall|j: int| 0 <= j < i ==> list@[j] != id,
        decreases list@.len() - i,
    {
        if list[i] == id {
            proof {
                assert(list@.contains(id));
            }
            return;
        }
        i = i + 1;
    }
    list.push(id);
}

pub fn add_pos(list: &mut Vec<SheetPos>, pos: SheetPos)
    ensures
        final(list)@ == with(old(list)@, pos),
{
    let mut i: usize = 0;
    while i < list.len()
        invariant
            i <= list@.len(),
            forall|j: int| 0 <= j < i ==> list@[j] != pos,
        decreases list@.len() - i,
    {
        if list[i] == pos {
            proof {
                assert(list@.contains(pos));
            }
            return;
        }
        i = i + 1;
    }
    list.push(pos);
}

} // verus!
