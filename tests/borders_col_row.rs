use quadratic_core::borders::Borders;
use quadratic_core::cell::{CellValue, CodeCellLanguage, CodeRun, CodeRunKind};
use quadratic_core::ops::{CopyFormats, Operation, Pos, Rect, Selection, SheetId};
use quadratic_core::sheet::Sheet;
use quadratic_core::style::{BorderStyle, BorderStyleCellUpdate, CellBorderLine, Rgba};
use quadratic_core::transaction::PendingTransaction;

fn bordered(rects: &[(i64, i64, i64, i64)]) -> Borders {
    let mut borders = Borders::new();
    for &(x0, y0, x1, y1) in rects {
        borders.set_rect_borders(Rect::new(x0, y0, x1, y1), Some(BorderStyle::default()));
    }
    borders
}

fn set_code_cell(sheet: &mut Sheet, x: i64, y: i64, code: &str, value: i64) {
    sheet.set_cell_value(x, y, CellValue::Code(CodeCellLanguage::Formula, code.to_string()));
    sheet.set_code_run(
        Pos { x, y },
        CodeRun { kind: CodeRunKind::Plain, output: vec![CellValue::Number(value)], vertical: false },
    );
}

/// Replays reverse operations, last recorded first.
fn undo(sheet: &mut Sheet, reverse: Vec<Operation>) {
    let mut transaction = PendingTransaction::default();
    for op in reverse.into_iter().rev() {
        match op {
            Operation::InsertRow { row, copy_formats, .. } => {
                sheet.insert_row(&mut transaction, row, copy_formats)
            }
            Operation::DeleteRow { row, .. } => sheet.delete_row(&mut transaction, row),
            Operation::SetCellValues { sheet_pos, values } => {
                for (i, value) in values.into_iter().enumerate() {
                    if let Some(value) = value {
                        sheet.set_cell_value(sheet_pos.x + i as i64, sheet_pos.y, value);
                    }
                }
            }
            Operation::SetCodeRun { sheet_pos, code_run, index } => {
                if let Some(run) = code_run {
                    sheet.code_runs.insert_at(index, Pos { x: sheet_pos.x, y: sheet_pos.y }, run);
                }
            }
            Operation::ResizeRow { row, new_size, .. } => sheet.offsets.set_row_height(row, new_size),
            Operation::SetCellFormatsSelection { .. } | Operation::SetBordersSelection { .. } => {}
        }
    }
}

#[test]
fn insert_column_empty() {
    let mut borders = Borders::new();
    assert!(!borders.insert_column(0));
    assert_eq!(borders, Borders::new());
}

#[test]
fn delete_column_empty() {
    let mut borders = Borders::new();
    assert!(!borders.remove_column(0));
    assert_eq!(borders, Borders::new());
}

#[test]
fn insert_column_start() {
    let mut borders = bordered(&[(1, 1, 10, 10)]);
    assert!(borders.insert_column(1));
    assert_eq!(borders, bordered(&[(2, 1, 11, 10)]));
}

#[test]
fn insert_column_middle() {
    let mut borders = bordered(&[(1, 1, 10, 10)]);
    assert!(borders.insert_column(5));
    assert_eq!(borders, bordered(&[(1, 1, 4, 10), (6, 1, 11, 10)]));
}

#[test]
fn insert_column_end() {
    let mut borders = bordered(&[(1, 1, 10, 10)]);
    assert!(borders.insert_column(11));
    assert_eq!(borders, bordered(&[(1, 1, 10, 10)]));
}

#[test]
fn remove_column_start() {
    let mut borders = bordered(&[(1, 1, 10, 10)]);
    assert!(borders.remove_column(1));
    assert_eq!(borders, bordered(&[(1, 1, 9, 10)]));
}

#[test]
fn remove_column_middle() {
    let mut borders = bordered(&[(1, 1, 10, 10)]);
    assert!(borders.remove_column(5));
    assert_eq!(borders, bordered(&[(1, 1, 9, 10)]));
}

#[test]
fn remove_column_end() {
    let mut borders = bordered(&[(1, 1, 10, 10)]);
    assert!(borders.remove_column(10));
    assert_eq!(borders, bordered(&[(1, 1, 9, 10)]));
}

#[test]
fn insert_row_empty() {
    let mut borders = Borders::new();
    borders.insert_row(0);
    assert_eq!(borders, Borders::new());
}

#[test]
fn borders_col_row_insert_row_start() {
    let mut borders = bordered(&[(1, 1, 10, 10)]);
    borders.insert_row(1);
    assert_eq!(borders, bordered(&[(1, 2, 10, 11)]));
}

#[test]
fn borders_col_row_insert_row_middle() {
    let mut borders = bordered(&[(1, 1, 10, 10)]);
    borders.insert_row(5);
    assert_eq!(borders, bordered(&[(1, 1, 10, 4), (1, 6, 10, 11)]));
}

#[test]
fn borders_col_row_insert_row_end() {
    let mut borders = bordered(&[(1, 1, 10, 10)]);
    borders.insert_row(11);
    assert_eq!(borders, bordered(&[(1, 1, 10, 10)]));
}

#[test]
fn remove_row_empty() {
    let mut borders = Borders::new();
    borders.remove_row(0);
    assert_eq!(borders, Borders::new());
}

#[test]
fn remove_row_start() {
    let mut borders = bordered(&[(1, 1, 10, 10)]);
    borders.remove_row(1);
    assert_eq!(borders, bordered(&[(1, 1, 10, 9)]));
}

#[test]
fn remove_row_middle() {
    let mut borders = bordered(&[(1, 1, 10, 10)]);
    borders.remove_row(5);
    assert_eq!(borders, bordered(&[(1, 1, 10, 9)]));
}

#[test]
fn remove_row_end() {
    let mut borders = bordered(&[(1, 1, 10, 10)]);
    borders.remove_row(10);
    assert_eq!(borders, bordered(&[(1, 1, 10, 9)]));
}

#[test]
fn to_clipboard() {
    let borders = bordered(&[(1, 1, 2, 2)]);
    // the cell at index 6 of the 4 by 4 selection from (0, 0) is (2, 1)
    let entry = borders.get(2, 1);
    assert_eq!(entry.top.unwrap().line, CellBorderLine::default());
    assert_eq!(entry.top.unwrap().color, Rgba::default());
    assert_eq!(entry.left.unwrap().line, CellBorderLine::default());
    assert_eq!(entry.left.unwrap().color, Rgba::default());
    assert_eq!(entry.bottom.unwrap().line, CellBorderLine::default());
    assert_eq!(entry.bottom.unwrap().color, Rgba::default());
    assert_eq!(entry.right.unwrap().line, CellBorderLine::default());
    assert_eq!(entry.right.unwrap().color, Rgba::default());
}

#[test]
fn get_column_ops() {
    let sheet_id = SheetId { id: 1 };
    let borders = bordered(&[(1, 1, 2, 2)]);
    let ops = borders.get_column_ops(sheet_id, 1);
    assert_eq!(ops.len(), 1);

    let selection = Selection {
        sheet_id,
        rects: Some(vec![Rect::new(1, 1, 1, 2)]),
        ..Selection::default()
    };
    assert_eq!(
        ops[0],
        Operation::SetBordersSelection { selection, borders: vec![BorderStyleCellUpdate::all(); 2] }
    );
}

#[test]
fn get_row_ops() {
    let sheet_id = SheetId { id: 1 };
    let borders = bordered(&[(1, 1, 2, 2)]);
    let ops = borders.get_row_ops(sheet_id, 1);
    assert_eq!(ops.len(), 1);

    let selection = Selection {
        sheet_id,
        rects: Some(vec![Rect::new(1, 1, 2, 1)]),
        ..Selection::default()
    };
    assert_eq!(
        ops[0],
        Operation::SetBordersSelection { selection, borders: vec![BorderStyleCellUpdate::all(); 2] }
    );
}

#[test]
fn delete_row_undo_code() {
    let mut sheet = Sheet::new(SheetId { id: 1 });
    set_code_cell(&mut sheet, 1, 1, "12", 12);
    set_code_cell(&mut sheet, 1, 2, "34", 34);
    set_code_cell(&mut sheet, 1, 3, "56", 56);

    let mut transaction = PendingTransaction::user();
    sheet.delete_row(&mut transaction, 2);

    assert_eq!(sheet.display_value(Pos { x: 1, y: 1 }), Some(CellValue::Number(12)));
    assert_eq!(sheet.display_value(Pos { x: 1, y: 2 }), Some(CellValue::Number(56)));
    assert_eq!(sheet.display_value(Pos { x: 1, y: 3 }), None);

    // this will reinsert the row
    undo(&mut sheet, transaction.reverse_operations);

    assert_eq!(sheet.display_value(Pos { x: 1, y: 1 }), Some(CellValue::Number(12)));
    assert_eq!(sheet.display_value(Pos { x: 1, y: 2 }), Some(CellValue::Number(34)));
    assert_eq!(sheet.display_value(Pos { x: 1, y: 3 }), Some(CellValue::Number(56)));
}

#[test]
fn insert_row_undo_code() {
    let mut sheet = Sheet::new(SheetId { id: 1 });
    set_code_cell(&mut sheet, 1, 1, "12", 12);
    set_code_cell(&mut sheet, 1, 2, "34", 34);
    set_code_cell(&mut sheet, 1, 3, "56", 56);

    let mut transaction = PendingTransaction::user();
    sheet.insert_row(&mut transaction, 2, CopyFormats::After);

    assert_eq!(sheet.display_value(Pos { x: 1, y: 1 }), Some(CellValue::Number(12)));
    assert_eq!(sheet.display_value(Pos { x: 1, y: 2 }), None);
    assert_eq!(sheet.display_value(Pos { x: 1, y: 3 }), Some(CellValue::Number(34)));
    assert_eq!(sheet.display_value(Pos { x: 1, y: 4 }), Some(CellValue::Number(56)));
    assert_eq!(sheet.display_value(Pos { x: 1, y: 5 }), None);

    // this will remove the inserted row
    undo(&mut sheet, transaction.reverse_operations);

    assert_eq!(sheet.display_value(Pos { x: 1, y: 1 }), Some(CellValue::Number(12)));
    assert_eq!(sheet.display_value(Pos { x: 1, y: 2 }), Some(CellValue::Number(34)));
    assert_eq!(sheet.display_value(Pos { x: 1, y: 3 }), Some(CellValue::Number(56)));
}
