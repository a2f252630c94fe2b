use quadratic_core::cell::{CellValue, CodeCellLanguage, CodeRun, CodeRunKind};
use quadratic_core::format::{CellWrap, Format, FormatUpdate};
use quadratic_core::offsets::DEFAULT_ROW_HEIGHT;
use quadratic_core::ops::{CopyFormats, Operation, Pos, Rect, SheetId};
use quadratic_core::row::MAX_OPERATION_SIZE_COL_ROW;
use quadratic_core::sheet::Sheet;
use quadratic_core::style::{BorderStyle, CellBorderLine};
use quadratic_core::transaction::PendingTransaction;

/// Sets text values row by row over the `w` by `h` block at `(x, y)`.
fn set_values(sheet: &mut Sheet, x: i64, y: i64, w: i64, _h: i64, values: Vec<&str>) {
    for (i, v) in values.iter().enumerate() {
        let i = i as i64;
        sheet.set_cell_value(x + i % w, y + i / w, CellValue::Text(v.to_string()));
    }
}

/// A code cell at `(x, y)` whose output spills along the row.
fn set_code_run_array(sheet: &mut Sheet, x: i64, y: i64, values: Vec<&str>) {
    sheet.set_cell_value(x, y, CellValue::Code(CodeCellLanguage::Formula, "=1".to_string()));
    let output = values.iter().map(|v| CellValue::Text(v.to_string())).collect();
    sheet.set_code_run(Pos { x, y }, CodeRun { kind: CodeRunKind::Plain, output, vertical: false });
}

fn text(s: &str) -> Option<CellValue> {
    Some(CellValue::Text(s.to_string()))
}

fn letters() -> Vec<&'static str> {
    vec!["A", "B", "C", "D", "E", "F", "G", "H", "I", "J", "K", "L", "M", "N", "O", "P"]
}

#[test]
fn delete_row_values() {
    let mut sheet = Sheet::new(SheetId { id: 1 });
    set_values(&mut sheet, 1, 1, 4, 4, letters());
    sheet.delete_and_shift_values(1);
    assert_eq!(sheet.cell_value(Pos { x: 1, y: 1 }), text("E"));
}

#[test]
fn delete_row() {
    // will delete row 1
    let mut sheet = Sheet::new(SheetId { id: 1 });
    set_values(&mut sheet, 1, 1, 4, 4, letters());
    sheet.set_format_cell(
        Pos { x: 1, y: 2 },
        FormatUpdate { fill_color: Some(Some("red".to_string())), ..Default::default() },
    );
    sheet.set_format_cell(
        Pos { x: 2, y: 2 },
        FormatUpdate { wrap: Some(Some(CellWrap::Clip)), ..Default::default() },
    );
    sheet.set_format_cell(
        Pos { x: 3, y: 2 },
        FormatUpdate { fill_color: Some(Some("blue".to_string())), ..Default::default() },
    );
    set_code_run_array(&mut sheet, 1, 3, vec!["=A1", "=A2"]);
    set_code_run_array(&mut sheet, 1, 4, vec!["=A1", "=A2"]);
    sheet.set_row_format(
        1,
        FormatUpdate { bold: Some(Some(true)), italic: Some(Some(true)), ..Default::default() },
    );
    sheet.set_row_format(
        2,
        FormatUpdate { bold: Some(Some(false)), italic: Some(Some(false)), ..Default::default() },
    );

    let mut transaction = PendingTransaction::user();
    sheet.delete_row(&mut transaction, 1);
    assert_eq!(transaction.reverse_operations.len(), 3);

    assert_eq!(sheet.cell_value(Pos { x: 1, y: 1 }), text("E"));
    assert_eq!(
        sheet.format_cell(3, 1),
        Format { fill_color: Some("blue".to_string()), ..Default::default() }
    );
    assert!(sheet.code_runs.get(Pos { x: 1, y: 2 }).is_some());
    assert!(sheet.code_runs.get(Pos { x: 1, y: 3 }).is_some());
}

#[test]
fn row_insert_row_start() {
    let mut sheet = Sheet::new(SheetId { id: 1 });
    set_values(&mut sheet, 1, 1, 1, 3, vec!["A", "B", "C"]);
    let s = Some(BorderStyle::default());
    sheet.borders.set(1, 1, s, s, s, s);
    sheet.borders.set(1, 2, s, s, s, s);
    sheet.borders.set(1, 3, s, s, s, s);
    set_code_run_array(&mut sheet, 4, 1, vec!["A", "B"]);

    let mut transaction = PendingTransaction::default();
    sheet.insert_row(&mut transaction, 1, CopyFormats::NoCopy);

    assert_eq!(sheet.display_value(Pos { x: 1, y: 1 }), None);
    assert_eq!(sheet.display_value(Pos { x: 1, y: 2 }), text("A"));
    assert_eq!(sheet.display_value(Pos { x: 1, y: 3 }), text("B"));
    assert_eq!(sheet.display_value(Pos { x: 1, y: 4 }), text("C"));

    assert_eq!(sheet.borders.get(1, 1).top, None);
    assert_eq!(sheet.borders.get(1, 2).top.unwrap().line, CellBorderLine::default());
    assert_eq!(sheet.borders.get(1, 3).top.unwrap().line, CellBorderLine::default());
    assert_eq!(sheet.borders.get(1, 4).top.unwrap().line, CellBorderLine::default());
    assert_eq!(sheet.borders.get(5, 1).top, None);

    assert!(sheet.code_runs.get(Pos { x: 4, y: 1 }).is_none());
    assert!(sheet.code_runs.get(Pos { x: 4, y: 2 }).is_some());

    assert_eq!(sheet.display_value(Pos { x: 4, y: 2 }), text("A"));
}

#[test]
fn row_insert_row_middle() {
    let mut sheet = Sheet::new(SheetId { id: 1 });
    set_values(&mut sheet, 1, 1, 1, 3, vec!["A", "B", "C"]);

    let mut transaction = PendingTransaction::default();
    sheet.insert_row(&mut transaction, 2, CopyFormats::NoCopy);

    assert_eq!(sheet.display_value(Pos { x: 1, y: 1 }), text("A"));
    assert_eq!(sheet.display_value(Pos { x: 1, y: 2 }), None);
    assert_eq!(sheet.display_value(Pos { x: 1, y: 3 }), text("B"));
    assert_eq!(sheet.display_value(Pos { x: 1, y: 4 }), text("C"));
}

#[test]
fn row_insert_row_end() {
    let mut sheet = Sheet::new(SheetId { id: 1 });
    set_values(&mut sheet, 1, 1, 1, 2, vec!["A", "B"]);

    let mut transaction = PendingTransaction::default();
    sheet.insert_row(&mut transaction, 3, CopyFormats::NoCopy);

    assert_eq!(sheet.display_value(Pos { x: 1, y: 1 }), text("A"));
    assert_eq!(sheet.display_value(Pos { x: 1, y: 2 }), text("B"));
    assert_eq!(sheet.display_value(Pos { x: 1, y: 3 }), None);
}

#[test]
fn test_values_ops_for_column() {
    let mut sheet = Sheet::new(SheetId { id: 1 });
    set_values(&mut sheet, 1, 1, 2, 2, vec!["a", "b", "c", "d"]);
    let ops = sheet.reverse_values_ops_for_row(2);
    assert_eq!(ops.len(), 1);
}

#[test]
fn insert_row_offset() {
    let mut sheet = Sheet::new(SheetId { id: 1 });
    sheet.offsets.set_row_height(1, 100);
    sheet.offsets.set_row_height(2, 200);
    sheet.offsets.set_row_height(4, 400);

    let mut transaction = PendingTransaction::default();
    sheet.insert_row(&mut transaction, 2, CopyFormats::NoCopy);
    assert_eq!(sheet.offsets.row_height(1), 100);
    assert_eq!(sheet.offsets.row_height(2), DEFAULT_ROW_HEIGHT);
    assert_eq!(sheet.offsets.row_height(3), 200);
    assert_eq!(sheet.offsets.row_height(5), 400);
}

#[test]
fn delete_column_offset() {
    let mut sheet = Sheet::new(SheetId { id: 1 });
    sheet.offsets.set_row_height(1, 100);
    sheet.offsets.set_row_height(2, 200);
    sheet.offsets.set_row_height(4, 400);

    let mut transaction = PendingTransaction::default();
    sheet.delete_row(&mut transaction, 2);
    assert_eq!(sheet.offsets.row_height(1), 100);
    assert_eq!(sheet.offsets.row_height(2), DEFAULT_ROW_HEIGHT);
    assert_eq!(sheet.offsets.row_height(3), 400);
}

#[test]
fn delete_row_records_resize_before_reinsert() {
    let mut sheet = Sheet::new(SheetId { id: 7 });
    sheet.offsets.set_row_height(2, 200);
    let mut transaction = PendingTransaction::user();
    sheet.delete_row(&mut transaction, 2);
    assert_eq!(
        transaction.reverse_operations,
        vec![
            Operation::ResizeRow { sheet_id: SheetId { id: 7 }, row: 2, new_size: 200, client_resized: false },
            Operation::InsertRow { sheet_id: SheetId { id: 7 }, row: 2, copy_formats: CopyFormats::NoCopy },
        ]
    );
    assert_eq!(transaction.offsets_modified, vec![]);
}

#[test]
fn insert_row_records_delete_first() {
    let mut sheet = Sheet::new(SheetId { id: 3 });
    set_values(&mut sheet, 1, 1, 1, 2, vec!["A", "B"]);
    let mut transaction = PendingTransaction::user();
    sheet.insert_row(&mut transaction, 1, CopyFormats::NoCopy);
    assert_eq!(
        transaction.reverse_operations,
        vec![Operation::DeleteRow { sheet_id: SheetId { id: 3 }, row: 1 }]
    );
}

#[test]
fn insert_then_delete_row_round_trip() {
    let mut sheet = Sheet::new(SheetId { id: 1 });
    set_values(&mut sheet, 1, 1, 4, 4, letters());
    sheet.set_format_cell(Pos { x: 2, y: 3 }, FormatUpdate { bold: Some(Some(true)), ..Default::default() });
    sheet.borders.set_rect_borders(Rect::new(1, 1, 3, 3), Some(BorderStyle::default()));
    set_code_run_array(&mut sheet, 6, 2, vec!["x", "y"]);
    sheet.offsets.set_row_height(3, 50);

    let mut before = Sheet::new(SheetId { id: 1 });
    set_values(&mut before, 1, 1, 4, 4, letters());
    before.set_format_cell(Pos { x: 2, y: 3 }, FormatUpdate { bold: Some(Some(true)), ..Default::default() });
    before.borders.set_rect_borders(Rect::new(1, 1, 3, 3), Some(BorderStyle::default()));
    set_code_run_array(&mut before, 6, 2, vec!["x", "y"]);
    before.offsets.set_row_height(3, 50);

    let mut transaction = PendingTransaction::default();
    sheet.insert_row(&mut transaction, 2, CopyFormats::NoCopy);
    sheet.delete_row(&mut transaction, 2);

    for y in 0..6 {
        for x in 0..8 {
            let p = Pos { x, y };
            assert_eq!(sheet.cell_value(p), before.cell_value(p));
            assert_eq!(sheet.display_value(p), before.display_value(p));
            assert_eq!(sheet.format_cell(x, y), before.format_cell(x, y));
            assert_eq!(sheet.borders.get(x, y), before.borders.get(x, y));
        }
        assert_eq!(sheet.offsets.row_height(y), before.offsets.row_height(y));
    }
    assert_eq!(sheet.code_runs, before.code_runs);
}

#[test]
fn rows_above_are_untouched() {
    let mut sheet = Sheet::new(SheetId { id: 1 });
    set_values(&mut sheet, 1, 1, 4, 4, letters());
    let mut transaction = PendingTransaction::default();
    sheet.delete_row(&mut transaction, 3);
    assert_eq!(sheet.cell_value(Pos { x: 1, y: 1 }), text("A"));
    assert_eq!(sheet.cell_value(Pos { x: 4, y: 2 }), text("H"));
    assert_eq!(sheet.cell_value(Pos { x: 1, y: 3 }), text("M"));
    sheet.insert_row(&mut transaction, 2, CopyFormats::NoCopy);
    assert_eq!(sheet.cell_value(Pos { x: 2, y: 1 }), text("B"));
    assert_eq!(sheet.cell_value(Pos { x: 2, y: 2 }), None);
    assert_eq!(sheet.cell_value(Pos { x: 2, y: 3 }), text("F"));
}

#[test]
fn insert_row_undo_values() {
    let mut sheet = Sheet::new(SheetId { id: 1 });
    set_values(&mut sheet, 1, 1, 1, 3, vec!["A", "B", "C"]);
    let mut transaction = PendingTransaction::user();
    sheet.insert_row(&mut transaction, 2, CopyFormats::NoCopy);
    assert_eq!(sheet.cell_value(Pos { x: 1, y: 2 }), None);
    let mut undo = PendingTransaction::default();
    for op in transaction.reverse_operations.into_iter().rev() {
        if let Operation::DeleteRow { row, .. } = op {
            sheet.delete_row(&mut undo, row);
        }
    }
    assert_eq!(sheet.cell_value(Pos { x: 1, y: 1 }), text("A"));
    assert_eq!(sheet.cell_value(Pos { x: 1, y: 2 }), text("B"));
    assert_eq!(sheet.cell_value(Pos { x: 1, y: 3 }), text("C"));
    assert_eq!(sheet.cell_value(Pos { x: 1, y: 4 }), None);
}

#[test]
fn values_ops_are_chunked() {
    let mut sheet = Sheet::new(SheetId { id: 1 });
    let width = 2 * (MAX_OPERATION_SIZE_COL_ROW + 1) + 5;
    for x in 0..width {
        sheet.set_cell_value(10 + x, 4, CellValue::Number(x));
    }
    let ops = sheet.reverse_values_ops_for_row(4);
    assert_eq!(ops.len(), 3);
    let mut next = 10;
    for op in &ops {
        match op {
            Operation::SetCellValues { sheet_pos, values } => {
                assert_eq!(sheet_pos.x, next);
                assert_eq!(sheet_pos.y, 4);
                assert_eq!(values[0], Some(CellValue::Number(next - 10)));
                next += values.len() as i64;
            }
            _ => panic!("not a values operation"),
        }
    }
    assert_eq!(next, 10 + width);
    assert!(sheet.reverse_values_ops_for_row(5).is_empty());
}

#[test]
fn formats_ops_cover_row() {
    let mut sheet = Sheet::new(SheetId { id: 1 });
    sheet.set_format_cell(Pos { x: 2, y: 5 }, FormatUpdate { bold: Some(Some(true)), ..Default::default() });
    sheet.set_format_cell(Pos { x: 4, y: 5 }, FormatUpdate { italic: Some(Some(true)), ..Default::default() });
    let ops = sheet.reverse_formats_ops_for_row(5);
    assert_eq!(ops.len(), 1);
    match &ops[0] {
        Operation::SetCellFormatsSelection { selection, formats } => {
            assert_eq!(selection.rects, Some(vec![Rect::new(2, 5, 4, 5)]));
            assert_eq!(selection.rows, None);
            assert_eq!(formats.len(), 3);
            assert_eq!(formats[0].bold, Some(Some(true)));
            assert_eq!(formats[1].bold, Some(None));
            assert_eq!(formats[2].italic, Some(Some(true)));
        }
        _ => panic!("not a formats operation"),
    }
    assert!(sheet.reverse_formats_ops_for_row(6).is_empty());
}

#[test]
fn code_runs_for_row_records_index() {
    let mut sheet = Sheet::new(SheetId { id: 1 });
    set_code_run_array(&mut sheet, 1, 1, vec!["a"]);
    set_code_run_array(&mut sheet, 2, 2, vec!["b"]);
    set_code_run_array(&mut sheet, 3, 2, vec!["c"]);
    let ops = sheet.code_runs_for_row(2);
    assert_eq!(ops.len(), 2);
    match &ops[1] {
        Operation::SetCodeRun { sheet_pos, code_run, index } => {
            assert_eq!((sheet_pos.x, sheet_pos.y), (3, 2));
            assert_eq!(*index, 2);
            assert_eq!(code_run.as_ref().unwrap().output, vec![CellValue::Text("c".to_string())]);
        }
        _ => panic!("not a code operation"),
    }
}

#[test]
fn insert_row_copies_formats_after() {
    let mut sheet = Sheet::new(SheetId { id: 1 });
    sheet.set_format_cell(Pos { x: 1, y: 2 }, FormatUpdate { fill_color: Some(Some("red".to_string())), ..Default::default() });
    sheet.set_row_format(2, FormatUpdate { bold: Some(Some(true)), ..Default::default() });
    let mut transaction = PendingTransaction::default();
    sheet.insert_row(&mut transaction, 2, CopyFormats::After);
    assert_eq!(sheet.format_cell(1, 2).fill_color, Some("red".to_string()));
    assert_eq!(sheet.format_cell(1, 3).fill_color, Some("red".to_string()));
    assert_eq!(sheet.try_format_row(2).unwrap().bold, Some(true));
    assert_eq!(sheet.try_format_row(3).unwrap().bold, Some(true));
    assert_eq!(transaction.fill_cells, vec![SheetId { id: 1 }]);
}

#[test]
fn delete_row_flags_borders_and_fill() {
    let mut sheet = Sheet::new(SheetId { id: 2 });
    sheet.borders.set_rect_borders(Rect::new(1, 1, 1, 1), Some(BorderStyle::default()));
    let mut transaction = PendingTransaction::default();
    sheet.delete_row(&mut transaction, 5);
    assert!(transaction.sheet_borders.is_empty());
    assert!(transaction.fill_cells.is_empty());
    sheet.set_format_cell(Pos { x: 1, y: 3 }, FormatUpdate { fill_color: Some(Some("red".to_string())), ..Default::default() });
    sheet.delete_row(&mut transaction, 1);
    assert_eq!(transaction.sheet_borders, vec![SheetId { id: 2 }]);
    assert_eq!(transaction.fill_cells, vec![SheetId { id: 2 }]);
    assert_eq!(sheet.format_cell(1, 2).fill_color, Some("red".to_string()));
    assert_eq!(sheet.borders.get(1, 1).left, None);
    assert_eq!(sheet.borders.get(1, 1).top, None);
}

fn positions(sheet: &Sheet) -> Vec<(i64, i64)> {
    sheet.code_runs.positions.iter().map(|p| (p.x, p.y)).collect()
}

#[test]
fn delete_row_moves_code_results_to_end_ascending() {
    let mut sheet = Sheet::new(SheetId { id: 1 });
    for (x, y) in [(5, 3), (1, 1), (2, 4), (1, 3)] {
        set_code_run_array(&mut sheet, x, y, vec!["v"]);
    }
    let mut transaction = PendingTransaction::default();
    sheet.delete_row(&mut transaction, 2);
    assert_eq!(positions(&sheet), vec![(1, 1), (1, 2), (2, 3), (5, 2)]);
    assert_eq!(transaction.code_cells.len(), 6);
}

#[test]
fn insert_row_moves_code_results_to_end_descending() {
    let mut sheet = Sheet::new(SheetId { id: 1 });
    for (x, y) in [(1, 1), (3, 2), (2, 5), (4, 0)] {
        set_code_run_array(&mut sheet, x, y, vec!["v"]);
    }
    let mut transaction = PendingTransaction::default();
    sheet.insert_row(&mut transaction, 1, CopyFormats::NoCopy);
    assert_eq!(positions(&sheet), vec![(4, 0), (3, 3), (2, 6), (1, 2)]);
    assert_eq!(
        transaction.reverse_operations,
        vec![Operation::DeleteRow { sheet_id: SheetId { id: 1 }, row: 1 }]
    );
}
