use quadratic_core::cell::{CellValue, CodeCellLanguage, CodeRun, CodeRunKind};
use quadratic_core::format::FormatUpdate;
use quadratic_core::ops::{Operation, Pos, Rect, SheetId};
use quadratic_core::sheet::Sheet;
use quadratic_core::style::{BorderStyle, BorderStyleCell, CellBorderLine, Rgba};
use quadratic_core::transaction::PendingTransaction;

fn pick(current: Option<BorderStyle>, update: Option<Option<BorderStyle>>) -> Option<BorderStyle> {
    match update {
        Some(v) => v,
        None => current,
    }
}

/// Applies one recorded operation the way an undo stack would.
fn apply(sheet: &mut Sheet, op: Operation) {
    let mut transaction = PendingTransaction::default();
    match op {
        Operation::InsertRow { row, copy_formats, .. } => sheet.insert_row(&mut transaction, row, copy_formats),
        Operation::DeleteRow { row, .. } => sheet.delete_row(&mut transaction, row),
        Operation::SetCellValues { sheet_pos, values } => {
            for (i, value) in values.into_iter().enumerate() {
                if let Some(value) = value {
                    sheet.set_cell_value(sheet_pos.x + i as i64, sheet_pos.y, value);
                }
            }
        }
        Operation::SetCodeRun { sheet_pos, code_run, index } => {
            if let Some(run) = code_run {
                sheet.code_runs.insert_at(index, Pos { x: sheet_pos.x, y: sheet_pos.y }, run);
            }
        }
        Operation::ResizeRow { row, new_size, .. } => sheet.offsets.set_row_height(row, new_size),
        Operation::SetCellFormatsSelection { selection, formats } => {
            let mut updates = formats.into_iter();
            for row in selection.rows.unwrap_or_default() {
                sheet.set_row_format(row, updates.next().unwrap());
            }
            for rect in selection.rects.unwrap_or_default() {
                for y in rect.min.y..=rect.max.y {
                    for x in rect.min.x..=rect.max.x {
                        sheet.set_format_cell(Pos { x, y }, updates.next().unwrap());
                    }
                }
            }
        }
        Operation::SetBordersSelection { selection, borders } => {
            let mut updates = borders.into_iter();
            for row in selection.rows.unwrap_or_default() {
                let u = updates.next().unwrap();
                let cell = BorderStyleCell { top: pick(None, u.top), bottom: pick(None, u.bottom), left: pick(None, u.left), right: pick(None, u.right) };
                sheet.borders.rows.set(row, cell);
            }
            for rect in selection.rects.unwrap_or_default() {
                for y in rect.min.y..=rect.max.y {
                    for x in rect.min.x..=rect.max.x {
                        let u = updates.next().unwrap();
                        let c = sheet.borders.get(x, y);
                        sheet.borders.set(x, y, pick(c.top, u.top), pick(c.bottom, u.bottom), pick(c.left, u.left), pick(c.right, u.right));
                    }
                }
            }
        }
    }
}

fn build() -> Sheet {
    let mut sheet = Sheet::new(SheetId { id: 9 });
    for y in 1..=3 {
        for x in 1..=3 {
            sheet.set_cell_value(x, y, CellValue::Number(10 * y + x));
        }
    }
    sheet.set_format_cell(Pos { x: 2, y: 2 }, FormatUpdate { bold: Some(Some(true)), ..Default::default() });
    sheet.set_format_cell(Pos { x: 3, y: 2 }, FormatUpdate { fill_color: Some(Some("blue".to_string())), ..Default::default() });
    sheet.set_row_format(2, FormatUpdate { italic: Some(Some(true)), ..Default::default() });
    sheet.borders.set_rect_borders(Rect::new(1, 1, 3, 3), Some(BorderStyle::default()));
    let dashed = BorderStyle { color: Rgba { red: 200, green: 0, blue: 0, alpha: 255 }, line: CellBorderLine::Dashed };
    sheet.borders.set(2, 2, Some(dashed), None, Some(dashed), None);
    sheet.set_cell_value(5, 2, CellValue::Code(CodeCellLanguage::Python, "1 + 1".to_string()));
    sheet.set_code_run(Pos { x: 5, y: 2 }, CodeRun { kind: CodeRunKind::Html, output: vec![CellValue::Number(2)], vertical: true });
    sheet.set_code_run(Pos { x: 6, y: 3 }, CodeRun { kind: CodeRunKind::Plain, output: vec![CellValue::Logical(true)], vertical: false });
    sheet.offsets.set_row_height(2, 40);
    sheet.offsets.set_row_height(3, 60);
    sheet
}

#[test]
fn delete_row_then_replay_restores_sheet() {
    let mut sheet = build();
    let before = build();

    let mut transaction = PendingTransaction::user();
    sheet.delete_row(&mut transaction, 2);
    assert_eq!(sheet.cell_value(Pos { x: 1, y: 2 }), Some(CellValue::Number(31)));
    assert_eq!(transaction.html_cells.len(), 1);

    for op in transaction.reverse_operations.into_iter().rev() {
        apply(&mut sheet, op);
    }

    for y in 0..=5 {
        for x in 0..=7 {
            let p = Pos { x, y };
            assert_eq!(sheet.cell_value(p), before.cell_value(p), "value at {x},{y}");
            assert_eq!(sheet.display_value(p), before.display_value(p), "display at {x},{y}");
            assert_eq!(sheet.format_cell(x, y), before.format_cell(x, y), "format at {x},{y}");
            assert_eq!(sheet.borders.get(x, y), before.borders.get(x, y), "borders at {x},{y}");
        }
        assert_eq!(sheet.try_format_row(y), before.try_format_row(y), "row format {y}");
        assert_eq!(sheet.offsets.row_height(y), before.offsets.row_height(y), "height {y}");
    }
    assert_eq!(sheet.code_runs, before.code_runs);
}

#[test]
fn delete_row_without_undo_records_only_reinsert() {
    let mut sheet = build();
    let mut transaction = PendingTransaction::default();
    sheet.delete_row(&mut transaction, 2);
    assert_eq!(transaction.reverse_operations.len(), 2);
    assert!(matches!(transaction.reverse_operations[0], Operation::ResizeRow { row: 2, new_size: 40, .. }));
    assert!(matches!(transaction.reverse_operations[1], Operation::InsertRow { row: 2, .. }));
    assert_eq!(transaction.offsets_modified, vec![(SheetId { id: 9 }, 2, 60)]);
}
