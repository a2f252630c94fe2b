use quadratic_core::borders::Borders;
use quadratic_core::ops::{Operation, Rect, SheetId};
use quadratic_core::style::{BorderStyle, BorderStyleCellUpdate, CellBorderLine, Rgba};

fn style(line: CellBorderLine) -> BorderStyle {
    BorderStyle { color: Rgba { red: 10, green: 20, blue: 30, alpha: 255 }, line }
}

fn block() -> Borders {
    let mut b = Borders::new();
    b.set_rect_borders(Rect::new(1, 1, 10, 10), Some(BorderStyle::default()));
    b
}

#[test]
fn insert_column_splits_block() {
    let mut b = block();
    assert!(b.insert_column(5));
    for y in 1..=10 {
        for x in 1..=11 {
            let cell = b.get(x, y);
            if x == 5 {
                assert_eq!(cell.top, None);
                assert_eq!(cell.left, None);
            } else {
                assert_eq!(cell.top, Some(BorderStyle::default()));
                assert_eq!(cell.bottom, Some(BorderStyle::default()));
                assert_eq!(cell.left, Some(BorderStyle::default()));
                assert_eq!(cell.right, Some(BorderStyle::default()));
            }
        }
    }
    assert_eq!(b.get(12, 1).top, None);
}

#[test]
fn remove_first_column_keeps_block() {
    let mut b = block();
    assert!(b.remove_column(1));
    for y in 1..=10 {
        for x in 1..=9 {
            assert_eq!(b.get(x, y).top, Some(BorderStyle::default()));
        }
        assert_eq!(b.get(10, y).top, None);
    }
}

#[test]
fn untouched_column_is_no_op() {
    let mut b = block();
    assert!(!b.insert_column(12));
    assert_eq!(b, block());
    assert!(!b.remove_column(11));
    assert_eq!(b, block());
    assert!(!b.insert_row(12));
    assert_eq!(b, block());
    assert!(!b.remove_row(11));
    assert_eq!(b, block());
}

#[test]
fn insert_then_remove_row_restores_cells() {
    let mut b = block();
    b.set(3, 4, None, Some(style(CellBorderLine::Dashed)), None, None);
    let mut before = block();
    before.set(3, 4, None, Some(style(CellBorderLine::Dashed)), None, None);
    assert!(b.insert_row(4));
    assert!(b.remove_row(4));
    for y in 0..12 {
        for x in 0..12 {
            assert_eq!(b.get(x, y), before.get(x, y));
        }
    }
}

#[test]
fn cleared_cell_splits_run() {
    let mut b = block();
    b.set(5, 5, None, None, None, None);
    assert_eq!(b.get(5, 5).top, None);
    assert_eq!(b.get(4, 5).top, Some(BorderStyle::default()));
    assert_eq!(b.get(6, 5).top, Some(BorderStyle::default()));
    let ops = b.get_row_ops(SheetId { id: 1 }, 5);
    match &ops[0] {
        Operation::SetBordersSelection { selection, borders } => {
            assert_eq!(selection.rects, Some(vec![Rect::new(1, 5, 10, 5)]));
            assert_eq!(borders.len(), 10);
            assert_eq!(borders[4], BorderStyleCellUpdate { top: Some(None), bottom: Some(None), left: Some(None), right: Some(None) });
        }
        _ => panic!("not a borders operation"),
    }
}

#[test]
fn empty_line_has_no_ops() {
    let b = block();
    assert!(b.get_column_ops(SheetId { id: 1 }, 20).is_empty());
    assert!(b.get_row_ops(SheetId { id: 1 }, 0).is_empty());
    assert_eq!(b.bounds_column(3), Some((1, 10)));
    assert_eq!(b.bounds_row(11), None);
}
