//! Structural edits of a spreadsheet grid: opening and closing rows and
//! columns across every sparse store of a sheet, with the operations that
//! undo them.
pub mod axis;
pub mod runs;
pub mod style;
pub mod borders;
pub mod format;
pub mod cell;
pub mod ops;
pub mod span;
pub mod offsets;
pub mod transaction;
pub mod code;
pub mod sheet;
pub mod row;
pub mod laws;
