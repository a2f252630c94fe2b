//! Border styles and the per-cell view of the four edges of a cell.
use vstd::prelude::*;

verus! {

#[derive(Clone, Copy, Debug, PartialEq, Eq, Structural)]
pub struct Rgba {
    pub red: u8,
    pub green: u8,
    pub blue: u8,
    pub alpha: u8,
}

impl Default for Rgba {
    fn default() -> (r: Self)
        ensures
            r == (Rgba { red: 0, green: 0, blue: 0, alpha: 255 }),
    {
        Rgba { red: 0, green: 0, blue: 0, alpha: 255 }
    }
}

#[derive(Clone, Copy, Debug, PartialEq, Eq, Structural)]
pub enum CellBorderLine {
    Line1,
    Line2,
    Line3,
    Dotted,
    Dashed,
    Double,
}

impl Default for CellBorderLine {
    fn default() -> (r: Self)
        ensures
            r == CellBorderLine::Line1,
    {
        CellBorderLine::Line1
    }
}

/// The look of one border segment.
#[derive(Clone, Copy, Debug, PartialEq, Eq, Structural)]
pub struct BorderStyle {
    pub color: Rgba,
    pub line: CellBorderLine,
}

pub open spec fn default_style() -> BorderStyle {
    BorderStyle { color: Rgba { red: 0, green: 0, blue: 0, alpha: 255 }, line: CellBorderLine::Line1 }
}

impl Default for BorderStyle {
    fn default() -> (r: Self)
        ensures
            r == default_style(),
    {
        BorderStyle { color: Rgba::default(), line: CellBorderLine::default() }
    }
}

/// The four edges of one cell, each possibly bordered.
#[derive(Clone, Copy, Debug, PartialEq, Eq, Structural)]
pub struct BorderStyleCell {
    pub top: Option<BorderStyle>,
    pub bottom: Option<BorderStyle>,
    pub left: Option<BorderStyle>,
    pub right: Option<BorderStyle>,
}

impl BorderStyleCell {
    pub open spec fn is_blank(&self) -> bool {
        self.top.is_none() && self.bottom.is_none() && self.left.is_none() && self.right.is_none()
    }

    /// An update that replaces every edge with this cell's edge, clearing the
    /// ones that are unset.
    pub fn override_border(&self) -> (r: BorderStyleCellUpdate)
        ensures
            r == self.override_spec(),
    {
        BorderStyleCellUpdate {
            top: Some(self.top),
            bottom: Some(self.bottom),
            left: Some(self.left),
            right: Some(self.right),
        }
    }

    pub open spec fn override_spec(&self) -> BorderStyleCellUpdate {
        BorderStyleCellUpdate {
            top: Some(self.top),
            bottom: Some(self.bottom),
            left: Some(self.left),
            right: Some(self.right),
        }
    }
}

/// A change to the edges of a cell: `None` leaves an edge alone,
/// `Some(None)` clears it, `Some(Some(s))` sets it to `s`.
#[derive(Clone, Copy, Debug, PartialEq, Eq, Structural)]
pub struct BorderStyleCellUpdate {
    pub top: Option<Option<BorderStyle>>,
    pub bottom: Option<Option<BorderStyle>>,
    pub left: Option<Option<BorderStyle>>,
    pub right: Option<Option<BorderStyle>>,
}

impl BorderStyleCellUpdate {
    /// Sets all four edges to the default style.
    pub fn all() -> (r: Self)
        ensures
            r.top == Some(Some(default_style())),
            r.bottom == Some(Some(default_style())),
            r.left == Some(Some(default_style())),
            r.right == Some(Some(default_style())),
    {
        let s = BorderStyle::default();
        BorderStyleCellUpdate {
            top: Some(Some(s)),
            bottom: Some(Some(s)),
            left: Some(Some(s)),
            right: Some(Some(s)),
        }
    }
}

} // verus!
