//! Cell formatting: the value kinds of each format attribute, a whole format,
//! and an update that sets or clears attributes.
use vstd::prelude::*;

verus! {

#[derive(Clone, Copy, Debug, PartialEq, Eq, Structural)]
pub enum CellAlign {
    Left,
    Center,
    Right,
}

#[derive(Clone, Copy, Debug, PartialEq, Eq, Structural)]
pub enum CellVerticalAlign {
    Top,
    Middle,
    Bottom,
}

#[derive(Clone, Copy, Debug, PartialEq, Eq, Structural)]
pub enum CellWrap {
    Overflow,
    Wrap,
    Clip,
}

#[derive(Clone, Copy, Debug, PartialEq, Eq, Structural)]
pub enum NumericKind {
    Number,
    Currency,
    Percentage,
    Exponential,
}

#[derive(Clone, Debug, PartialEq, Eq)]
pub struct NumericFormat {
    pub kind: NumericKind,
    pub symbol: Option<String>,
}

#[derive(Clone, Debug, PartialEq, Eq)]
pub struct RenderSize {
    pub w: String,
    pub h: String,
}

/// A copy of an optional string.
pub fn copy_text(s: &Option<String>) -> (r: Option<String>)
    ensures
        r == *s,
{
    match s {
        Some(t) => Some(t.clone()),
        None => None,
    }
}

impl NumericFormat {
    pub fn duplicate(&self) -> (r: Self)
        ensures
            r == *self,
    {
        NumericFormat { kind: self.kind, symbol: copy_text(&self.symbol) }
    }
}

impl RenderSize {
    pub fn duplicate(&self) -> (r: Self)
        ensures
            r == *self,
    {
        RenderSize { w: self.w.clone(), h: self.h.clone() }
    }
}

/// The formatting of one cell, row or column; an unset attribute falls back
/// to what lies beneath it.
#[derive(Clone, Debug, PartialEq, Eq)]
pub struct Format {
    pub align: Option<CellAlign>,
    pub vertical_align: Option<CellVerticalAlign>,
    pub wrap: Option<CellWrap>,
    pub numeric_format: Option<NumericFormat>,
    pub numeric_decimals: Option<i16>,
    pub numeric_commas: Option<bool>,
    pub bold: Option<bool>,
    pub italic: Option<bool>,
    pub text_color: Option<String>,
    pub fill_color: Option<String>,
    pub render_size: Option<RenderSize>,
    pub date_time: Option<String>,
    pub underline: Option<bool>,
    pub strike_through: Option<bool>,
}

pub open spec fn blank_format() -> Format {
    Format {
        align: None,
        vertical_align: None,
        wrap: None,
        numeric_format: None,
        numeric_decimals: None,
        numeric_commas: None,
        bold: None,
        italic: None,
        text_color: None,
        fill_color: None,
        render_size: None,
        date_time: None,
        underline: None,
        strike_through: None,
    }
}

impl Default for Format {
    fn default() -> (r: Self)
        ensures
            r == blank_format(),
    {
        Format {
            align: None,
            vertical_align: None,
            wrap: None,
            numeric_format: None,
            numeric_decimals: None,
            numeric_commas: None,
            bold: None,
            italic: None,
            text_color: None,
            fill_color: None,
            render_size: None,
            date_time: None,
            underline: None,
            strike_through: None,
        }
    }
}

impl Format {
    pub open spec fn is_blank(&self) -> bool {
        *self == blank_format()
    }

    pub fn duplicate(&self) -> (r: Self)
        ensures
            r == *self,
    {
        Format {
            align: self.align,
            vertical_align: self.vertical_align,
            wrap: self.wrap,
            numeric_format: match &self.numeric_format {
                Some(n) => Some(n.duplicate()),
                None => None,
            },
            numeric_decimals: self.numeric_decimals,
            numeric_commas: self.numeric_commas,
            bold: self.bold,
            italic: self.italic,
            text_color: copy_text(&self.text_color),
            fill_color: copy_text(&self.fill_color),
            render_size: match &self.render_size {
                Some(s) => Some(s.duplicate()),
                None => None,
            },
            date_time: copy_text(&self.date_time),
            underline: self.underline,
            strike_through: self.strike_through,
        }
    }

    pub open spec fn replace_spec(&self) -> FormatUpdate {
        FormatUpdate {
            align: Some(self.align),
            vertical_align: Some(self.vertical_align),
            wrap: Some(self.wrap),
            numeric_format: Some(self.numeric_format),
            numeric_decimals: Some(self.numeric_decimals),
            numeric_commas: Some(self.numeric_commas),
            bold: Some(self.bold),
            italic: Some(self.italic),
            text_color: Some(self.text_color),
            fill_color: Some(self.fill_color),
            render_size: Some(self.render_size),
            date_time: Some(self.date_time),
            underline: Some(self.underline),
            strike_through: Some(self.strike_through),
        }
    }

    /// An update that makes a target's format exactly this one, clearing the
    /// attributes that are unset here.
    pub fn to_replace(&self) -> (r: FormatUpdate)
        ensures
            r == self.replace_spec(),
    {
        let f = self.duplicate();
        FormatUpdate {
            align: Some(f.align),
            vertical_align: Some(f.vertical_align),
            wrap: Some(f.wrap),
            numeric_format: Some(f.numeric_format),
            numeric_decimals: Some(f.numeric_decimals),
            numeric_commas: Some(f.numeric_commas),
            bold: Some(f.bold),
            italic: Some(f.italic),
            text_color: Some(f.text_color),
            fill_color: Some(f.fill_color),
            render_size: Some(f.render_size),
            date_time: Some(f.date_time),
            underline: Some(f.underline),
            strike_through: Some(f.strike_through),
        }
    }
}

/// A change to a format: `None` leaves an attribute alone, `Some(None)`
/// clears it, `Some(Some(v))` sets it to `v`.
#[derive(Clone, Debug, PartialEq, Eq)]
pub struct FormatUpdate {
    pub align: Option<Option<CellAlign>>,
    pub vertical_align: Option<Option<CellVerticalAlign>>,
    pub wrap: Option<Option<CellWrap>>,
    pub numeric_format: Option<Option<NumericFormat>>,
    pub numeric_decimals: Option<Option<i16>>,
    pub numeric_commas: Option<Option<bool>>,
    pub bold: Option<Option<bool>>,
    pub italic: Option<Option<bool>>,
    pub text_color: Option<Option<String>>,
    pub fill_color: Option<Option<String>>,
    pub render_size: Option<Option<RenderSize>>,
    pub date_time: Option<Option<String>>,
    pub underline: Option<Option<bool>>,
    pub strike_through: Option<Option<bool>>,
}

pub open spec fn no_update() -> FormatUpdate {
    FormatUpdate {
        align: None,
        vertical_align: None,
        wrap: None,
        numeric_format: None,
        numeric_decimals: None,
        numeric_commas: None,
        bold: None,
        italic: None,
        text_color: None,
        fill_color: None,
        render_size: None,
        date_time: None,
        underline: None,
        strike_through: None,
    }
}

impl Default for FormatUpdate {
    fn default() -> (r: Self)
        ensures
            r == no_update(),
    {
        FormatUpdate {
            align: None,
            vertical_align: None,
            wrap: None,
            numeric_format: None,
            numeric_decimals: None,
            numeric_commas: None,
            bold: None,
            italic: None,
            text_color: None,
            fill_color: None,
            render_size: None,
            date_time: None,
            underline: None,
            strike_through: None,
        }
    }
}

} // verus!
