//! Cell values and the cached results of code cells.
use vstd::prelude::*;

verus! {

#[derive(Clone, Copy, Debug, PartialEq, Eq, Structural)]
pub enum CodeCellLanguage {
    Formula,
    Python,
    Javascript,
}

/// What a cell holds.
#[derive(Clone, Debug, PartialEq, Eq)]
pub enum CellValue {
    Text(String),
    Number(i64),
    Logical(bool),
    Code(CodeCellLanguage, String),
}

impl CellValue {
    pub fn duplicate(&self) -> (r: Self)
        ensures
            r == *self,
    {
        match self {
            CellValue::Text(s) => CellValue::Text(s.clone()),
            CellValue::Number(n) => CellValue::Number(*n),
            CellValue::Logical(b) => CellValue::Logical(*b),
            CellValue::Code(l, s) => CellValue::Code(*l, s.clone()),
        }
    }

    pub open spec fn is_code(&self) -> bool {
        self is Code
    }
}

#[derive(Clone, Copy, Debug, PartialEq, Eq, Structural)]
pub enum CodeRunKind {
    Plain,
    Html,
    Image,
}

/// The cached output of a code cell: a line of values that spills from the
/// cell along its row, or down its column when `vertical` is set.
#[derive(Clone, Debug, PartialEq, Eq)]
pub struct CodeRun {
    pub kind: CodeRunKind,
    pub output: Vec<CellValue>,
    pub vertical: bool,
}

impl CodeRun {
    pub fn is_html(&self) -> (r: bool)
        ensures
            r == (self.kind == CodeRunKind::Html),
    {
        match self.kind {
            CodeRunKind::Html => true,
            _ => false,
        }
    }

    pub fn is_image(&self) -> (r: bool)
        ensures
            r == (self.kind == CodeRunKind::Image),
    {
        match self.kind {
            CodeRunKind::Image => true,
            _ => false,
        }
    }

    pub fn duplicate(&self) -> (r: Self)
        ensures
            r.kind == self.kind,
            r.vertical == self.vertical,
            r.output@ == self.output@,
    {
        let mut out: Vec<CellValue> = Vec::new();
        let mut i: usize = 0;
        while i < self.output.len()
            invariant
                i <= self.output@.len(),
                out@ == self.output@.take(i as int),
            decreases self.output@.len() - i,
        {
            out.push(self.output[i].duplicate());
            proof {
                assert(self.output@.take(i as int + 1) == self.output@.take(i as int).push(
                    self.output@[i as int],
                ));
            }
            i = i + 1;
        }
        proof {
            assert(self.output@.take(self.output@.len() as int) == self.output@);
        }
        CodeRun { kind: self.kind, output: out, vertical: self.vertical }
    }
}

} // verus!
