//! The sheet's ordered store of code results, keyed by position.
use vstd::prelude::*;
use crate::cell::{CellValue, CodeRun, CodeRunKind};
use crate::ops::Pos;
use itertools::Itertools;

verus! {

pub open spec fn key(p: Pos) -> (int, int) {
    (p.x as int, p.y as int)
}

/// Code results in their order of insertion, one per position.
#[derive(Debug, PartialEq, Eq)]
pub struct CodeRuns {
    pub positions: Vec<Pos>,
    pub runs: Vec<CodeRun>,
}

impl View for CodeRuns {
    type V = Map<(int, int), CodeRun>;

    open spec fn view(&self) -> Map<(int, int), CodeRun> {
        Map::new(|c: (int, int)| self.holds(c), |c: (int, int)| self.runs@[self.index_of(c)])
    }
}

impl CodeRuns {
    pub open spec fn wf(&self) -> bool {
        &&& self.positions@.len() == self.runs@.len()
        &&& forall|i: int, j: int|
            0 <= i < self.positions@.len() && 0 <= j < self.positions@.len() && i != j ==> #[trigger] self.positions@[i] != #[trigger] self.positions@[j]
    }

    pub open spec fn holds(&self, c: (int, int)) -> bool {
        exists|i: int| 0 <= i < self.positions@.len() && #[trigger] key(self.positions@[i]) == c
    }

    pub open spec fn index_of(&self, c: (int, int)) -> int {
        choose|i: int| 0 <= i < self.positions@.len() && #[trigger] key(self.positions@[i]) == c
    }

    pub proof fn lemma_entry(&self, i: int)
        requires
            self.wf(),
            0 <= i < self.positions@.len(),
        ensures
            self@.contains_key(key(self.positions@[i])),
            self@[key(self.positions@[i])] == self.runs@[i],
            self.index_of(key(self.positions@[i])) == i,
    {
        let c = key(self.positions@[i]);
        assert(self.holds(c));
        let j = self.index_of(c);
        if j != i {
            assert(self.positions@[i] != self.positions@[j]);
        }
    }

    pub fn new() -> (r: Self)
        ensures
            r.wf(),
            r@ == Map::<(int, int), CodeRun>::empty(),
            r.positions@.len() == 0,
    {
        let r = CodeRuns { positions: Vec::new(), runs: Vec::new() };
        assert(r@ =~= Map::<(int, int), CodeRun>::empty());
        r
    }

    pub fn len(&self) -> (r: usize)
        requires
            self.wf(),
        ensures
            r == self.positions@.len(),
    {
        self.positions.len()
    }

    /// Where `pos` stands in the order, if it holds a result.
    pub fn find(&self, pos: Pos) -> (r: Option<usize>)
        requires
            self.wf(),
        ensures
            match r {
                Some(i) => i < self.positions@.len() && self.positions@[i as int] == pos,
                None => !self@.contains_key(key(pos)),
            },
    {
        let mut i: usize = 0;
        while i < self.positions.len()
            invariant
                self.wf(),
                i <= self.positions@.len(),
                forall|j: int| 0 <= j < i ==> self.positions@[j] != pos,
            decreases self.positions@.len() - i,
        {
            if self.positions[i] == pos {
                return Some(i);
            }
            i = i + 1;
        }
        proof {
            if self@.contains_key(key(pos)) {
                let j = self.index_of(key(pos));
                assert(self.positions@[j] == pos);
            }
        }
        None
    }

    pub fn get(&self, pos: Pos) -> (r: Option<&CodeRun>)
        requires
            self.wf(),
        ensures
            match r {
                Some(v) => self@.contains_key(key(pos)) && *v == self@[key(pos)],
                None => !self@.contains_key(key(pos)),
            },
    {
        match self.find(pos) {
            Some(i) => {
                proof {
                    self.lemma_entry(i as int);
                }
                Some(&self.runs[i])
            },
            None => None,
        }
    }

    /// Puts `run` at `pos`, before the result that now stands at `index`
    /// (at the end when `index` is past it). A result already at `pos` is
    /// replaced.
    pub fn insert_at(&mut self, index: usize, pos: Pos, run: CodeRun)
        requires
            old(self).wf(),
        ensures
            final(self).wf(),
            final(self)@ == old(self)@.insert(key(pos), run),
    {
        let ghost pre = *self;
        match self.find(pos) {
            Some(i) => {
                self.positions.remove(i);
                self.runs.remove(i);
            },
            None => {},
        }
        let ghost mid = *self;
        proof {
            assert(mid.wf());
            assert forall|c: (int, int)| c != key(pos) implies (#[trigger] mid@.contains_key(c)) == pre@.contains_key(c) && (mid@.contains_key(c) ==> mid@[c] == pre@[c]) by {
                if mid@.contains_key(c) {
                    let j = mid.index_of(c);
                    mid.lemma_entry(j);
                    if j < mid.positions@.len() && exists|i: int| 0 <= i < pre.positions@.len() && pre.positions@[i] == pos {
                        let i = choose|i: int| 0 <= i < pre.positions@.len() && pre.positions@[i] == pos;
                        if j < i {
                            pre.lemma_entry(j);
                        } else {
                            pre.lemma_entry(j + 1);
                        }
                    } else {
                        pre.lemma_entry(j);
                    }
                }
                if pre@.contains_key(c) {
                    let j = pre.index_of(c);
                    pre.lemma_entry(j);
                    if exists|i: int| 0 <= i < pre.positions@.len() && pre.positions@[i] == pos {
                        let i = choose|i: int| 0 <= i < pre.positions@.len() && pre.positions@[i] == pos;
                        if j < i {
                            mid.lemma_entry(j);
                        } else {
                            mid.lemma_entry(j - 1);
                        }
                    } else {
                        mid.lemma_entry(j);
                    }
                }
            }
            assert forall|j: int| 0 <= j < mid.positions@.len() implies mid.positions@[j] != pos by {
                mid.lemma_entry(j);
                if exists|i: int| 0 <= i < pre.positions@.len() && pre.positions@[i] == pos {
                    let i = choose|i: int| 0 <= i < pre.positions@.len() && pre.positions@[i] == pos;
                    if j < i {
                        assert(pre.positions@[j] != pre.positions@[i]);
                    } else {
                        assert(pre.positions@[j + 1] != pre.positions@[i]);
                    }
                } else {
                    if j < pre.positions@.len() {
                        pre.lemma_entry(j);
                    }
                }
            }
        }
        let at = if index < self.positions.len() {
            index
        } else {
            self.positions.len()
        };
        self.positions.insert(at, pos);
        self.runs.insert(at, run);
        proof {
            assert forall|c: (int, int)| (#[trigger] self@.contains_key(c)) == pre@.insert(key(pos), run).contains_key(c) && (self@.contains_key(c) ==> self@[c] == pre@.insert(key(pos), run)[c]) by {
                if self@.contains_key(c) {
                    let j = self.index_of(c);
                    if j < at {
                        mid.lemma_entry(j);
                    } else if j > at {
                        mid.lemma_entry(j - 1);
                    }
                }
                if mid@.contains_key(c) {
                    let j = mid.index_of(c);
                    if j < at {
                        self.lemma_entry(j);
                    } else {
                        self.lemma_entry(j + 1);
                    }
                }
                if c == key(pos) {
                    self.lemma_entry(at as int);
                }
            }
            assert(self@ =~= pre@.insert(key(pos), run));
        }
    }

    /// `b` holds `a`'s results in the same order, each position renamed by
    /// `f`, and `g` undoes `f`: then `b` holds at `c` what `a` holds at `g(c)`.
    proof fn lemma_relabel(a: &Self, b: &Self, f: spec_fn((int, int)) -> (int, int), g: spec_fn((int, int)) -> (int, int))
        requires
            a.wf(),
            a.runs@ == b.runs@,
            a.positions@.len() == b.positions@.len(),
            forall|j: int| 0 <= j < a.positions@.len() ==> key(#[trigger] b.positions@[j]) == f(key(a.positions@[j])),
            forall|j: int| 0 <= j < a.positions@.len() ==> g(f(key(#[trigger] a.positions@[j]))) == key(a.positions@[j]),
        ensures
            b.wf(),
            forall|c: (int, int)| #[trigger] b@.contains_key(c) <==> (a@.contains_key(g(c)) && f(g(c)) == c),
            forall|c: (int, int)| #[trigger] b@.contains_key(c) ==> b@[c] == a@[g(c)],
    {
        assert forall|i: int, j: int|
            0 <= i < b.positions@.len() && 0 <= j < b.positions@.len() && i != j implies #[trigger] b.positions@[i] != #[trigger] b.positions@[j] by {
            if b.positions@[i] == b.positions@[j] {
                assert(key(a.positions@[i]) == key(a.positions@[j]));
                assert(a.positions@[i] == a.positions@[j]);
            }
        }
        assert forall|c: (int, int)| #[trigger] b@.contains_key(c) implies a@.contains_key(g(c)) && f(g(c)) == c && b@[c] == a@[g(c)] by {
            let j = b.index_of(c);
            a.lemma_entry(j);
            b.lemma_entry(j);
        }
        assert forall|c: (int, int)| a@.contains_key(g(c)) && f(g(c)) == c implies #[trigger] b@.contains_key(c) by {
            let j = a.index_of(g(c));
            assert(key(b.positions@[j]) == c);
        }
    }

    /// Drops the result at position `i` of the order.
    pub fn remove_index(&mut self, i: usize) -> (r: (Pos, CodeRun))
        requires
            old(self).wf(),
            i < old(self).positions@.len(),
        ensures
            final(self).wf(),
            final(self).positions@ == old(self).positions@.remove(i as int),
            final(self).runs@ == old(self).runs@.remove(i as int),
            final(self)@ == old(self)@.remove(key(old(self).positions@[i as int])),
            r.0 == old(self).positions@[i as int],
            r.1 == old(self).runs@[i as int],
    {
        let ghost pre = *self;
        let ghost c0 = key(pre.positions@[i as int]);
        proof {
            pre.lemma_entry(i as int);
        }
        let p = self.positions.remove(i);
        let r = self.runs.remove(i);
        proof {
            assert forall|c: (int, int)| (#[trigger] self@.contains_key(c)) == pre@.remove(c0).contains_key(c) && (self@.contains_key(c) ==> self@[c] == pre@[c]) by {
                if self@.contains_key(c) {
                    let j = self.index_of(c);
                    if j < i {
                        pre.lemma_entry(j);
                        assert(pre.positions@[j] != pre.positions@[i as int]);
                    } else {
                        pre.lemma_entry(j + 1);
                        assert(pre.positions@[j + 1] != pre.positions@[i as int]);
                    }
                }
                if pre@.contains_key(c) && c != c0 {
                    let j = pre.index_of(c);
                    if j < i {
                        self.lemma_entry(j);
                    } else {
                        self.lemma_entry(j - 1);
                    }
                }
            }
            assert(self@ =~= pre@.remove(c0));
        }
        (p, r)
    }

    /// Takes out the first result in row `row`, if any.
    pub fn take_first_in_row(&mut self, row: i64) -> (r: Option<(Pos, CodeRun)>)
        requires
            old(self).wf(),
        ensures
            final(self).wf(),
            match r {
                Some(e) => e.0.y == row && old(self)@.contains_key(key(e.0)) && e.1 == old(self)@[key(e.0)]
                    && final(self)@ == old(self)@.remove(key(e.0))
                    && final(self).positions@.len() == old(self).positions@.len() - 1
                    && exists|i: int| 0 <= i < old(self).positions@.len() && final(self).positions@ == old(self).positions@.remove(i),
                None => *final(self) == *old(self) && forall|c: (int, int)| #[trigger] old(self)@.contains_key(c) ==> c.1 != row,
            },
    {
        let ghost pre = *self;
        let mut i: usize = 0;
        while i < self.positions.len()
            invariant
                self.wf(),
                *self == pre,
                pre == *old(self),
                i <= self.positions@.len(),
                forall|j: int| 0 <= j < i ==> (#[trigger] self.positions@[j]).y != row,
            decreases self.positions@.len() - i,
        {
            if self.positions[i].y == row {
                proof {
                    pre.lemma_entry(i as int);
                }
                let e = self.remove_index(i);
                return Some(e);
            }
            i = i + 1;
        }
        proof {
            assert forall|c: (int, int)| #[trigger] pre@.contains_key(c) implies c.1 != row by {
                let j = pre.index_of(c);
            }
        }
        None
    }

    /// Moves every result below row `row` up one row. The moved results go to
    /// the end of the order, in ascending order of position, so that no two
    /// ever share a position; the others keep their order. Returns the
    /// positions that moved, as they were, with their kinds.
    pub fn shift_rows_up(&mut self, row: i64) -> (r: Vec<(Pos, CodeRunKind)>)
        requires
            old(self).wf(),
            forall|c: (int, int)| #[trigger] old(self)@.contains_key(c) ==> c.1 != row,
        ensures
            final(self).wf(),
            final(self)@ == crate::borders::rows_left(old(self)@, row as int),
            relocated_order(*old(self), *final(self), row, false, false),
            forall|t: int| 0 <= t < r@.len() ==> (#[trigger] r@[t]).0.y > row && old(self)@.contains_key(key(r@[t].0)),
            forall|c: (int, int)| #[trigger] old(self)@.contains_key(c) && c.1 > row ==> exists|t: int|
                0 <= t < r@.len() && key((#[trigger] r@[t]).0) == c && r@[t].1 == old(self)@[c].kind,
    {
        let ghost pre = *self;
        let n = self.positions.len();
        let mut moved: Vec<(Pos, CodeRunKind)> = Vec::new();
        let mut i: usize = 0;
        while i < n
            invariant
                pre.wf(),
                n == pre.positions@.len(),
                self.runs@ == pre.runs@,
                self.positions@.len() == n,
                i <= n,
                forall|c: (int, int)| #[trigger] pre@.contains_key(c) ==> c.1 != row,
                forall|j: int| 0 <= j < n ==> #[trigger] self.positions@[j] == if j < i && pre.positions@[j].y > row {
                    Pos { x: pre.positions@[j].x, y: (pre.positions@[j].y - 1) as i64 }
                } else {
                    pre.positions@[j]
                },
                forall|t: int| 0 <= t < moved@.len() ==> (#[trigger] moved@[t]).0.y > row && pre@.contains_key(key(moved@[t].0)),
                forall|j: int| 0 <= j < i && (#[trigger] pre.positions@[j]).y > row ==> exists|t: int|
                    0 <= t < moved@.len() && (#[trigger] moved@[t]).0 == pre.positions@[j] && moved@[t].1 == pre.runs@[j].kind,
            decreases n - i,
        {
            let p = self.positions[i];
            if p.y > row {
                proof {
                    pre.lemma_entry(i as int);
                }
                let ghost prev = moved@;
                moved.push((p, self.runs[i].kind));
                self.positions.set(i, Pos { x: p.x, y: p.y - 1 });
                proof {
                    assert forall|j: int| 0 <= j < i && (#[trigger] pre.positions@[j]).y > row implies exists|t: int|
                        0 <= t < moved@.len() && (#[trigger] moved@[t]).0 == pre.positions@[j] && moved@[t].1 == pre.runs@[j].kind by {
                        let t = choose|t: int| 0 <= t < prev.len() && (#[trigger] prev[t]).0 == pre.positions@[j] && prev[t].1 == pre.runs@[j].kind;
                        assert(moved@[t] == prev[t]);
                    }
                    assert(moved@[moved@.len() - 1].0 == pre.positions@[i as int]);
                }
            }
            i = i + 1;
        }
        proof {
            let f = |c: (int, int)| if c.1 > row { (c.0, c.1 - 1) } else { c };
            let g = |c: (int, int)| if c.1 >= row { (c.0, c.1 + 1) } else { c };
            assert forall|j: int| 0 <= j < n implies g(f(key(#[trigger] pre.positions@[j]))) == key(pre.positions@[j]) by {
                pre.lemma_entry(j);
            }
            Self::lemma_relabel(&pre, self, f, g);
            assert(self@ =~= crate::borders::rows_left(pre@, row as int));
            assert forall|c: (int, int)| #[trigger] pre@.contains_key(c) && c.1 > row implies exists|t: int|
                0 <= t < moved@.len() && key((#[trigger] moved@[t]).0) == c && moved@[t].1 == pre@[c].kind by {
                let j = pre.index_of(c);
                pre.lemma_entry(j);
                let t = choose|t: int| 0 <= t < moved@.len() && (#[trigger] moved@[t]).0 == pre.positions@[j] && moved@[t].1 == pre.runs@[j].kind;
            }
        }
        let ghost mid = *self;
        proof {
            assert forall|t: int| 0 <= t < n && (#[trigger] mid.positions@[t]).y < row implies mid.positions@[t] == pre.positions@[t] by {
                pre.lemma_entry(t);
            }
        }
        self.reorder(row, false, false);
        proof {
            assert forall|i: int, j: int| 0 <= i < j < self.positions@.len() && !in_tail(#[trigger] self.positions@[j], row, false)
                implies pre.index_of(key(#[trigger] self.positions@[i])) < pre.index_of(key(self.positions@[j])) by {
                let pi = self.positions@[i];
                let pj = self.positions@[j];
                assert(!in_tail(pi, row, false));
                self.lemma_entry(i);
                self.lemma_entry(j);
                assert(mid@.contains_key(key(pi)) && mid@.contains_key(key(pj)));
                let ti = mid.index_of(key(pi));
                let tj = mid.index_of(key(pj));
                mid.lemma_entry(ti);
                mid.lemma_entry(tj);
                assert(mid.positions@[ti] == pi);
                assert(mid.positions@[tj] == pj);
                pre.lemma_entry(ti);
                pre.lemma_entry(tj);
            }
        }
        moved
    }

    /// Moves every result at or below row `row` down one row. The moved
    /// results go to the end of the order, in descending order of position,
    /// so that no two ever share a position; the others keep their order.
    /// Returns the positions that moved, as they were, with their kinds.
    pub fn shift_rows_down(&mut self, row: i64) -> (r: Vec<(Pos, CodeRunKind)>)
        requires
            old(self).wf(),
            forall|c: (int, int)| #[trigger] old(self)@.contains_key(c) ==> c.1 < i64::MAX,
        ensures
            final(self).wf(),
            final(self)@ == crate::borders::rows_right(old(self)@, row as int),
            relocated_order(*old(self), *final(self), row, true, true),
            forall|t: int| 0 <= t < r@.len() ==> (#[trigger] r@[t]).0.y >= row && old(self)@.contains_key(key(r@[t].0)),
            forall|c: (int, int)| #[trigger] old(self)@.contains_key(c) && c.1 >= row ==> exists|t: int|
                0 <= t < r@.len() && key((#[trigger] r@[t]).0) == c && r@[t].1 == old(self)@[c].kind,
    {
        let ghost pre = *self;
        let n = self.positions.len();
        let mut moved: Vec<(Pos, CodeRunKind)> = Vec::new();
        let mut i: usize = 0;
        while i < n
            invariant
                pre.wf(),
                n == pre.positions@.len(),
                self.runs@ == pre.runs@,
                self.positions@.len() == n,
                i <= n,
                forall|c: (int, int)| #[trigger] pre@.contains_key(c) ==> c.1 < i64::MAX,
                forall|j: int| 0 <= j < n ==> #[trigger] self.positions@[j] == if j < i && pre.positions@[j].y >= row {
                    Pos { x: pre.positions@[j].x, y: (pre.positions@[j].y + 1) as i64 }
                } else {
                    pre.positions@[j]
                },
                forall|t: int| 0 <= t < moved@.len() ==> (#[trigger] moved@[t]).0.y >= row && pre@.contains_key(key(moved@[t].0)),
                forall|j: int| 0 <= j < i && (#[trigger] pre.positions@[j]).y >= row ==> exists|t: int|
                    0 <= t < moved@.len() && (#[trigger] moved@[t]).0 == pre.positions@[j] && moved@[t].1 == pre.runs@[j].kind,
            decreases n - i,
        {
            let p = self.positions[i];
            proof {
                pre.lemma_entry(i as int);
            }
            if p.y >= row {
                let ghost prev = moved@;
                moved.push((p, self.runs[i].kind));
                self.positions.set(i, Pos { x: p.x, y: p.y + 1 });
                proof {
                    assert forall|j: int| 0 <= j < i && (#[trigger] pre.positions@[j]).y >= row implies exists|t: int|
                        0 <= t < moved@.len() && (#[trigger] moved@[t]).0 == pre.positions@[j] && moved@[t].1 == pre.runs@[j].kind by {
                        let t = choose|t: int| 0 <= t < prev.len() && (#[trigger] prev[t]).0 == pre.positions@[j] && prev[t].1 == pre.runs@[j].kind;
                        assert(moved@[t] == prev[t]);
                    }
                    assert(moved@[moved@.len() - 1].0 == pre.positions@[i as int]);
                }
            }
            i = i + 1;
        }
        proof {
            let f = |c: (int, int)| if c.1 >= row { (c.0, c.1 + 1) } else { c };
            let g = |c: (int, int)| if c.1 > row { (c.0, c.1 - 1) } else { c };
            assert forall|j: int| 0 <= j < n implies key(#[trigger] self.positions@[j]) == f(key(pre.positions@[j])) by {
                pre.lemma_entry(j);
            }
            Self::lemma_relabel(&pre, self, f, g);
            assert(self@ =~= crate::borders::rows_right(pre@, row as int));
            assert forall|c: (int, int)| #[trigger] pre@.contains_key(c) && c.1 >= row implies exists|t: int|
                0 <= t < moved@.len() && key((#[trigger] moved@[t]).0) == c && moved@[t].1 == pre@[c].kind by {
                let j = pre.index_of(c);
                pre.lemma_entry(j);
                let t = choose|t: int| 0 <= t < moved@.len() && (#[trigger] moved@[t]).0 == pre.positions@[j] && moved@[t].1 == pre.runs@[j].kind;
            }
        }
        let ghost mid = *self;
        proof {
            assert forall|t: int| 0 <= t < n && (#[trigger] mid.positions@[t]).y < row implies mid.positions@[t] == pre.positions@[t] by {
                pre.lemma_entry(t);
            }
        }
        self.reorder(row, true, true);
        proof {
            assert forall|i: int, j: int| 0 <= i < j < self.positions@.len() && !in_tail(#[trigger] self.positions@[j], row, true)
                implies pre.index_of(key(#[trigger] self.positions@[i])) < pre.index_of(key(self.positions@[j])) by {
                let pi = self.positions@[i];
                let pj = self.positions@[j];
                assert(!in_tail(pi, row, true));
                self.lemma_entry(i);
                self.lemma_entry(j);
                assert(mid@.contains_key(key(pi)) && mid@.contains_key(key(pj)));
                let ti = mid.index_of(key(pi));
                let tj = mid.index_of(key(pj));
                mid.lemma_entry(ti);
                mid.lemma_entry(tj);
                assert(mid.positions@[ti] == pi);
                assert(mid.positions@[tj] == pj);
                pre.lemma_entry(ti);
                pre.lemma_entry(tj);
            }
        }
        moved
    }

    /// The output value that the results from position `i` of the order on
    /// show at `(x, y)`; the first result that reaches the cell wins.
    pub open spec fn spill_from(&self, i: int, x: int, y: int) -> Option<CellValue>
        decreases self.positions@.len() - i,
    {
        if i < 0 || i >= self.positions@.len() {
            None
        } else {
            let p = self.positions@[i];
            let r = self.runs@[i];
            let aligned = if r.vertical {
                x == p.x
            } else {
                y == p.y
            };
            let off = if r.vertical {
                y - p.y
            } else {
                x - p.x
            };
            if aligned && 0 <= off < r.output@.len() {
                Some(r.output@[off])
            } else {
                self.spill_from(i + 1, x, y)
            }
        }
    }

    /// The output value shown at `pos`, if some result reaches it.
    pub fn output_at(&self, pos: Pos) -> (r: Option<CellValue>)
        requires
            self.wf(),
        ensures
            r == self.spill_from(0, pos.x as int, pos.y as int),
    {
        let mut i: usize = 0;
        while i < self.positions.len()
            invariant
                self.wf(),
                i <= self.positions@.len(),
                self.spill_from(0, pos.x as int, pos.y as int) == self.spill_from(i as int, pos.x as int, pos.y as int),
            decreases self.positions@.len() - i,
        {
            let p = self.positions[i];
            let run = &self.runs[i];
            let aligned = if run.vertical {
                pos.x == p.x
            } else {
                pos.y == p.y
            };
            let off: i128 = if run.vertical {
                pos.y as i128 - p.y as i128
            } else {
                pos.x as i128 - p.x as i128
            };
            if aligned && 0 <= off && off < run.output.len() as i128 {
                return Some(run.output[off as usize].duplicate());
            }
            i = i + 1;
        }
        None
    }
}

/// A result at `p` is among those a relocation moves to the end of the
/// order: at or past row `bound`, strictly past it when `strict` is set.
pub open spec fn in_tail(p: Pos, bound: i64, strict: bool) -> bool {
    if strict {
        p.y > bound
    } else {
        p.y >= bound
    }
}

/// The order of `b` after a relocation of `a`'s tail (see `in_tail`): the
/// other results first, in their order in `a`, then the tail in ascending
/// order of position, or descending when `descending` is set.
pub open spec fn relocated_order(a: CodeRuns, b: CodeRuns, bound: i64, strict: bool, descending: bool) -> bool {
    let p = b.positions@;
    &&& forall|i: int, j: int| 0 <= i < j < p.len() && in_tail(#[trigger] p[i], bound, strict) ==> in_tail(#[trigger] p[j], bound, strict)
    &&& forall|i: int, j: int| 0 <= i < j < p.len() && !in_tail(#[trigger] p[j], bound, strict)
        ==> a.index_of(key(#[trigger] p[i])) < a.index_of(key(p[j]))
    &&& forall|i: int, j: int| 0 <= i < j < p.len() && in_tail(#[trigger] p[i], bound, strict) ==> if descending {
        pos_lt(#[trigger] p[j], p[i])
    } else {
        pos_lt(p[i], p[j])
    }
}

/// The results of `b` stand in the order they had in `a`.
pub open spec fn keeps_order(a: CodeRuns, b: CodeRuns) -> bool {
    forall|i: int, j: int| 0 <= i < j < b.positions@.len()
        ==> a.index_of(key(#[trigger] b.positions@[i])) < a.index_of(key(#[trigger] b.positions@[j]))
}

/// Positions compare by column, then by row.
pub open spec fn pos_lt(a: Pos, b: Pos) -> bool {
    a.x < b.x || (a.x == b.x && a.y < b.y)
}

pub open spec fn pair_le(a: (i64, i64), b: (i64, i64)) -> bool {
    a.0 < b.0 || (a.0 == b.0 && a.1 <= b.1)
}

pub open spec fn as_pair(p: Pos) -> (i64, i64) {
    (p.x, p.y)
}

/// Relies on itertools' `Itertools::sorted`: the same pairs, in ascending
/// order; std orders a pair by its first field, then by its second.
#[verifier::external_body]
fn sorted_pairs(v: Vec<(i64, i64)>) -> (r: Vec<(i64, i64)>)
    ensures
        r@.to_multiset() == v@.to_multiset(),
        forall|i: int, j: int| 0 <= i < j < r@.len() ==> pair_le(r@[i], r@[j]),
{
    v.into_iter().sorted().collect()
}

/// Where `p` stands in `v`, which holds it.
fn find_pos(v: &Vec<Pos>, p: Pos) -> (r: usize)
    requires
        exists|i: int| 0 <= i < v@.len() && v@[i] == p,
    ensures
        r < v@.len(),
        v@[r as int] == p,
{
    let mut i: usize = 0;
    while i < v.len()
        invariant
            i <= v@.len(),
            forall|j: int| 0 <= j < i ==> v@[j] != p,
            exists|i: int| 0 <= i < v@.len() && v@[i] == p,
        decreases v@.len() - i,
    {
        if v[i] == p {
            return i;
        }
        i = i + 1;
    }
    proof {
        let j = choose|j: int| 0 <= j < v@.len() && v@[j] == p;
        assert(v@[j] != p);
    }
    0
}

/// The `k`-th pair of `n` taken in ascending order, or descending.
pub open spec fn nth(k: int, n: int, descending: bool) -> int {
    if descending {
        n - 1 - k
    } else {
        k
    }
}

impl CodeRuns {
    /// `b` holds the results of `a` at the places `perm` gives: entry `t` of
    /// `b` is entry `perm[t]` of `a`, and every entry of `a` is used once.
    proof fn lemma_permuted(a: &Self, b: &Self, perm: Seq<int>)
        requires
            a.wf(),
            perm.len() == a.positions@.len(),
            b.positions@.len() == perm.len(),
            b.runs@.len() == perm.len(),
            forall|t: int| 0 <= t < perm.len() ==> 0 <= #[trigger] perm[t] < perm.len(),
            forall|t: int, u: int| 0 <= t < perm.len() && 0 <= u < perm.len() && t != u ==> #[trigger] perm[t] != #[trigger] perm[u],
            forall|j: int| 0 <= j < perm.len() ==> #[trigger] perm.contains(j),
            forall|t: int| 0 <= t < perm.len() ==> #[trigger] b.positions@[t] == a.positions@[perm[t]] && b.runs@[t] == a.runs@[perm[t]],
        ensures
            b.wf(),
            b@ == a@,
    {
        assert forall|i: int, j: int|
            0 <= i < b.positions@.len() && 0 <= j < b.positions@.len() && i != j implies #[trigger] b.positions@[i] != #[trigger] b.positions@[j] by {
            assert(a.positions@[perm[i]] != a.positions@[perm[j]]);
        }
        assert forall|c: (int, int)| #[trigger] b@.contains_key(c) implies a@.contains_key(c) && b@[c] == a@[c] by {
            let t = b.index_of(c);
            b.lemma_entry(t);
            a.lemma_entry(perm[t]);
        }
        assert forall|c: (int, int)| #[trigger] a@.contains_key(c) implies b@.contains_key(c) by {
            let j = a.index_of(c);
            assert(perm.contains(j));
            let t = choose|t: int| 0 <= t < perm.len() && #[trigger] perm[t] == j;
            b.lemma_entry(t);
        }
        assert(b@ =~= a@);
    }

    /// Moves the results that `in_tail` picks to the end of the order, in
    /// ascending order of position, or descending when `descending` is set;
    /// the others keep their order at the front.
    fn reorder(&mut self, bound: i64, strict: bool, descending: bool)
        requires
            old(self).wf(),
        ensures
            final(self).wf(),
            final(self)@ == old(self)@,
            final(self).positions@.len() == old(self).positions@.len(),
            forall|i: int, j: int| 0 <= i < j < final(self).positions@.len() && in_tail(#[trigger] final(self).positions@[i], bound, strict)
                ==> in_tail(#[trigger] final(self).positions@[j], bound, strict),
            forall|i: int, j: int| 0 <= i < j < final(self).positions@.len() && !in_tail(#[trigger] final(self).positions@[j], bound, strict)
                ==> old(self).index_of(key(#[trigger] final(self).positions@[i])) < old(self).index_of(key(final(self).positions@[j])),
            forall|i: int, j: int| 0 <= i < j < final(self).positions@.len() && in_tail(#[trigger] final(self).positions@[i], bound, strict)
                ==> if descending {
                    pos_lt(#[trigger] final(self).positions@[j], final(self).positions@[i])
                } else {
                    pos_lt(final(self).positions@[i], final(self).positions@[j])
                },
    {
        broadcast use vstd::seq_lib::group_to_multiset_ensures;
        let ghost cur = *self;
        let n = self.positions.len();
        let mut old_pos: Vec<Pos> = Vec::new();
        std::mem::swap(&mut old_pos, &mut self.positions);
        let mut old_runs: Vec<CodeRun> = Vec::new();
        std::mem::swap(&mut old_runs, &mut self.runs);
        let ghost mut perm: Seq<int> = Seq::empty();
        let ghost mut kidx: Seq<int> = Seq::empty();
        let mut keys: Vec<(i64, i64)> = Vec::new();
        let mut i: usize = 0;
        while i < n
            invariant
                cur.wf(),
                n == cur.positions@.len(),
                old_pos@ == cur.positions@,
                old_runs@.len() == n,
                forall|j: int| 0 <= j < n && (j >= i || in_tail(cur.positions@[j], bound, strict)) ==> #[trigger] old_runs@[j] == cur.runs@[j],
                i <= n,
                self.positions@.len() == perm.len(),
                self.runs@.len() == perm.len(),
                forall|t: int| 0 <= t < perm.len() ==> 0 <= #[trigger] perm[t] < i && self.positions@[t] == cur.positions@[perm[t]]
                    && self.runs@[t] == cur.runs@[perm[t]] && !in_tail(cur.positions@[perm[t]], bound, strict),
                forall|t: int, u: int| 0 <= t < u < perm.len() ==> #[trigger] perm[t] < #[trigger] perm[u],
                forall|j: int| 0 <= j < i && !in_tail(#[trigger] cur.positions@[j], bound, strict) ==> exists|t: int| 0 <= t < perm.len() && perm[t] == j,
                keys@.len() == kidx.len(),
                perm.len() + kidx.len() == i,
                forall|t: int| 0 <= t < kidx.len() ==> 0 <= #[trigger] kidx[t] < i && keys@[t] == as_pair(cur.positions@[kidx[t]])
                    && in_tail(cur.positions@[kidx[t]], bound, strict),
                forall|t: int, u: int| 0 <= t < u < kidx.len() ==> #[trigger] kidx[t] < #[trigger] kidx[u],
                forall|j: int| 0 <= j < i && in_tail(#[trigger] cur.positions@[j], bound, strict) ==> exists|t: int| 0 <= t < kidx.len() && kidx[t] == j,
            decreases n - i,
        {
            let p = old_pos[i];
            let tail = if strict {
                p.y > bound
            } else {
                p.y >= bound
            };
            if tail {
                keys.push((p.x, p.y));
                proof {
                    let kprev = kidx;
                    kidx = kidx.push(i as int);
                    assert forall|j: int| 0 <= j < i + 1 && in_tail(#[trigger] cur.positions@[j], bound, strict) implies exists|t: int| 0 <= t < kidx.len() && kidx[t] == j by {
                        if j == i {
                            assert(kidx[kidx.len() - 1] == j);
                        } else {
                            let t = choose|t: int| 0 <= t < kprev.len() && kprev[t] == j;
                            assert(kidx[t] == j);
                        }
                    }
                }
            } else {
                let mut r = CodeRun { kind: CodeRunKind::Plain, output: Vec::new(), vertical: false };
                std::mem::swap(&mut r, &mut old_runs[i]);
                self.positions.push(p);
                self.runs.push(r);
                proof {
                    let pprev = perm;
                    perm = perm.push(i as int);
                    assert forall|j: int| 0 <= j < i + 1 && !in_tail(#[trigger] cur.positions@[j], bound, strict) implies exists|t: int| 0 <= t < perm.len() && perm[t] == j by {
                        if j == i {
                            assert(perm[perm.len() - 1] == j);
                        } else {
                            let t = choose|t: int| 0 <= t < pprev.len() && pprev[t] == j;
                            assert(perm[t] == j);
                        }
                    }
                }
            }
            i = i + 1;
        }
        let front = self.positions.len();
        let ghost keys0 = keys@;
        proof {
            assert(keys0.no_duplicates()) by {
                assert forall|t: int, u: int| 0 <= t < keys0.len() && 0 <= u < keys0.len() && t != u implies keys0[t] != keys0[u] by {
                    assert(cur.positions@[kidx[t]] != cur.positions@[kidx[u]]);
                }
            }
            keys0.lemma_multiset_has_no_duplicates();
        }
        let order = sorted_pairs(keys);
        let m = order.len();
        proof {
            assert forall|x: (i64, i64)| order@.to_multiset().contains(x) implies order@.to_multiset().count(x) == 1 by {}
            order@.to_multiset_ensures();
            keys0.to_multiset_ensures();
            order@.lemma_multiset_has_no_duplicates_conv();
            assert(order@.to_multiset().len() == order@.len());
            assert(keys0.to_multiset().len() == keys0.len());
        }
        let mut k: usize = 0;
        while k < m
            invariant
                cur.wf(),
                n == cur.positions@.len(),
                old_pos@ == cur.positions@,
                old_runs@.len() == n,
                m == order@.len(),
                m == kidx.len(),
                order@.no_duplicates(),
                order@.to_multiset() == keys0.to_multiset(),
                forall|t: int| 0 <= t < kidx.len() ==> 0 <= #[trigger] kidx[t] < n && keys0[t] == as_pair(cur.positions@[kidx[t]])
                    && in_tail(cur.positions@[kidx[t]], bound, strict),
                forall|j: int| 0 <= j < n && in_tail(#[trigger] cur.positions@[j], bound, strict) ==> exists|t: int| 0 <= t < kidx.len() && kidx[t] == j,
                k <= m,
                front <= n,
                self.positions@.len() == perm.len(),
                self.runs@.len() == perm.len(),
                perm.len() == front + k,
                forall|t: int| 0 <= t < perm.len() ==> 0 <= #[trigger] perm[t] < n && self.positions@[t] == cur.positions@[perm[t]]
                    && self.runs@[t] == cur.runs@[perm[t]],
                forall|t: int| 0 <= t < front ==> !in_tail(cur.positions@[#[trigger] perm[t]], bound, strict),
                forall|t: int, u: int| 0 <= t < u < front ==> #[trigger] perm[t] < #[trigger] perm[u],
                forall|j: int| 0 <= j < n && !in_tail(#[trigger] cur.positions@[j], bound, strict) ==> exists|t: int| 0 <= t < front && perm[t] == j,
                forall|t: int| front <= t < perm.len() ==> as_pair(#[trigger] self.positions@[t]) == order@[nth(t - front, m as int, descending)],
                forall|j: int| 0 <= j < n && in_tail(cur.positions@[j], bound, strict) && !(exists|t: int| front <= t < perm.len() && #[trigger] perm[t] == j)
                    ==> #[trigger] old_runs@[j] == cur.runs@[j],
            decreases m - k,
        {
            let o = if descending {
                m - 1 - k
            } else {
                k
            };
            let (x, y) = order[o];
            proof {
                order@.to_multiset_ensures();
                keys0.to_multiset_ensures();
                assert(order@.contains((x, y)));
                assert(order@.to_multiset().count((x, y)) > 0);
                assert(keys0.to_multiset().count((x, y)) > 0);
                assert(keys0.contains((x, y)));
                let t = choose|t: int| 0 <= t < keys0.len() && keys0[t] == (x, y);
                assert(old_pos@[kidx[t]] == Pos { x, y });
            }
            let j = find_pos(&old_pos, Pos { x, y });
            proof {
                assert(in_tail(cur.positions@[j as int], bound, strict)) by {
                    let t = choose|t: int| 0 <= t < keys0.len() && keys0[t] == (x, y);
                    assert(cur.positions@[kidx[t]] == cur.positions@[j as int]);
                }
                assert(!(exists|t: int| front <= t < perm.len() && #[trigger] perm[t] == j)) by {
                    if exists|t: int| front <= t < perm.len() && #[trigger] perm[t] == j {
                        let t = choose|t: int| front <= t < perm.len() && #[trigger] perm[t] == j;
                        assert(order@[nth(t - front, m as int, descending)] == order@[o as int]);
                    }
                }
            }
            let mut r = CodeRun { kind: CodeRunKind::Plain, output: Vec::new(), vertical: false };
            std::mem::swap(&mut r, &mut old_runs[j]);
            self.positions.push(Pos { x, y });
            self.runs.push(r);
            let ghost prev = perm;
            proof {
                perm = perm.push(j as int);
                assert forall|jj: int| 0 <= jj < n && in_tail(cur.positions@[jj], bound, strict) && !(exists|t: int| front <= t < perm.len() && #[trigger] perm[t] == jj)
                    implies #[trigger] old_runs@[jj] == cur.runs@[jj] by {
                    assert(perm[perm.len() - 1] == j);
                    assert(jj != j);
                    assert(!(exists|t: int| front <= t < prev.len() && #[trigger] prev[t] == jj)) by {
                        if exists|t: int| front <= t < prev.len() && #[trigger] prev[t] == jj {
                            let t = choose|t: int| front <= t < prev.len() && #[trigger] prev[t] == jj;
                            assert(perm[t] == jj);
                        }
                    }
                }
                assert forall|jj: int| 0 <= jj < n && !in_tail(#[trigger] cur.positions@[jj], bound, strict) implies exists|t: int| 0 <= t < front && perm[t] == jj by {
                    let t = choose|t: int| 0 <= t < front && prev[t] == jj;
                    assert(perm[t] == jj);
                }
            }
            k = k + 1;
        }
        proof {
            order@.to_multiset_ensures();
            keys0.to_multiset_ensures();
            assert forall|t: int, u: int| 0 <= t < perm.len() && 0 <= u < perm.len() && t != u implies #[trigger] perm[t] != #[trigger] perm[u] by {
                if t < front && u < front {
                } else if t >= front && u >= front {
                    if perm[t] == perm[u] {
                        assert(nth(t - front, m as int, descending) != nth(u - front, m as int, descending));
                    }
                } else {
                    if t < front {
                        let e = order@[nth(u - front, m as int, descending)];
                        assert(as_pair(self.positions@[u]) == e);
                        assert(order@.contains(e));
                        assert(order@.to_multiset().count(e) > 0);
                        assert(keys0.contains(e));
                        let w = choose|w: int| 0 <= w < keys0.len() && keys0[w] == e;
                        assert(cur.positions@[kidx[w]] == cur.positions@[perm[u]]);
                        assert(in_tail(cur.positions@[perm[u]], bound, strict));
                    } else {
                        let e = order@[nth(t - front, m as int, descending)];
                        assert(as_pair(self.positions@[t]) == e);
                        assert(order@.contains(e));
                        assert(order@.to_multiset().count(e) > 0);
                        assert(keys0.contains(e));
                        let w = choose|w: int| 0 <= w < keys0.len() && keys0[w] == e;
                        assert(cur.positions@[kidx[w]] == cur.positions@[perm[t]]);
                        assert(in_tail(cur.positions@[perm[t]], bound, strict));
                    }
                }
            }
            assert forall|jj: int| 0 <= jj < n implies #[trigger] perm.contains(jj) by {
                if !in_tail(cur.positions@[jj], bound, strict) {
                    let t = choose|t: int| 0 <= t < front && perm[t] == jj;
                    assert(perm[t] == jj);
                } else {
                    if !(exists|t: int| front <= t < perm.len() && #[trigger] perm[t] == jj) {
                        // a tail key that was never placed would still be in the order
                        let w = choose|w: int| 0 <= w < kidx.len() && kidx[w] == jj;
                        assert(keys0.contains(keys0[w]));
                        assert(order@.to_multiset().count(keys0[w]) > 0);
                        let o = choose|o: int| 0 <= o < order@.len() && order@[o] == keys0[w];
                        let t = front + nth(o, m as int, descending);
                        assert(nth(t - front, m as int, descending) == o);
                        assert(cur.positions@[perm[t]] == cur.positions@[jj]);
                    }
                    let t = choose|t: int| front <= t < perm.len() && #[trigger] perm[t] == jj;
                    assert(perm[t] == jj);
                }
            }
            Self::lemma_permuted(&cur, self, perm);
            assert forall|i: int, j: int| 0 <= i < j < self.positions@.len() && !in_tail(#[trigger] self.positions@[j], bound, strict)
                implies cur.index_of(key(#[trigger] self.positions@[i])) < cur.index_of(key(self.positions@[j])) by {
                cur.lemma_entry(perm[i]);
                cur.lemma_entry(perm[j]);
                if j >= front {
                    assert(as_pair(self.positions@[j]) == order@[nth(j - front, m as int, descending)]);
                    assert(order@.contains(order@[nth(j - front, m as int, descending)]));
                    let w = choose|w: int| 0 <= w < keys0.len() && keys0[w] == order@[nth(j - front, m as int, descending)];
                }
            }
            assert forall|i: int, j: int| 0 <= i < j < self.positions@.len() && in_tail(#[trigger] self.positions@[i], bound, strict)
                implies in_tail(#[trigger] self.positions@[j], bound, strict) by {
                assert(self.positions@[i] == cur.positions@[perm[i]]);
                if j >= front {
                    let e = order@[nth(j - front, m as int, descending)];
                    assert(as_pair(self.positions@[j]) == e);
                    assert(order@.contains(e));
                    assert(order@.to_multiset().count(e) > 0);
                    assert(keys0.contains(e));
                    let w = choose|w: int| 0 <= w < keys0.len() && keys0[w] == e;
                    assert(cur.positions@[kidx[w]] == self.positions@[j]);
                }
            }
            assert forall|i: int, j: int| 0 <= i < j < self.positions@.len() && in_tail(#[trigger] self.positions@[i], bound, strict)
                implies if descending {
                    pos_lt(#[trigger] self.positions@[j], self.positions@[i])
                } else {
                    pos_lt(self.positions@[i], self.positions@[j])
                } by {
                assert(self.positions@[i] == cur.positions@[perm[i]]);
                assert(i >= front);
                let a = nth(i - front, m as int, descending);
                let b = nth(j - front, m as int, descending);
                assert(order@[a] != order@[b]);
                if a < b {
                    assert(pair_le(order@[a], order@[b]));
                } else {
                    assert(pair_le(order@[b], order@[a]));
                }
            }
        }
    }
}

} // verus!
