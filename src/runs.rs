//! One line of a range set: disjoint half-open runs of cells along the line,
//! each run carrying one border style.
use vstd::prelude::*;
use crate::axis::{shifted_left, shifted_right, has_key_from, keys_below};
use crate::style::BorderStyle;

verus! {

/// The cells `start..end` (end excluded) carry `style`.
#[derive(Clone, Copy, Debug, PartialEq, Eq, Structural)]
pub struct Run {
    pub start: i64,
    pub end: i64,
    pub style: BorderStyle,
}

pub open spec fn holds_cell(r: Run, x: int) -> bool {
    r.start <= x < r.end
}

pub open spec fn run_cells(r: Run) -> Map<int, BorderStyle> {
    Map::new(|x: int| r.start <= x < r.end, |x: int| r.style)
}

/// The cells covered by a list of runs; a later run wins where two overlap.
pub open spec fn cells(s: Seq<Run>) -> Map<int, BorderStyle>
    decreases s.len(),
{
    if s.len() == 0 {
        Map::empty()
    } else {
        cells(s.drop_last()).union_prefer_right(run_cells(s.last()))
    }
}

/// The cells of `m` below `a`.
pub open spec fn below<V>(m: Map<int, V>, a: int) -> Map<int, V> {
    m.restrict(Set::new(|x: int| x < a))
}

/// The cells of `m` at or above `b`.
pub open spec fn from<V>(m: Map<int, V>, b: int) -> Map<int, V> {
    m.restrict(Set::new(|x: int| x >= b))
}

/// `m` with the cells `a..b` set to `s`, or cleared where `s` is `None`.
pub open spec fn painted<V>(m: Map<int, V>, a: int, b: int, s: Option<V>) -> Map<int, V> {
    Map::new(
        |x: int|
            if a <= x < b {
                s.is_some()
            } else {
                m.contains_key(x)
            },
        |x: int|
            if a <= x < b {
                s.unwrap()
            } else {
                m[x]
            },
    )
}

pub proof fn lemma_cells_push(s: Seq<Run>, r: Run)
    ensures
        cells(s.push(r)) == cells(s).union_prefer_right(run_cells(r)),
{
    assert(s.push(r).drop_last() == s);
}

pub proof fn lemma_cells_take(s: Seq<Run>, i: int)
    requires
        0 <= i < s.len(),
    ensures
        cells(s.take(i + 1)) == cells(s.take(i)).union_prefer_right(run_cells(s[i])),
{
    assert(s.take(i + 1).drop_last() == s.take(i));
}

/// A cell is covered exactly when some run holds it.
pub proof fn lemma_cells_contains(s: Seq<Run>, x: int)
    ensures
        cells(s).contains_key(x) <==> exists|t: int| 0 <= t < s.len() && #[trigger] holds_cell(s[t], x),
    decreases s.len(),
{
    if s.len() > 0 {
        lemma_cells_contains(s.drop_last(), x);
        if holds_cell(s.last(), x) {
            assert(holds_cell(s[s.len() - 1], x));
        }
        if cells(s).contains_key(x) {
            if !(s.last().start <= x < s.last().end) {
                let t = choose|t: int|
                    0 <= t < s.drop_last().len() && #[trigger] holds_cell(s.drop_last()[t], x);
                assert(s[t] == s.drop_last()[t]);
            }
        }
        if exists|t: int| 0 <= t < s.len() && #[trigger] holds_cell(s[t], x) {
            let t = choose|t: int| 0 <= t < s.len() && #[trigger] holds_cell(s[t], x);
            if t < s.len() - 1 {
                assert(s.drop_last()[t] == s[t]);
                assert(holds_cell(s.drop_last()[t], x));
            }
        }
    }
}

/// In a disjoint list, the run that holds a cell gives the cell's style.
pub proof fn lemma_cells_at(s: Seq<Run>, t: int, x: int)
    requires
        runs_wf(s),
        0 <= t < s.len(),
        s[t].start <= x < s[t].end,
    ensures
        cells(s).contains_key(x),
        cells(s)[x] == s[t].style,
    decreases s.len(),
{
    lemma_cells_contains(s, x);
    if t < s.len() - 1 {
        let d = s.drop_last();
        assert(d[t] == s[t]);
        assert(runs_wf(d));
        lemma_cells_at(d, t, x);
        assert(s[t].end <= s[s.len() - 1].start);
    }
}

pub open spec fn runs_wf(s: Seq<Run>) -> bool {
    &&& forall|t: int| 0 <= t < s.len() ==> #[trigger] s[t].start < s[t].end
    &&& forall|t: int, u: int| 0 <= t < u < s.len() ==> #[trigger] s[t].end <= #[trigger] s[u].start
}

/// One line of a range set.
#[derive(Debug, PartialEq, Eq)]
pub struct RunLine {
    pub runs: Vec<Run>,
}

impl View for RunLine {
    type V = Map<int, BorderStyle>;

    open spec fn view(&self) -> Map<int, BorderStyle> {
        cells(self.runs@)
    }
}

impl RunLine {
    /// Runs are non-empty, in ascending order, and never overlap. Adjacent
    /// runs of one style are not merged.
    pub open spec fn wf(&self) -> bool {
        runs_wf(self.runs@)
    }

    pub fn new() -> (r: Self)
        ensures
            r.wf(),
            r@ == Map::<int, BorderStyle>::empty(),
    {
        RunLine { runs: Vec::new() }
    }

    pub fn is_empty(&self) -> (r: bool)
        requires
            self.wf(),
        ensures
            r == (self@ == Map::<int, BorderStyle>::empty()),
    {
        proof {
            if self.runs@.len() > 0 {
                lemma_cells_contains(self.runs@, self.runs@[0].start as int);
                assert(holds_cell(self.runs@[0], self.runs@[0].start as int));
                assert(self@.contains_key(self.runs@[0].start as int));
            } else {
                assert(self@ =~= Map::<int, BorderStyle>::empty());
            }
        }
        self.runs.len() == 0
    }

    /// The style at cell `x`, if a run holds it.
    pub fn get(&self, x: i64) -> (r: Option<BorderStyle>)
        requires
            self.wf(),
        ensures
            r == (if self@.contains_key(x as int) {
                Some(self@[x as int])
            } else {
                None
            }),
    {
        let mut i: usize = 0;
        while i < self.runs.len()
            invariant
                self.wf(),
                i <= self.runs@.len(),
                forall|t: int| 0 <= t < i ==> !(#[trigger] holds_cell(self.runs@[t], x as int)),
            decreases self.runs@.len() - i,
        {
            if self.runs[i].start <= x && x < self.runs[i].end {
                proof {
                    lemma_cells_at(self.runs@, i as int, x as int);
                }
                return Some(self.runs[i].style);
            }
            i = i + 1;
        }
        proof {
            lemma_cells_contains(self.runs@, x as int);
        }
        None
    }

    /// The parts of the runs that lie below `a`, in order.
    fn pieces_below(&self, a: i64) -> (out: Vec<Run>)
        requires
            self.wf(),
        ensures
            runs_wf(out@),
            forall|t: int| 0 <= t < out@.len() ==> #[trigger] out@[t].end <= a,
            cells(out@) == below(self@, a as int),
    {
        let ghost src = self.runs@;
        let n = self.runs.len();
        let mut out: Vec<Run> = Vec::new();
        let mut i: usize = 0;
        while i < n
            invariant
                n == src.len(),
                self.runs@ == src,
                runs_wf(src),
                i <= n,
                runs_wf(out@),
                forall|t: int| 0 <= t < out@.len() ==> #[trigger] out@[t].end <= a,
                forall|t: int, j: int|
                    0 <= t < out@.len() && i <= j < n ==> #[trigger] out@[t].end
                        <= #[trigger] src[j].start,
                cells(out@) == below(cells(src.take(i as int)), a as int),
            decreases n - i,
        {
            let r = self.runs[i];
            let e = if r.end < a {
                r.end
            } else {
                a
            };
            proof {
                lemma_cells_take(src, i as int);
            }
            if r.start < e {
                let piece = Run { start: r.start, end: e, style: r.style };
                proof {
                    lemma_cells_push(out@, piece);
                    lemma_below_step(cells(out@), cells(src.take(i as int)), r, piece, a);
                }
                out.push(piece);
            } else {
                proof {
                    lemma_below_skip(cells(out@), cells(src.take(i as int)), r, a as int);
                }
            }
            i = i + 1;
        }
        proof {
            assert(src.take(n as int) == src);
        }
        out
    }

    /// Appends the parts of the runs that lie at or above `b`, in order.
    fn push_pieces_from(&self, out: &mut Vec<Run>, b: i64)
        requires
            self.wf(),
            runs_wf(old(out)@),
            forall|t: int| 0 <= t < old(out)@.len() ==> #[trigger] old(out)@[t].end <= b,
        ensures
            runs_wf(final(out)@),
            cells(final(out)@) == cells(old(out)@).union_prefer_right(from(self@, b as int)),
    {
        let ghost src = self.runs@;
        let ghost base = cells(out@);
        let ghost mut bound: int = b as int;
        let n = self.runs.len();
        let mut i: usize = 0;
        while i < n
            invariant
                n == src.len(),
                self.runs@ == src,
                runs_wf(src),
                i <= n,
                runs_wf(out@),
                forall|t: int| 0 <= t < out@.len() ==> #[trigger] out@[t].end <= bound,
                i == 0 ==> bound <= b,
                i > 0 ==> bound <= b || bound <= src[i - 1].end,
                cells(out@) == base.union_prefer_right(from(cells(src.take(i as int)), b as int)),
            decreases n - i,
        {
            let r = self.runs[i];
            let s = if r.start < b {
                b
            } else {
                r.start
            };
            proof {
                lemma_cells_take(src, i as int);
                if i > 0 {
                    assert(src[i - 1].end <= src[i as int].start);
                }
            }
            if s < r.end {
                let piece = Run { start: s, end: r.end, style: r.style };
                proof {
                    lemma_cells_push(out@, piece);
                    lemma_from_step(cells(out@), base, cells(src.take(i as int)), r, piece, b);
                }
                out.push(piece);
                proof {
                    bound = r.end as int;
                }
            } else {
                proof {
                    lemma_from_skip(cells(out@), base, cells(src.take(i as int)), r, b as int);
                }
            }
            i = i + 1;
        }
        proof {
            assert(src.take(n as int) == src);
        }
    }

    /// Sets the cells `a..b` to `style`, or clears them where `style` is
    /// `None`. Runs that reach into the range are cut back to its edges.
    pub fn set_range(&mut self, a: i64, b: i64, style: Option<BorderStyle>)
        requires
            old(self).wf(),
            a <= b,
        ensures
            final(self).wf(),
            final(self)@ == painted(old(self)@, a as int, b as int, style),
    {
        let mut out = self.pieces_below(a);
        let ghost left = cells(out@);
        match style {
            Some(st) => {
                if a < b {
                    let piece = Run { start: a, end: b, style: st };
                    proof {
                        lemma_cells_push(out@, piece);
                    }
                    out.push(piece);
                }
            },
            None => {},
        }
        let ghost mid = cells(out@);
        proof {
            assert(mid =~= painted(left, a as int, b as int, style));
        }
        self.push_pieces_from(&mut out, b);
        proof {
            assert(cells(out@) =~= painted(self@, a as int, b as int, style));
        }
        self.runs = out;
    }

    /// Whether some run reaches `p`, its end included: a cell at or above
    /// `p - 1` is held.
    pub fn reaches_to(&self, p: i64) -> (r: bool)
        requires
            self.wf(),
        ensures
            r == has_key_from(self@, p - 1),
    {
        let n = self.runs.len();
        proof {
            Self::lemma_reach(self.runs@, p - 1);
            assert forall|t: int| 0 <= t < n implies #[trigger] self.runs@[t].end <= self.runs@[n - 1].end by {
                if t < n - 1 {
                    assert(self.runs@[t].end <= self.runs@[n - 1].start);
                }
            }
        }
        n > 0 && self.runs[n - 1].end >= p
    }

    /// Whether a cell at or above `p` is held.
    pub fn reaches_from(&self, p: i64) -> (r: bool)
        requires
            self.wf(),
        ensures
            r == has_key_from(self@, p as int),
    {
        let n = self.runs.len();
        proof {
            Self::lemma_reach(self.runs@, p as int);
            assert forall|t: int| 0 <= t < n implies #[trigger] self.runs@[t].end <= self.runs@[n - 1].end by {
                if t < n - 1 {
                    assert(self.runs@[t].end <= self.runs@[n - 1].start);
                }
            }
        }
        n > 0 && self.runs[n - 1].end > p
    }

    /// Opens a cell at `p`: runs at or above `p` move up by one, and a run
    /// that holds `p` with cells below it is split around the new cell.
    /// Returns whether some run reaches `p`, end included.
    pub fn insert_and_shift_right(&mut self, p: i64) -> (r: bool)
        requires
            old(self).wf(),
            keys_below(old(self)@, i64::MAX - 1),
        ensures
            final(self).wf(),
            final(self)@ == shifted_right(old(self)@, p as int),
            r == has_key_from(old(self)@, p - 1),
            !r ==> *final(self) == *old(self),
    {
        let ghost src = self.runs@;
        let n = self.runs.len();
        if n == 0 || self.runs[n - 1].end < p {
            proof {
                Self::lemma_reach(src, p as int - 1);
                assert forall|t: int| 0 <= t < n implies #[trigger] src[t].end <= p - 1 by {
                    if t < n - 1 {
                        assert(src[t].end <= src[n - 1].start);
                    }
                }
                assert(cells(src) =~= shifted_right(cells(src), p as int)) by {
                    assert forall|x: int| cells(src).contains_key(x) implies x < p - 1 by {
                        lemma_cells_contains(src, x);
                        let t = choose|t: int| 0 <= t < src.len() && #[trigger] holds_cell(src[t], x);
                    }
                }
            }
            return false;
        }
        let mut out: Vec<Run> = Vec::new();
        let mut changed = false;
        let ghost mut bound: int = i64::MIN as int;
        let mut i: usize = 0;
        while i < n
            invariant
                n == src.len(),
                self.runs@ == src,
                runs_wf(src),
                keys_below(cells(src), i64::MAX - 1),
                i <= n,
                runs_wf(out@),
                forall|t: int| 0 <= t < out@.len() ==> #[trigger] out@[t].end <= bound,
                i > 0 ==> bound <= src[i - 1].end + (if src[i - 1].end > p {
                    1int
                } else {
                    0int
                }),
                i == 0 ==> out@.len() == 0,
                changed == exists|t: int| 0 <= t < i && #[trigger] src[t].end >= p,
                cells(out@) == shifted_right(cells(src.take(i as int)), p as int),
            decreases n - i,
        {
            let r = self.runs[i];
            proof {
                lemma_cells_take(src, i as int);
                lemma_cells_at(src, i as int, r.end - 1);
                if i > 0 {
                    assert(src[i - 1].end <= src[i as int].start);
                }
            }
            let ghost done = cells(out@);
            if r.end <= p {
                proof {
                    lemma_cells_push(out@, r);
                    assert(run_cells(r) =~= shifted_right(run_cells(r), p as int));
                    lemma_shift_right_union(done, cells(src.take(i as int)), run_cells(r), p as int);
                }
                out.push(r);
                proof {
                    bound = r.end as int;
                }
            } else if p <= r.start {
                let piece = Run { start: r.start + 1, end: r.end + 1, style: r.style };
                proof {
                    lemma_cells_push(out@, piece);
                    assert(run_cells(piece) =~= shifted_right(run_cells(r), p as int));
                    lemma_shift_right_union(done, cells(src.take(i as int)), run_cells(r), p as int);
                }
                out.push(piece);
                proof {
                    bound = piece.end as int;
                }
            } else {
                let low = Run { start: r.start, end: p, style: r.style };
                let high = Run { start: p + 1, end: r.end + 1, style: r.style };
                proof {
                    lemma_cells_push(out@, low);
                    lemma_cells_push(out@.push(low), high);
                    assert(run_cells(low).union_prefer_right(run_cells(high)) =~= shifted_right(
                        run_cells(r),
                        p as int,
                    ));
                    assert(done.union_prefer_right(run_cells(low)).union_prefer_right(run_cells(high))
                        =~= done.union_prefer_right(
                        run_cells(low).union_prefer_right(run_cells(high)),
                    ));
                    lemma_shift_right_union(done, cells(src.take(i as int)), run_cells(r), p as int);
                }
                out.push(low);
                out.push(high);
                proof {
                    bound = high.end as int;
                }
            }
            if r.end >= p {
                changed = true;
            }
            i = i + 1;
        }
        proof {
            assert(src.take(n as int) == src);
            Self::lemma_reach(src, p as int - 1);
        }
        self.runs = out;
        changed
    }

    /// Closes the cell at `p`: it leaves the run that holds it, and runs
    /// above `p` move down by one; a run left with no cell is dropped.
    /// Returns whether some run holds a cell at or above `p`.
    pub fn remove_and_shift_left(&mut self, p: i64) -> (r: bool)
        requires
            old(self).wf(),
        ensures
            final(self).wf(),
            final(self)@ == shifted_left(old(self)@, p as int),
            r == has_key_from(old(self)@, p as int),
            !r ==> *final(self) == *old(self),
    {
        let ghost src = self.runs@;
        let n = self.runs.len();
        if n == 0 || self.runs[n - 1].end <= p {
            proof {
                Self::lemma_reach(src, p as int);
                assert forall|t: int| 0 <= t < n implies #[trigger] src[t].end <= p by {
                    if t < n - 1 {
                        assert(src[t].end <= src[n - 1].start);
                    }
                }
                assert(cells(src) =~= shifted_left(cells(src), p as int)) by {
                    assert forall|x: int| cells(src).contains_key(x) implies x < p by {
                        lemma_cells_contains(src, x);
                        let t = choose|t: int| 0 <= t < src.len() && #[trigger] holds_cell(src[t], x);
                    }
                }
            }
            return false;
        }
        let mut out: Vec<Run> = Vec::new();
        let mut changed = false;
        let ghost mut bound: int = i64::MIN as int;
        let mut i: usize = 0;
        while i < n
            invariant
                n == src.len(),
                self.runs@ == src,
                runs_wf(src),
                i <= n,
                runs_wf(out@),
                forall|t: int| 0 <= t < out@.len() ==> #[trigger] out@[t].end <= bound,
                i > 0 ==> bound <= src[i - 1].end - (if src[i - 1].end > p {
                    1int
                } else {
                    0int
                }),
                i == 0 ==> out@.len() == 0 && bound == i64::MIN,
                changed == exists|t: int| 0 <= t < i && #[trigger] src[t].end > p,
                cells(out@) == shifted_left(cells(src.take(i as int)), p as int),
            decreases n - i,
        {
            let r = self.runs[i];
            proof {
                lemma_cells_take(src, i as int);
                if i > 0 {
                    assert(src[i - 1].end <= src[i as int].start);
                }
            }
            let ghost done = cells(out@);
            if r.end <= p {
                proof {
                    lemma_cells_push(out@, r);
                    assert(run_cells(r) =~= shifted_left(run_cells(r), p as int));
                    lemma_shift_left_union(done, cells(src.take(i as int)), run_cells(r), p as int);
                }
                out.push(r);
                proof {
                    bound = r.end as int;
                }
            } else if p < r.start {
                let piece = Run { start: r.start - 1, end: r.end - 1, style: r.style };
                proof {
                    lemma_cells_push(out@, piece);
                    assert(run_cells(piece) =~= shifted_left(run_cells(r), p as int));
                    lemma_shift_left_union(done, cells(src.take(i as int)), run_cells(r), p as int);
                }
                out.push(piece);
                proof {
                    bound = piece.end as int;
                }
            } else if r.start < r.end - 1 {
                let piece = Run { start: r.start, end: r.end - 1, style: r.style };
                proof {
                    lemma_cells_push(out@, piece);
                    assert(run_cells(piece) =~= shifted_left(run_cells(r), p as int));
                    lemma_shift_left_union(done, cells(src.take(i as int)), run_cells(r), p as int);
                }
                out.push(piece);
                proof {
                    bound = piece.end as int;
                }
            } else {
                proof {
                    assert(Map::<int, BorderStyle>::empty() =~= shifted_left(run_cells(r), p as int));
                    assert(done.union_prefer_right(Map::<int, BorderStyle>::empty()) =~= done);
                    lemma_shift_left_union(done, cells(src.take(i as int)), run_cells(r), p as int);
                }
            }
            if r.end > p {
                changed = true;
            }
            i = i + 1;
        }
        proof {
            assert(src.take(n as int) == src);
            Self::lemma_reach(src, p as int);
        }
        self.runs = out;
        changed
    }

    /// Some run ends beyond `q` exactly when some cell at or above `q` is held.
    proof fn lemma_reach(s: Seq<Run>, q: int)
        requires
            runs_wf(s),
        ensures
            (exists|t: int| 0 <= t < s.len() && #[trigger] s[t].end > q) == has_key_from(cells(s), q),
    {
        if exists|t: int| 0 <= t < s.len() && #[trigger] s[t].end > q {
            let t = choose|t: int| 0 <= t < s.len() && #[trigger] s[t].end > q;
            lemma_cells_at(s, t, s[t].end - 1);
        }
        if has_key_from(cells(s), q) {
            let k = choose|k: int| cells(s).contains_key(k) && k >= q;
            lemma_cells_contains(s, k);
            let t = choose|t: int| 0 <= t < s.len() && #[trigger] holds_cell(s[t], k);
            assert(s[t].end > q);
        }
    }
}

proof fn lemma_shift_right_union(
    out: Map<int, BorderStyle>,
    done: Map<int, BorderStyle>,
    add: Map<int, BorderStyle>,
    p: int,
)
    requires
        out == shifted_right(done, p),
    ensures
        out.union_prefer_right(shifted_right(add, p)) == shifted_right(done.union_prefer_right(add), p),
{
    assert(out.union_prefer_right(shifted_right(add, p)) =~= shifted_right(
        done.union_prefer_right(add),
        p,
    ));
}

proof fn lemma_shift_left_union(
    out: Map<int, BorderStyle>,
    done: Map<int, BorderStyle>,
    add: Map<int, BorderStyle>,
    p: int,
)
    requires
        out == shifted_left(done, p),
    ensures
        out.union_prefer_right(shifted_left(add, p)) == shifted_left(done.union_prefer_right(add), p),
{
    assert(out.union_prefer_right(shifted_left(add, p)) =~= shifted_left(
        done.union_prefer_right(add),
        p,
    ));
}

proof fn lemma_below_step(
    out: Map<int, BorderStyle>,
    done: Map<int, BorderStyle>,
    r: Run,
    piece: Run,
    a: i64,
)
    requires
        out == below(done, a as int),
        piece.start == r.start,
        piece.style == r.style,
        piece.end == (if r.end < a {
            r.end
        } else {
            a
        }),
    ensures
        out.union_prefer_right(run_cells(piece)) == below(
            done.union_prefer_right(run_cells(r)),
            a as int,
        ),
{
    assert(out.union_prefer_right(run_cells(piece)) =~= below(
        done.union_prefer_right(run_cells(r)),
        a as int,
    ));
}

proof fn lemma_below_skip(out: Map<int, BorderStyle>, done: Map<int, BorderStyle>, r: Run, a: int)
    requires
        out == below(done, a),
        r.start >= a || r.start >= r.end,
    ensures
        out == below(done.union_prefer_right(run_cells(r)), a),
{
    assert(out =~= below(done.union_prefer_right(run_cells(r)), a));
}

proof fn lemma_from_step(
    out: Map<int, BorderStyle>,
    base: Map<int, BorderStyle>,
    done: Map<int, BorderStyle>,
    r: Run,
    piece: Run,
    b: i64,
)
    requires
        out == base.union_prefer_right(from(done, b as int)),
        piece.end == r.end,
        piece.style == r.style,
        piece.start == (if r.start < b {
            b
        } else {
            r.start
        }),
    ensures
        out.union_prefer_right(run_cells(piece)) == base.union_prefer_right(
            from(done.union_prefer_right(run_cells(r)), b as int),
        ),
{
    assert(out.union_prefer_right(run_cells(piece)) =~= base.union_prefer_right(
        from(done.union_prefer_right(run_cells(r)), b as int),
    ));
}

proof fn lemma_from_skip(
    out: Map<int, BorderStyle>,
    base: Map<int, BorderStyle>,
    done: Map<int, BorderStyle>,
    r: Run,
    b: int,
)
    requires
        out == base.union_prefer_right(from(done, b)),
        r.end <= b || r.end <= r.start,
    ensures
        out == base.union_prefer_right(from(done.union_prefer_right(run_cells(r)), b)),
{
    assert(out =~= base.union_prefer_right(from(done.union_prefer_right(run_cells(r)), b)));
}

} // verus!
