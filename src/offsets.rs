//! Custom row heights, shifted with the rows they belong to.
use vstd::prelude::*;
use crate::axis::{SparseAxis, shifted_left, shifted_right, keys_below, opt_at};

verus! {

/// Height of a row without a custom height.
pub const DEFAULT_ROW_HEIGHT: u32 = 21;

/// Every entry `(k, h)` of `s` is held by `m` at a key at or above `at`, and
/// every such key of `m` appears in `s`.
pub open spec fn lists_from(s: Seq<(i64, u32)>, m: Map<int, u32>, at: int) -> bool {
    &&& forall|i: int| 0 <= i < s.len() ==> #[trigger] s[i].0 >= at && m.contains_key(s[i].0 as int) && m[s[i].0 as int] == s[i].1
    &&& forall|k: int| m.contains_key(k) && k >= at ==> exists|i: int| 0 <= i < s.len() && #[trigger] s[i].0 == k
}

#[derive(Debug, PartialEq, Eq)]
pub struct Offsets {
    pub rows: SparseAxis<u32>,
}

impl Offsets {
    pub open spec fn wf(&self) -> bool {
        self.rows.wf()
    }

    pub open spec fn height_spec(&self, row: int) -> u32 {
        if self.rows@.contains_key(row) {
            self.rows@[row]
        } else {
            DEFAULT_ROW_HEIGHT
        }
    }

    pub fn new() -> (r: Self)
        ensures
            r.wf(),
            r.rows@ == Map::<int, u32>::empty(),
    {
        Offsets { rows: SparseAxis::new() }
    }

    pub fn set_row_height(&mut self, row: i64, height: u32)
        requires
            old(self).wf(),
        ensures
            final(self).wf(),
            final(self).rows@ == old(self).rows@.insert(row as int, height),
    {
        self.rows.set(row, height);
    }

    pub fn row_height(&self, row: i64) -> (r: u32)
        requires
            self.wf(),
        ensures
            r == self.height_spec(row as int),
    {
        match self.rows.get(row) {
            Some(h) => *h,
            None => DEFAULT_ROW_HEIGHT,
        }
    }

    /// The custom heights at or below row `at`, top to bottom.
    fn entries_from(&self, at: i64) -> (r: Vec<(i64, u32)>)
        requires
            self.wf(),
        ensures
            lists_from(r@, self.rows@, at as int),
    {
        let mut out: Vec<(i64, u32)> = Vec::new();
        let mut i: usize = 0;
        while i < self.rows.keys.len()
            invariant
                self.wf(),
                i <= self.rows.keys@.len(),
                forall|t: int| 0 <= t < out@.len() ==> #[trigger] out@[t].0 >= at && self.rows@.contains_key(out@[t].0 as int) && self.rows@[out@[t].0 as int] == out@[t].1,
                forall|j: int| 0 <= j < i && self.rows.keys@[j] >= at ==> exists|t: int| 0 <= t < out@.len() && #[trigger] out@[t].0 == self.rows.keys@[j],
            decreases self.rows.keys@.len() - i,
        {
            proof {
                self.rows.lemma_entry(i as int);
            }
            let k = self.rows.keys[i];
            let ghost prev = out@;
            if k >= at {
                out.push((k, self.rows.vals[i]));
            }
            proof {
                assert forall|j: int| 0 <= j < i + 1 && self.rows.keys@[j] >= at implies exists|t: int| 0 <= t < out@.len() && #[trigger] out@[t].0 == self.rows.keys@[j] by {
                    if j < i {
                        let t = choose|t: int| 0 <= t < prev.len() && #[trigger] prev[t].0 == self.rows.keys@[j];
                        assert(out@[t] == prev[t]);
                    } else {
                        assert(out@[out@.len() - 1].0 == k);
                    }
                }
            }
            i = i + 1;
        }
        proof {
            assert forall|k: int| self.rows@.contains_key(k) && k >= at implies exists|t: int| 0 <= t < out@.len() && #[trigger] out@[t].0 == k by {
                let j = self.rows.index_of(k);
            }
        }
        out
    }

    /// Removes row `row`: its custom height is dropped and the heights below
    /// move up one row. Returns the custom heights that moved, at their new
    /// rows, and the height that was dropped.
    pub fn delete_row(&mut self, row: i64) -> (r: (Vec<(i64, u32)>, Option<u32>))
        requires
            old(self).wf(),
        ensures
            final(self).wf(),
            final(self).rows@ == shifted_left(old(self).rows@, row as int),
            lists_from(r.0@, final(self).rows@, row as int),
            r.1 == opt_at(old(self).rows@, row as int),
    {
        let removed = match self.rows.get(row) {
            Some(h) => Some(*h),
            None => None,
        };
        self.rows.remove_and_shift_left(row);
        let changed = self.entries_from(row);
        (changed, removed)
    }

    /// Opens a row at `row`: the heights at or below it move down one row.
    /// Returns the custom heights that moved, at their new rows.
    pub fn insert_row(&mut self, row: i64) -> (r: Vec<(i64, u32)>)
        requires
            old(self).wf(),
            keys_below(old(self).rows@, i64::MAX as int),
        ensures
            final(self).wf(),
            final(self).rows@ == shifted_right(old(self).rows@, row as int),
            lists_from(r@, final(self).rows@, row as int),
    {
        self.rows.insert_and_shift_right(row);
        self.entries_from(row)
    }
}

} // verus!
