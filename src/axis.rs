//! A sparse map from a signed coordinate to a value that can open or close a
//! line at any coordinate, renumbering every key beyond it.
use vstd::prelude::*;

verus! {

/// The map after a line is opened at `at`: keys below `at` stay, `at` is
/// vacant, and each key at or above `at` moves up by one.
pub open spec fn shifted_right<V>(m: Map<int, V>, at: int) -> Map<int, V> {
    Map::new(
        |k: int|
            if k < at {
                m.contains_key(k)
            } else if k == at {
                false
            } else {
                m.contains_key(k - 1)
            },
        |k: int|
            if k < at {
                m[k]
            } else {
                m[k - 1]
            },
    )
}

/// The map after the line at `at` is closed: its entry is dropped and each
/// key above `at` moves down by one.
pub open spec fn shifted_left<V>(m: Map<int, V>, at: int) -> Map<int, V> {
    Map::new(
        |k: int|
            if k < at {
                m.contains_key(k)
            } else {
                m.contains_key(k + 1)
            },
        |k: int|
            if k < at {
                m[k]
            } else {
                m[k + 1]
            },
    )
}

/// What `m` holds at `k`.
pub open spec fn opt_at<K, V>(m: Map<K, V>, k: K) -> Option<V> {
    if m.contains_key(k) {
        Some(m[k])
    } else {
        None
    }
}

/// Some key of `m` lies at or above `at`.
pub open spec fn has_key_from<V>(m: Map<int, V>, at: int) -> bool {
    exists|k: int| m.contains_key(k) && k >= at
}

/// Every key of `m` lies strictly below `bound`.
pub open spec fn keys_below<V>(m: Map<int, V>, bound: int) -> bool {
    forall|k: int| m.contains_key(k) ==> k < bound
}

/// Closing the line that was just opened gives back the map it started from.
pub proof fn lemma_shift_right_then_left<V>(m: Map<int, V>, at: int)
    ensures
        shifted_left(shifted_right(m, at), at) == m,
{
    assert(shifted_left(shifted_right(m, at), at) =~= m);
}

/// Sparse map from coordinate to value, stored as two parallel vectors with
/// the keys in strictly ascending order.
#[derive(Debug, PartialEq, Eq)]
pub struct SparseAxis<V> {
    pub keys: Vec<i64>,
    pub vals: Vec<V>,
}

impl<V> View for SparseAxis<V> {
    type V = Map<int, V>;

    open spec fn view(&self) -> Map<int, V> {
        Map::new(
            |k: int| self.holds(k),
            |k: int| self.vals@[self.index_of(k)],
        )
    }
}

impl<V> SparseAxis<V> {
    pub open spec fn wf(&self) -> bool {
        &&& self.keys@.len() == self.vals@.len()
        &&& forall|i: int, j: int|
            0 <= i < j < self.keys@.len() ==> #[trigger] self.keys@[i] < #[trigger] self.keys@[j]
    }

    pub open spec fn holds(&self, k: int) -> bool {
        exists|i: int| 0 <= i < self.keys@.len() && self.keys@[i] == k
    }

    pub open spec fn index_of(&self, k: int) -> int {
        choose|i: int| 0 <= i < self.keys@.len() && self.keys@[i] == k
    }

    /// The entry stored at position `i` is what the map holds for its key.
    pub proof fn lemma_entry(&self, i: int)
        requires
            self.wf(),
            0 <= i < self.keys@.len(),
        ensures
            self@.contains_key(self.keys@[i] as int),
            self@[self.keys@[i] as int] == self.vals@[i],
            self.index_of(self.keys@[i] as int) == i,
    {
        let k = self.keys@[i] as int;
        assert(self.holds(k));
        let j = self.index_of(k);
        if j < i {
            assert(self.keys@[j] < self.keys@[i]);
        } else if j > i {
            assert(self.keys@[i] < self.keys@[j]);
        }
    }

    pub fn new() -> (r: Self)
        ensures
            r.wf(),
            r@ == Map::<int, V>::empty(),
    {
        let r = SparseAxis { keys: Vec::new(), vals: Vec::new() };
        assert(r@ =~= Map::<int, V>::empty());
        r
    }

    pub fn len(&self) -> (r: usize)
        requires
            self.wf(),
        ensures
            r == self@.dom().len(),
    {
        proof {
            self.lemma_dom_len();
        }
        self.keys.len()
    }

    pub fn is_empty(&self) -> (r: bool)
        requires
            self.wf(),
        ensures
            r == (self@ == Map::<int, V>::empty()),
    {
        if self.keys.len() == 0 {
            assert(self@ =~= Map::<int, V>::empty());
            true
        } else {
            proof {
                self.lemma_entry(0);
            }
            assert(self@.contains_key(self.keys@[0] as int));
            false
        }
    }

    proof fn lemma_dom_len(&self)
        requires
            self.wf(),
        ensures
            self@.dom().len() == self.keys@.len(),
            self@.dom().finite(),
    {
        let s = Set::new(|i: int| 0 <= i < self.keys@.len());
        let f = |i: int| self.keys@[i] as int;
        assert forall|i: int, j: int| s.contains(i) && s.contains(j) && f(i) == f(j) implies i == j by {
            if i < j {
                assert(self.keys@[i] < self.keys@[j]);
            } else if j < i {
                assert(self.keys@[j] < self.keys@[i]);
            }
        }
        assert(s =~= vstd::set_lib::set_int_range(0, self.keys@.len() as int));
        vstd::set_lib::lemma_int_range(0, self.keys@.len() as int);
        vstd::set_lib::lemma_map_size(s, s.map(f), f);
        assert(self@.dom() =~= s.map(f)) by {
            assert forall|k: int| self@.dom().contains(k) implies s.map(f).contains(k) by {
                let i = self.index_of(k);
                assert(s.contains(i) && f(i) == k);
            }
            assert forall|k: int| s.map(f).contains(k) implies self@.dom().contains(k) by {
                let i = choose|i: int| s.contains(i) && f(i) == k;
                assert(self.keys@[i] == k);
            }
        }
    }

    /// First position whose key is not below `k`.
    fn lower_bound(&self, k: i64) -> (r: usize)
        requires
            self.wf(),
        ensures
            r <= self.keys@.len(),
            forall|j: int| 0 <= j < r ==> self.keys@[j] < k,
            forall|j: int| r <= j < self.keys@.len() ==> self.keys@[j] >= k,
    {
        let mut i: usize = 0;
        while i < self.keys.len() && self.keys[i] < k
            invariant
                self.wf(),
                i <= self.keys@.len(),
                forall|j: int| 0 <= j < i ==> self.keys@[j] < k,
            decreases self.keys@.len() - i,
        {
            i = i + 1;
        }
        if i < self.keys.len() {
            assert forall|j: int| i <= j < self.keys@.len() implies self.keys@[j] >= k by {
                if j > i {
                    assert(self.keys@[i as int] < self.keys@[j]);
                }
            }
        }
        i
    }

    pub fn contains_key(&self, k: i64) -> (r: bool)
        requires
            self.wf(),
        ensures
            r == self@.contains_key(k as int),
    {
        let i = self.lower_bound(k);
        if i < self.keys.len() && self.keys[i] == k {
            proof {
                self.lemma_entry(i as int);
            }
            true
        } else {
            proof {
                if self@.contains_key(k as int) {
                    let j = self.index_of(k as int);
                    assert(self.keys@[j] == k);
                }
            }
            false
        }
    }

    pub fn get(&self, k: i64) -> (r: Option<&V>)
        requires
            self.wf(),
        ensures
            match r {
                Some(v) => self@.contains_key(k as int) && *v == self@[k as int],
                None => !self@.contains_key(k as int),
            },
    {
        let i = self.lower_bound(k);
        if i < self.keys.len() && self.keys[i] == k {
            proof {
                self.lemma_entry(i as int);
            }
            Some(&self.vals[i])
        } else {
            proof {
                if self@.contains_key(k as int) {
                    let j = self.index_of(k as int);
                    assert(self.keys@[j] == k);
                }
            }
            None
        }
    }
}


impl<V> SparseAxis<V> {
    /// `b` holds `a`'s values position for position, each key renamed by `f`,
    /// and `g` undoes `f`: then `b` maps `q` to what `a` maps `g(q)` to.
    proof fn lemma_relabel(a: &Self, b: &Self, f: spec_fn(int) -> int, g: spec_fn(int) -> int)
        requires
            a.wf(),
            b.wf(),
            a.vals@ == b.vals@,
            a.keys@.len() == b.keys@.len(),
            forall|j: int| 0 <= j < a.keys@.len() ==> b.keys@[j] == f(a.keys@[j] as int),
            forall|j: int| 0 <= j < a.keys@.len() ==> g(f(a.keys@[j] as int)) == a.keys@[j],
        ensures
            forall|q: int|
                #[trigger] b@.contains_key(q) <==> (a@.contains_key(g(q)) && f(g(q)) == q),
            forall|q: int| #[trigger] b@.contains_key(q) ==> b@[q] == a@[g(q)],
    {
        assert forall|q: int| #[trigger] b@.contains_key(q) implies a@.contains_key(g(q)) && f(g(q))
            == q && b@[q] == a@[g(q)] by {
            let j = b.index_of(q);
            a.lemma_entry(j);
        }
        assert forall|q: int| a@.contains_key(g(q)) && f(g(q)) == q implies #[trigger] b@.contains_key(
            q,
        ) by {
            let j = a.index_of(g(q));
            b.lemma_entry(j);
        }
    }

    /// Stores `v` under `k`, replacing what was there.
    pub fn set(&mut self, k: i64, v: V)
        requires
            old(self).wf(),
        ensures
            final(self).wf(),
            final(self)@ == old(self)@.insert(k as int, v),
    {
        let ghost pre = *self;
        let i = self.lower_bound(k);
        if i < self.keys.len() && self.keys[i] == k {
            self.vals.set(i, v);
            proof {
                assert forall|q: int| #[trigger]
                    self@.contains_key(q) == pre@.insert(k as int, v).contains_key(q) && (
                    self@.contains_key(q) ==> self@[q] == pre@.insert(k as int, v)[q]) by {
                    if self@.contains_key(q) {
                        let j = self.index_of(q);
                        pre.lemma_entry(j);
                    }
                    if pre@.contains_key(q) {
                        let j = pre.index_of(q);
                        self.lemma_entry(j);
                    }
                    if q == k {
                        self.lemma_entry(i as int);
                    }
                }
                assert(self@ =~= pre@.insert(k as int, v));
            }
        } else {
            self.keys.insert(i, k);
            self.vals.insert(i, v);
            proof {
                assert forall|q: int| #[trigger]
                    self@.contains_key(q) == pre@.insert(k as int, v).contains_key(q) && (
                    self@.contains_key(q) ==> self@[q] == pre@.insert(k as int, v)[q]) by {
                    if self@.contains_key(q) {
                        let j = self.index_of(q);
                        if j < i {
                            pre.lemma_entry(j);
                        } else if j > i {
                            pre.lemma_entry(j - 1);
                        }
                    }
                    if pre@.contains_key(q) {
                        let j = pre.index_of(q);
                        if j < i {
                            self.lemma_entry(j);
                        } else {
                            self.lemma_entry(j + 1);
                        }
                    }
                    if q == k {
                        self.lemma_entry(i as int);
                    }
                }
                assert(self@ =~= pre@.insert(k as int, v));
            }
        }
    }

    /// Drops the entry at position `i`.
    fn remove_index(&mut self, i: usize) -> (r: V)
        requires
            old(self).wf(),
            i < old(self).keys@.len(),
        ensures
            final(self).wf(),
            final(self).keys@ == old(self).keys@.remove(i as int),
            final(self).vals@ == old(self).vals@.remove(i as int),
            final(self)@ == old(self)@.remove(old(self).keys@[i as int] as int),
            r == old(self)@[old(self).keys@[i as int] as int],
    {
        let ghost pre = *self;
        let ghost k = pre.keys@[i as int] as int;
        proof {
            pre.lemma_entry(i as int);
        }
        self.keys.remove(i);
        let v = self.vals.remove(i);
        proof {
            assert forall|q: int| #[trigger]
                self@.contains_key(q) == pre@.remove(k).contains_key(q) && (self@.contains_key(q)
                    ==> self@[q] == pre@[q]) by {
                if self@.contains_key(q) {
                    let j = self.index_of(q);
                    if j < i {
                        pre.lemma_entry(j);
                        assert(pre.keys@[j] < pre.keys@[i as int]);
                    } else {
                        pre.lemma_entry(j + 1);
                        assert(pre.keys@[i as int] < pre.keys@[j + 1]);
                    }
                }
                if pre@.contains_key(q) && q != k {
                    let j = pre.index_of(q);
                    if j < i {
                        self.lemma_entry(j);
                    } else {
                        self.lemma_entry(j - 1);
                    }
                }
            }
            assert(self@ =~= pre@.remove(k));
        }
        v
    }

    /// Takes out the value stored under `k`, if any.
    pub fn remove(&mut self, k: i64) -> (r: Option<V>)
        requires
            old(self).wf(),
        ensures
            final(self).wf(),
            final(self)@ == old(self)@.remove(k as int),
            r == (if old(self)@.contains_key(k as int) {
                Some(old(self)@[k as int])
            } else {
                None
            }),
    {
        let ghost pre = *self;
        let i = self.lower_bound(k);
        if i < self.keys.len() && self.keys[i] == k {
            let v = self.remove_index(i);
            Some(v)
        } else {
            proof {
                if pre@.contains_key(k as int) {
                    let j = pre.index_of(k as int);
                    assert(pre.keys@[j] == k);
                }
                assert(pre@ =~= pre@.remove(k as int));
            }
            None
        }
    }

    /// Opens a line at `at`: every key at or above `at` moves up by one.
    /// Returns whether any key moved.
    pub fn insert_and_shift_right(&mut self, at: i64) -> (r: bool)
        requires
            old(self).wf(),
            keys_below(old(self)@, i64::MAX as int),
        ensures
            final(self).wf(),
            final(self)@ == shifted_right(old(self)@, at as int),
            r == has_key_from(old(self)@, at as int),
            !r ==> *final(self) == *old(self),
    {
        let ghost pre = *self;
        let p = self.lower_bound(at);
        let n = self.keys.len();
        if p == n {
            proof {
                if has_key_from(pre@, at as int) {
                    let k = choose|k: int| pre@.contains_key(k) && k >= at;
                    let j = pre.index_of(k);
                }
                assert(pre@ =~= shifted_right(pre@, at as int));
            }
            return false;
        }
        let mut i = p;
        while i < n
            invariant
                p <= i <= n,
                n == pre.keys@.len(),
                pre.wf(),
                keys_below(pre@, i64::MAX as int),
                self.vals@ == pre.vals@,
                self.keys@.len() == n,
                forall|j: int| 0 <= j < p ==> pre.keys@[j] < at,
                forall|j: int| p <= j < n ==> pre.keys@[j] >= at,
                forall|j: int|
                    0 <= j < n ==> self.keys@[j] == if p <= j < i {
                        pre.keys@[j] + 1
                    } else {
                        pre.keys@[j] as int
                    },
            decreases n - i,
        {
            proof {
                pre.lemma_entry(i as int);
            }
            let k = self.keys[i];
            self.keys.set(i, k + 1);
            i = i + 1;
        }
        proof {
            let f = |k: int| if k >= at { k + 1 } else { k };
            let g = |q: int| if q > at { q - 1 } else { q };
            Self::lemma_relabel(&pre, self, f, g);
            assert(self@ =~= shifted_right(pre@, at as int));
            if p < n {
                pre.lemma_entry(p as int);
            }
            if has_key_from(pre@, at as int) {
                let k = choose|k: int| pre@.contains_key(k) && k >= at;
                let j = pre.index_of(k);
            }
        }
        p < n
    }

    /// Closes the line at `at`: its entry is dropped and every key above `at`
    /// moves down by one. Returns whether any entry was dropped or moved.
    pub fn remove_and_shift_left(&mut self, at: i64) -> (r: bool)
        requires
            old(self).wf(),
        ensures
            final(self).wf(),
            final(self)@ == shifted_left(old(self)@, at as int),
            r == has_key_from(old(self)@, at as int),
            !r ==> *final(self) == *old(self),
    {
        let ghost pre = *self;
        let p = self.lower_bound(at);
        if p == self.keys.len() {
            proof {
                if has_key_from(pre@, at as int) {
                    let k = choose|k: int| pre@.contains_key(k) && k >= at;
                    let j = pre.index_of(k);
                }
                assert(pre@ =~= shifted_left(pre@, at as int));
            }
            return false;
        }
        let changed = p < self.keys.len();
        proof {
            if p < pre.keys@.len() {
                pre.lemma_entry(p as int);
            }
            if has_key_from(pre@, at as int) {
                let k = choose|k: int| pre@.contains_key(k) && k >= at;
                let j = pre.index_of(k);
            }
        }
        if p < self.keys.len() && self.keys[p] == at {
            let _ = self.remove_index(p);
        } else {
            proof {
                if pre@.contains_key(at as int) {
                    let j = pre.index_of(at as int);
                    assert(pre.keys@[j] == at);
                }
                assert(pre@ =~= pre@.remove(at as int));
            }
        }
        let ghost mid = *self;
        let n = self.keys.len();
        let mut i = p;
        proof {
            assert forall|j: int| p <= j < n implies mid.keys@[j] > at by {
                if j > p {
                    assert(pre.keys@[p as int] < pre.keys@[j]);
                }
            }
        }
        while i < n
            invariant
                p <= i <= n,
                n == mid.keys@.len(),
                mid.wf(),
                self.vals@ == mid.vals@,
                self.keys@.len() == n,
                forall|j: int| 0 <= j < p ==> mid.keys@[j] < at,
                forall|j: int| p <= j < n ==> mid.keys@[j] > at,
                forall|j: int|
                    0 <= j < n ==> self.keys@[j] == if p <= j < i {
                        mid.keys@[j] - 1
                    } else {
                        mid.keys@[j] as int
                    },
            decreases n - i,
        {
            let k = self.keys[i];
            self.keys.set(i, k - 1);
            i = i + 1;
        }
        proof {
            let f = |k: int| if k > at { k - 1 } else { k };
            let g = |q: int| if q >= at { q + 1 } else { q };
            Self::lemma_relabel(&mid, self, f, g);
            assert(self@ =~= shifted_left(pre@, at as int));
        }
        changed
    }
}

impl<V> SparseAxis<V> {
    /// Two axes with the same keys whose values are related position by
    /// position by `p` are related key by key.
    pub proof fn lemma_pointwise(a: &Self, b: &Self, p: spec_fn(V, V) -> bool)
        requires
            a.wf(),
            a.keys@ == b.keys@,
            a.vals@.len() == b.vals@.len(),
            forall|j: int| 0 <= j < a.vals@.len() ==> #[trigger] p(a.vals@[j], b.vals@[j]),
        ensures
            b.wf(),
            b@.dom() == a@.dom(),
            forall|k: int| #[trigger] a@.contains_key(k) ==> p(a@[k], b@[k]),
    {
        assert forall|k: int| #[trigger] a@.contains_key(k) implies b@.contains_key(k) && p(a@[k], b@[k]) by {
            let j = a.index_of(k);
            a.lemma_entry(j);
            b.lemma_entry(j);
        }
        assert forall|k: int| #[trigger] b@.contains_key(k) implies a@.contains_key(k) by {
            let j = b.index_of(k);
            a.lemma_entry(j);
        }
        assert(b@.dom() =~= a@.dom());
    }
}

} // verus!
