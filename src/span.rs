//! The least and greatest member of a finite set of coordinates, grown one
//! range at a time.
use vstd::prelude::*;

verus! {

/// `sp` is the least and greatest member of `s`, or `None` when `s` is empty.
pub open spec fn spans(sp: Option<(i64, i64)>, s: Set<int>) -> bool {
    match sp {
        None => forall|y: int| !s.contains(y),
        Some(b) => {
            &&& s.contains(b.0 as int)
            &&& s.contains(b.1 as int)
            &&& forall|y: int| #[trigger] s.contains(y) ==> b.0 <= y <= b.1
        },
    }
}

pub open spec fn range_set(lo: int, hi: int) -> Set<int> {
    Set::new(|y: int| lo <= y <= hi)
}

/// Widens `sp` to cover `lo..=hi` as well.
pub fn widen(sp: Option<(i64, i64)>, lo: i64, hi: i64, Ghost(s): Ghost<Set<int>>) -> (r: Option<(i64, i64)>)
    requires
        lo <= hi,
        spans(sp, s),
    ensures
        spans(r, s.union(range_set(lo as int, hi as int))),
{
    let ghost t = s.union(range_set(lo as int, hi as int));
    match sp {
        None => {
            proof {
                assert(t.contains(lo as int) && t.contains(hi as int));
            }
            Some((lo, hi))
        },
        Some((a, b)) => {
            let l = if lo < a {
                lo
            } else {
                a
            };
            let h = if hi > b {
                hi
            } else {
                b
            };
            proof {
                assert(t.contains(l as int) && t.contains(h as int));
            }
            Some((l, h))
        },
    }
}

} // verus!
