//! Sorting the levels of one side into the side's canonical order, by merge
//! sort.

use vstd::prelude::*;

use crate::model::{in_order, precedes, unique_keys, Side};

verus! {

/// Price `a` comes before price `b` on `side`.
pub fn precedes_exec(side: Side, a: i64, b: i64) -> (r: bool)
    ensures
        r == precedes(side, a, b),
{
    match side {
        Side::Bid => a > b,
        Side::Ask => a < b,
    }
}

/// `x` is one of the levels `v[lo..hi]`.
pub open spec fn among(v: Seq<(i64, i64)>, lo: int, hi: int, x: (i64, i64)) -> bool {
    exists|i: int| lo <= i < hi && v[i] == x
}

/// No level of `a` shares its price with a level of `b`.
pub open spec fn disjoint_keys(a: Seq<(i64, i64)>, b: Seq<(i64, i64)>) -> bool {
    forall|i: int, j: int| 0 <= i < a.len() && 0 <= j < b.len() ==> #[trigger] a[i].0 != #[trigger] b[j].0
}

/// Merges two sides in the order of `side` that share no price.
fn merge(side: Side, a: &Vec<(i64, i64)>, b: &Vec<(i64, i64)>) -> (r: Vec<(i64, i64)>)
    requires
        in_order(side, a@),
        in_order(side, b@),
        disjoint_keys(a@, b@),
    ensures
        in_order(side, r@),
        forall|x: (i64, i64)| r@.contains(x) <==> a@.contains(x) || b@.contains(x),
{
    let mut out: Vec<(i64, i64)> = Vec::new();
    let mut i: usize = 0;
    let mut j: usize = 0;
    while i < a.len() || j < b.len()
        invariant
            i <= a.len(),
            j <= b.len(),
            in_order(side, a@),
            in_order(side, b@),
            disjoint_keys(a@, b@),
            in_order(side, out@),
            forall|x: (i64, i64)| out@.contains(x) <==> among(a@, 0, i as int, x) || among(b@, 0, j as int, x),
            forall|k: int| 0 <= k < out.len() && i < a.len() ==> precedes(side, #[trigger] out@[k].0, a@[i as int].0),
            forall|k: int| 0 <= k < out.len() && j < b.len() ==> precedes(side, #[trigger] out@[k].0, b@[j as int].0),
        decreases a.len() - i + b.len() - j,
    {
        let ghost before = out@;
        let take_a = j == b.len() || (i < a.len() && precedes_exec(side, a[i].0, b[j].0));
        let x = if take_a { a[i] } else { b[j] };
        if !take_a && i < a.len() {
            assert(a@[i as int].0 != b@[j as int].0);
        }
        out.push(x);
        proof {
            let ni: int = if take_a { i + 1 } else { i as int };
            let nj: int = if take_a { j as int } else { j + 1 };
            assert forall|p: int, q: int| 0 <= p < q < out@.len() implies precedes(side, #[trigger] out@[p].0, #[trigger] out@[q].0) by {
                if q < before.len() {
                    assert(precedes(side, before[p].0, before[q].0));
                }
            }
            assert forall|y: (i64, i64)| out@.contains(y) <==> among(a@, 0, ni, y) || among(b@, 0, nj, y) by {
                if out@.contains(y) {
                    let k = choose|k: int| 0 <= k < out@.len() && out@[k] == y;
                    if k < before.len() {
                        assert(before.contains(y));
                    }
                }
                if among(a@, 0, ni, y) {
                    let k = choose|k: int| 0 <= k < ni && a@[k] == y;
                    if k < i {
                        assert(among(a@, 0, i as int, y));
                        assert(before.contains(y));
                        let m = choose|m: int| 0 <= m < before.len() && before[m] == y;
                        assert(out@[m] == y);
                    } else {
                        assert(out@[before.len() as int] == y);
                    }
                }
                if among(b@, 0, nj, y) {
                    let k = choose|k: int| 0 <= k < nj && b@[k] == y;
                    if k < j {
                        assert(among(b@, 0, j as int, y));
                        assert(before.contains(y));
                        let m = choose|m: int| 0 <= m < before.len() && before[m] == y;
                        assert(out@[m] == y);
                    } else {
                        assert(out@[before.len() as int] == y);
                    }
                }
            }
            assert forall|k: int| 0 <= k < out@.len() && ni < a.len() implies precedes(side, #[trigger] out@[k].0, a@[ni].0) by {
                if k < before.len() {
                    if take_a {
                        assert(precedes(side, a@[i as int].0, a@[ni].0));
                    }
                } else if take_a {
                    assert(precedes(side, a@[i as int].0, a@[ni].0));
                }
            }
            assert forall|k: int| 0 <= k < out@.len() && nj < b.len() implies precedes(side, #[trigger] out@[k].0, b@[nj].0) by {
                if k < before.len() {
                    if !take_a {
                        assert(precedes(side, b@[j as int].0, b@[nj].0));
                    }
                } else if !take_a {
                    assert(precedes(side, b@[j as int].0, b@[nj].0));
                }
            }
        }
        if take_a {
            i = i + 1;
        } else {
            j = j + 1;
        }
    }
    proof {
        assert forall|y: (i64, i64)| among(a@, 0, a@.len() as int, y) <==> a@.contains(y) by {
            if a@.contains(y) {
                let k = choose|k: int| 0 <= k < a@.len() && a@[k] == y;
                assert(among(a@, 0, a@.len() as int, y));
            }
        }
        assert forall|y: (i64, i64)| among(b@, 0, b@.len() as int, y) <==> b@.contains(y) by {
            if b@.contains(y) {
                let k = choose|k: int| 0 <= k < b@.len() && b@[k] == y;
                assert(among(b@, 0, b@.len() as int, y));
            }
        }
    }
    out
}

/// The levels `v[lo..hi]`, none of whose prices repeats, in the order of
/// `side`.
fn sort_range(side: Side, v: &Vec<(i64, i64)>, lo: usize, hi: usize) -> (r: Vec<(i64, i64)>)
    requires
        lo <= hi <= v.len(),
        unique_keys(v@),
    ensures
        in_order(side, r@),
        forall|x: (i64, i64)| r@.contains(x) <==> among(v@, lo as int, hi as int, x),
    decreases hi - lo,
{
    if hi - lo <= 1 {
        let mut out: Vec<(i64, i64)> = Vec::new();
        if hi > lo {
            out.push(v[lo]);
        }
        proof {
            assert forall|x: (i64, i64)| out@.contains(x) <==> among(v@, lo as int, hi as int, x) by {
                if out@.contains(x) {
                    assert(v@[lo as int] == x);
                }
                if among(v@, lo as int, hi as int, x) {
                    assert(out@[0] == x);
                }
            }
        }
        return out;
    }
    let mid = lo + (hi - lo) / 2;
    let a = sort_range(side, v, lo, mid);
    let b = sort_range(side, v, mid, hi);
    proof {
        assert forall|p: int, q: int| 0 <= p < a@.len() && 0 <= q < b@.len() implies #[trigger] a@[p].0 != #[trigger] b@[q].0 by {
            assert(a@.contains(a@[p]));
            assert(b@.contains(b@[q]));
            let m = choose|m: int| lo <= m < mid && v@[m] == a@[p];
            let n = choose|n: int| mid <= n < hi && v@[n] == b@[q];
            if a@[p].0 == b@[q].0 {
                assert(v@[m].0 == v@[n].0);
            }
        }
    }
    let r = merge(side, &a, &b);
    proof {
        assert forall|x: (i64, i64)| r@.contains(x) <==> among(v@, lo as int, hi as int, x) by {
            if among(v@, lo as int, hi as int, x) {
                let k = choose|k: int| lo <= k < hi && v@[k] == x;
                if k < mid {
                    assert(among(v@, lo as int, mid as int, x));
                } else {
                    assert(among(v@, mid as int, hi as int, x));
                }
            }
        }
    }
    r
}

/// The levels of `v`, none of whose prices repeats, in the order of `side`.
pub fn sort_levels(side: Side, v: &Vec<(i64, i64)>) -> (r: Vec<(i64, i64)>)
    requires
        unique_keys(v@),
    ensures
        in_order(side, r@),
        forall|x: (i64, i64)| r@.contains(x) <==> v@.contains(x),
{
    let r = sort_range(side, v, 0, v.len());
    proof {
        assert forall|x: (i64, i64)| among(v@, 0, v@.len() as int, x) <==> v@.contains(x) by {
            if v@.contains(x) {
                let k = choose|k: int| 0 <= k < v@.len() && v@[k] == x;
                assert(among(v@, 0, v@.len() as int, x));
            }
        }
    }
    r
}

} // verus!
