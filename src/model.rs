//! The mathematical model of a book side: a sequence of `(price, size)`
//! levels, the map from price to size that it stands for, and the maps that
//! snapshots and deltas describe.

use vstd::prelude::*;

verus! {

/// One side of the book. Bids are kept best (highest) price first, asks best
/// (lowest) price first.
#[derive(Clone, Copy, Debug, PartialEq, Eq, Structural)]
pub enum Side {
    Bid,
    Ask,
}

/// The price of an update entry: a whole number of ticks, or a value that
/// named no finite price (NaN or an infinity) where the caller read it.
#[derive(Clone, Copy, Debug, PartialEq, Eq, Structural)]
pub enum PriceInput {
    Ticks(i64),
    NotFinite,
}

/// `k` is the price of the level at index `i` of `s`.
pub open spec fn has_key_at(s: Seq<(i64, i64)>, k: i64, i: int) -> bool {
    0 <= i < s.len() && s[i].0 == k
}

/// Some level of `s` has price `k`.
pub open spec fn has_key(s: Seq<(i64, i64)>, k: i64) -> bool {
    exists|i: int| has_key_at(s, k, i)
}

/// Price `a` comes before price `b` in the side's canonical order.
pub open spec fn precedes(side: Side, a: i64, b: i64) -> bool {
    match side {
        Side::Bid => a > b,
        Side::Ask => a < b,
    }
}

/// The levels are strictly in the side's order, so no price occurs twice.
pub open spec fn in_order(side: Side, s: Seq<(i64, i64)>) -> bool {
    forall|i: int, j: int| 0 <= i < j < s.len() ==> precedes(side, #[trigger] s[i].0, #[trigger] s[j].0)
}

/// Every level has a size above zero.
pub open spec fn all_positive(s: Seq<(i64, i64)>) -> bool {
    forall|i: int| 0 <= i < s.len() ==> #[trigger] s[i].1 > 0
}

/// No price occurs twice.
pub open spec fn unique_keys(s: Seq<(i64, i64)>) -> bool {
    forall|i: int, j: int|
        0 <= i < s.len() && 0 <= j < s.len() && #[trigger] s[i].0 == #[trigger] s[j].0 ==> i == j
}

/// The map from price to size that the levels stand for (a later level of the
/// same price overrides an earlier one).
pub open spec fn levels_map(s: Seq<(i64, i64)>) -> Map<i64, i64>
    decreases s.len(),
{
    if s.len() == 0 {
        Map::empty()
    } else {
        levels_map(s.drop_last()).insert(s.last().0, s.last().1)
    }
}

/// The side that a snapshot describes: entries of size zero or below are
/// dropped, and of two entries with one price the later one wins.
pub open spec fn snapshot_map(e: Seq<(PriceInput, i64)>) -> Map<i64, i64>
    decreases e.len(),
{
    if e.len() == 0 {
        Map::empty()
    } else {
        let m = snapshot_map(e.drop_last());
        match e.last().0 {
            PriceInput::Ticks(p) => if e.last().1 > 0 {
                m.insert(p, e.last().1)
            } else {
                m
            },
            PriceInput::NotFinite => m,
        }
    }
}

/// The side `m` after the delta entries `e`, in order: a size above zero sets
/// the level, any other size removes it.
pub open spec fn delta_map(m: Map<i64, i64>, e: Seq<(PriceInput, i64)>) -> Map<i64, i64>
    decreases e.len(),
{
    if e.len() == 0 {
        m
    } else {
        let m0 = delta_map(m, e.drop_last());
        match e.last().0 {
            PriceInput::Ticks(p) => if e.last().1 > 0 {
                m0.insert(p, e.last().1)
            } else {
                m0.remove(p)
            },
            PriceInput::NotFinite => m0,
        }
    }
}

/// A snapshot side is refused when any entry has no finite price, whatever
/// its size.
pub open spec fn snapshot_rejects(e: Seq<(PriceInput, i64)>) -> bool {
    exists|i: int| 0 <= i < e.len() && #[trigger] e[i].0 == PriceInput::NotFinite
}

/// A delta side is refused when any entry has no finite price.
pub open spec fn delta_rejects(e: Seq<(PriceInput, i64)>) -> bool {
    exists|i: int| 0 <= i < e.len() && #[trigger] e[i].0 == PriceInput::NotFinite
}

/// The sum of the sizes of the levels.
pub open spec fn total_size(s: Seq<(i64, i64)>) -> int
    decreases s.len(),
{
    if s.len() == 0 {
        0
    } else {
        total_size(s.drop_last()) + s.last().1
    }
}

/// The first `n` levels, or all of them where there are fewer.
pub open spec fn top_of(s: Seq<(i64, i64)>, n: int) -> Seq<(i64, i64)> {
    s.take(if n < s.len() { n } else { s.len() as int })
}

/// The sum of the sizes of the first `depth` levels, or of all of them where
/// there are fewer.
pub open spec fn volume(s: Seq<(i64, i64)>, depth: int) -> int {
    total_size(top_of(s, depth))
}

/// The first level, if there is one.
pub open spec fn first_level(s: Seq<(i64, i64)>) -> Option<(i64, i64)> {
    if s.len() > 0 {
        Some(s[0])
    } else {
        None
    }
}

/// The mid price as a quotient `(numerator, denominator)`: defined where both
/// sides have a best level and both best prices are above zero.
pub open spec fn mid_of(b: Seq<(i64, i64)>, a: Seq<(i64, i64)>) -> Option<(int, int)> {
    if b.len() > 0 && a.len() > 0 && b[0].0 > 0 && a[0].0 > 0 {
        Some((b[0].0 + a[0].0, 2))
    } else {
        None
    }
}

/// The microprice as a quotient: each best price weighted by the opposite
/// best size; the mid where the two sizes add up to zero.
pub open spec fn microprice_of(b: Seq<(i64, i64)>, a: Seq<(i64, i64)>) -> Option<(int, int)> {
    if b.len() > 0 && a.len() > 0 && b[0].1 + a[0].1 > 0 {
        Some((b[0].0 * a[0].1 + a[0].0 * b[0].1, b[0].1 + a[0].1))
    } else {
        mid_of(b, a)
    }
}

/// The order-flow imbalance over `depth` levels as a quotient: the bid volume
/// less the ask volume over their sum, or zero where the sum is zero.
pub open spec fn imbalance_of(b: Seq<(i64, i64)>, a: Seq<(i64, i64)>, depth: int) -> (int, int) {
    let bv = volume(b, depth);
    let av = volume(a, depth);
    if bv + av == 0 {
        (0, 1)
    } else {
        (bv - av, bv + av)
    }
}

/// The prices of the map are those of the levels.
pub proof fn lemma_levels_map_keys(s: Seq<(i64, i64)>)
    ensures
        forall|i: int| 0 <= i < s.len() ==> levels_map(s).contains_key(#[trigger] s[i].0),
        forall|k: i64| #[trigger] levels_map(s).contains_key(k) ==> has_key(s, k),
    decreases s.len(),
{
    if s.len() > 0 {
        let t = s.drop_last();
        lemma_levels_map_keys(t);
        assert forall|i: int| 0 <= i < s.len() implies levels_map(s).contains_key(#[trigger] s[i].0) by {
            if i < t.len() {
                assert(t[i] == s[i]);
            }
        }
        assert forall|k: i64| #[trigger] levels_map(s).contains_key(k) implies has_key(s, k) by {
            if k == s.last().0 {
                assert(has_key_at(s, k, s.len() - 1));
            } else {
                assert(levels_map(t).contains_key(k));
                let i = choose|i: int| has_key_at(t, k, i);
                assert(has_key_at(s, k, i));
            }
        }
    }
}

/// Where no price occurs twice, each level's size is the map's value at its
/// price.
pub proof fn lemma_levels_map_values(s: Seq<(i64, i64)>)
    requires
        unique_keys(s),
    ensures
        forall|i: int| 0 <= i < s.len() ==> levels_map(s)[#[trigger] s[i].0] == s[i].1,
    decreases s.len(),
{
    if s.len() > 0 {
        let t = s.drop_last();
        assert(unique_keys(t)) by {
            assert forall|i: int, j: int|
                0 <= i < t.len() && 0 <= j < t.len() && #[trigger] t[i].0 == #[trigger] t[j].0 implies i
                == j by {
                assert(s[i].0 == s[j].0);
            }
        }
        lemma_levels_map_values(t);
        assert forall|i: int| 0 <= i < s.len() implies levels_map(s)[#[trigger] s[i].0] == s[i].1 by {
            if i < t.len() {
                assert(t[i] == s[i]);
                assert(s[i].0 != s[s.len() - 1].0);
            }
        }
    }
}

/// A sequence without repeated prices stands for `m` when its prices are the
/// keys of `m` and its sizes the values.
pub proof fn lemma_map_of_unique(s: Seq<(i64, i64)>, m: Map<i64, i64>)
    requires
        unique_keys(s),
        forall|k: i64| #[trigger] m.contains_key(k) ==> has_key(s, k),
        forall|i: int| 0 <= i < s.len() ==> m.contains_key(#[trigger] s[i].0) && m[s[i].0] == s[i].1,
    ensures
        levels_map(s) == m,
{
    lemma_levels_map_keys(s);
    lemma_levels_map_values(s);
    assert forall|k: i64| #[trigger] levels_map(s).contains_key(k) <==> m.contains_key(k) by {
        if levels_map(s).contains_key(k) {
            let i = choose|i: int| has_key_at(s, k, i);
            assert(m.contains_key(s[i].0));
        }
        if m.contains_key(k) {
            let i = choose|i: int| has_key_at(s, k, i);
            assert(levels_map(s).contains_key(s[i].0));
        }
    }
    assert forall|k: i64| #[trigger] levels_map(s).contains_key(k) implies levels_map(s)[k] == m[k] by {
        let i = choose|i: int| has_key_at(s, k, i);
        assert(levels_map(s)[s[i].0] == s[i].1);
        assert(m[s[i].0] == s[i].1);
    }
    assert(levels_map(s) =~= m);
}

/// A strictly ordered side repeats no price.
pub proof fn lemma_in_order_unique(side: Side, s: Seq<(i64, i64)>)
    requires
        in_order(side, s),
    ensures
        unique_keys(s),
{
    assert forall|i: int, j: int|
        0 <= i < s.len() && 0 <= j < s.len() && #[trigger] s[i].0 == #[trigger] s[j].0 implies i == j by {
        if i < j {
            assert(precedes(side, s[i].0, s[j].0));
        } else if j < i {
            assert(precedes(side, s[j].0, s[i].0));
        }
    }
}

/// Dropping the first level of a sequence without repeated prices removes
/// its price from the map.
pub proof fn lemma_map_drop_first(s: Seq<(i64, i64)>)
    requires
        unique_keys(s),
        s.len() > 0,
    ensures
        unique_keys(s.subrange(1, s.len() as int)),
        levels_map(s.subrange(1, s.len() as int)) == levels_map(s).remove(s[0].0),
{
    let t = s.subrange(1, s.len() as int);
    let m = levels_map(s).remove(s[0].0);
    lemma_levels_map_keys(s);
    lemma_levels_map_values(s);
    assert forall|i: int, j: int|
        0 <= i < t.len() && 0 <= j < t.len() && #[trigger] t[i].0 == #[trigger] t[j].0 implies i == j by {
        assert(s[i + 1].0 == s[j + 1].0);
    }
    assert forall|k: i64| #[trigger] m.contains_key(k) implies has_key(t, k) by {
        assert(levels_map(s).contains_key(k));
        let i = choose|i: int| has_key_at(s, k, i);
        assert(i != 0);
        assert(has_key_at(t, k, i - 1));
    }
    assert forall|i: int| 0 <= i < t.len() implies m.contains_key(#[trigger] t[i].0) && m[t[i].0]
        == t[i].1 by {
        assert(t[i] == s[i + 1]);
        assert(s[i + 1].0 != s[0].0);
        assert(levels_map(s).contains_key(s[i + 1].0));
        assert(levels_map(s)[s[i + 1].0] == s[i + 1].1);
    }
    lemma_map_of_unique(t, m);
}

/// A side in canonical order is determined by its map from price to size.
pub proof fn lemma_in_order_determined(side: Side, s1: Seq<(i64, i64)>, s2: Seq<(i64, i64)>)
    requires
        in_order(side, s1),
        in_order(side, s2),
        levels_map(s1) == levels_map(s2),
    ensures
        s1 == s2,
    decreases s1.len(),
{
    lemma_in_order_unique(side, s1);
    lemma_in_order_unique(side, s2);
    lemma_levels_map_keys(s1);
    lemma_levels_map_keys(s2);
    lemma_levels_map_values(s1);
    lemma_levels_map_values(s2);
    if s1.len() == 0 {
        if s2.len() > 0 {
            assert(levels_map(s2).contains_key(s2[0].0));
        }
        assert(s1 =~= s2);
    } else {
        assert(levels_map(s1).contains_key(s1[0].0));
        let j = choose|j: int| has_key_at(s2, s1[0].0, j);
        assert(levels_map(s2).contains_key(s2[0].0));
        let i = choose|i: int| has_key_at(s1, s2[0].0, i);
        if j > 0 {
            assert(precedes(side, s2[0].0, s2[j].0));
            if i > 0 {
                assert(precedes(side, s1[0].0, s1[i].0));
            }
        }
        assert(s1[0] == s2[0]) by {
            assert(levels_map(s1)[s1[0].0] == s1[0].1);
            assert(levels_map(s2)[s2[0].0] == s2[0].1);
        }
        let t1 = s1.subrange(1, s1.len() as int);
        let t2 = s2.subrange(1, s2.len() as int);
        lemma_map_drop_first(s1);
        lemma_map_drop_first(s2);
        lemma_in_order_determined(side, t1, t2);
        assert(s1 =~= seq![s1[0]] + t1);
        assert(s2 =~= seq![s2[0]] + t2);
    }
}

/// Overwriting the size at index `i` sets that price in the map.
pub proof fn lemma_map_update(s: Seq<(i64, i64)>, i: int, v: i64)
    requires
        unique_keys(s),
        0 <= i < s.len(),
    ensures
        unique_keys(s.update(i, (s[i].0, v))),
        levels_map(s.update(i, (s[i].0, v))) == levels_map(s).insert(s[i].0, v),
{
    let t = s.update(i, (s[i].0, v));
    let m = levels_map(s).insert(s[i].0, v);
    lemma_levels_map_keys(s);
    lemma_levels_map_values(s);
    assert forall|a: int, b: int|
        0 <= a < t.len() && 0 <= b < t.len() && #[trigger] t[a].0 == #[trigger] t[b].0 implies a == b by {
        assert(s[a].0 == s[b].0);
    }
    assert forall|k: i64| #[trigger] m.contains_key(k) implies has_key(t, k) by {
        if k == s[i].0 {
            assert(has_key_at(t, k, i));
        } else {
            assert(levels_map(s).contains_key(k));
            let j = choose|j: int| has_key_at(s, k, j);
            assert(has_key_at(t, k, j));
        }
    }
    assert forall|j: int| 0 <= j < t.len() implies m.contains_key(#[trigger] t[j].0) && m[t[j].0]
        == t[j].1 by {
        if j != i {
            assert(t[j] == s[j]);
            assert(s[j].0 != s[i].0);
            assert(levels_map(s).contains_key(s[j].0));
        }
    }
    lemma_map_of_unique(t, m);
}

/// Appending a level of a new price keeps prices unique.
pub proof fn lemma_map_push(s: Seq<(i64, i64)>, k: i64, v: i64)
    requires
        unique_keys(s),
        !has_key(s, k),
    ensures
        unique_keys(s.push((k, v))),
        levels_map(s.push((k, v))) == levels_map(s).insert(k, v),
{
    let t = s.push((k, v));
    assert forall|a: int, b: int|
        0 <= a < t.len() && 0 <= b < t.len() && #[trigger] t[a].0 == #[trigger] t[b].0 implies a == b by {
        if a < s.len() && b < s.len() {
            assert(s[a].0 == s[b].0);
        } else if a < s.len() {
            assert(has_key_at(s, k, a));
        } else if b < s.len() {
            assert(has_key_at(s, k, b));
        }
    }
    assert(t.drop_last() =~= s);
}

/// Removing the level at index `i` by moving the last level into its place
/// removes that price from the map.
pub proof fn lemma_map_swap_remove(s: Seq<(i64, i64)>, i: int)
    requires
        unique_keys(s),
        0 <= i < s.len(),
    ensures
        unique_keys(s.update(i, s.last()).drop_last()),
        levels_map(s.update(i, s.last()).drop_last()) == levels_map(s).remove(s[i].0),
        all_positive(s) ==> all_positive(s.update(i, s.last()).drop_last()),
{
    let t = s.update(i, s.last()).drop_last();
    let m = levels_map(s).remove(s[i].0);
    let n = s.len() - 1;
    lemma_levels_map_keys(s);
    lemma_levels_map_values(s);
    assert forall|j: int| 0 <= j < t.len() implies #[trigger] t[j] == (if j == i {
        s[n]
    } else {
        s[j]
    }) by {}
    assert forall|a: int, b: int|
        0 <= a < t.len() && 0 <= b < t.len() && #[trigger] t[a].0 == #[trigger] t[b].0 implies a == b by {
        let a1 = if a == i { n } else { a };
        let b1 = if b == i { n } else { b };
        assert(s[a1].0 == s[b1].0);
    }
    assert forall|k: i64| #[trigger] m.contains_key(k) implies has_key(t, k) by {
        assert(levels_map(s).contains_key(k));
        let j = choose|j: int| has_key_at(s, k, j);
        assert(j != i);
        if j == n {
            assert(has_key_at(t, k, i));
        } else {
            assert(has_key_at(t, k, j));
        }
    }
    assert forall|j: int| 0 <= j < t.len() implies m.contains_key(#[trigger] t[j].0) && m[t[j].0]
        == t[j].1 by {
        let j1 = if j == i { n } else { j };
        assert(t[j] == s[j1]);
        assert(s[j1].0 != s[i].0);
        assert(levels_map(s).contains_key(s[j1].0));
    }
    lemma_map_of_unique(t, m);
}

/// Removing a price that no level has leaves the map as it is.
pub proof fn lemma_map_remove_absent(s: Seq<(i64, i64)>, k: i64)
    requires
        !has_key(s, k),
    ensures
        levels_map(s).remove(k) == levels_map(s),
{
    lemma_levels_map_keys(s);
    assert(levels_map(s).remove(k) =~= levels_map(s));
}

/// Two sequences without repeated prices that hold the same levels stand for
/// the same map.
pub proof fn lemma_map_same_levels(s1: Seq<(i64, i64)>, s2: Seq<(i64, i64)>)
    requires
        unique_keys(s1),
        unique_keys(s2),
        forall|x: (i64, i64)| s1.contains(x) <==> s2.contains(x),
    ensures
        levels_map(s1) == levels_map(s2),
        all_positive(s1) ==> all_positive(s2),
{
    let m = levels_map(s1);
    lemma_levels_map_keys(s1);
    lemma_levels_map_values(s1);
    assert forall|k: i64| #[trigger] m.contains_key(k) implies has_key(s2, k) by {
        let i = choose|i: int| has_key_at(s1, k, i);
        assert(s1.contains(s1[i]));
        let j = choose|j: int| 0 <= j < s2.len() && s2[j] == s1[i];
        assert(has_key_at(s2, k, j));
    }
    assert forall|j: int| 0 <= j < s2.len() implies m.contains_key(#[trigger] s2[j].0) && m[s2[j].0]
        == s2[j].1 by {
        assert(s2.contains(s2[j]));
        let i = choose|i: int| 0 <= i < s1.len() && s1[i] == s2[j];
        assert(m.contains_key(s1[i].0));
    }
    lemma_map_of_unique(s2, m);
    if all_positive(s1) {
        assert forall|j: int| 0 <= j < s2.len() implies #[trigger] s2[j].1 > 0 by {
            assert(s2.contains(s2[j]));
            let i = choose|i: int| 0 <= i < s1.len() && s1[i] == s2[j];
            assert(s1[i].1 > 0);
        }
    }
}

} // verus!
