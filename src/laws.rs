//! Properties that hold across calls of the book's updates.

use vstd::prelude::*;

use crate::book::{delta_result, snapshot_result, InvalidPriceError, L2Book};
use crate::model::{
    delta_map, has_key, has_key_at, in_order, lemma_in_order_determined, lemma_in_order_unique,
    lemma_levels_map_keys, lemma_levels_map_values, levels_map, snapshot_map, unique_keys,
    PriceInput, Side,
};

verus! {

/// The entries of one side of an update.
pub open spec fn side_entries(
    side: Side,
    bids: Seq<(PriceInput, i64)>,
    asks: Seq<(PriceInput, i64)>,
) -> Seq<(PriceInput, i64)> {
    match side {
        Side::Bid => bids,
        Side::Ask => asks,
    }
}

/// The entry removes a price level that `s` does not hold.
pub open spec fn removes_absent(e: (PriceInput, i64), s: Seq<(i64, i64)>) -> bool {
    e.1 <= 0 && match e.0 {
        PriceInput::Ticks(p) => !has_key(s, p),
        PriceInput::NotFinite => false,
    }
}

/// In a well-formed book, no price occurs twice on a side.
pub proof fn sides_have_unique_prices(b: L2Book)
    requires
        b.wf(),
    ensures
        unique_keys(b.bid_levels()),
        unique_keys(b.ask_levels()),
{
    lemma_in_order_unique(Side::Bid, b.bid_levels());
    lemma_in_order_unique(Side::Ask, b.ask_levels());
}

/// Applying the same snapshot a second time gives the same result and leaves
/// both sides as the first application left them.
pub proof fn snapshot_idempotent(
    b0: L2Book,
    b1: L2Book,
    b2: L2Book,
    bids: Seq<(PriceInput, i64)>,
    asks: Seq<(PriceInput, i64)>,
    r1: Result<(), InvalidPriceError>,
    r2: Result<(), InvalidPriceError>,
)
    requires
        snapshot_result(b0, bids, asks, b1, r1),
        snapshot_result(b1, bids, asks, b2, r2),
    ensures
        r2.is_ok() == r1.is_ok(),
        b2.bid_levels() == b1.bid_levels(),
        b2.ask_levels() == b1.ask_levels(),
{
    if r1.is_ok() {
        lemma_in_order_determined(Side::Bid, b1.bid_levels(), b2.bid_levels());
        lemma_in_order_determined(Side::Ask, b1.ask_levels(), b2.ask_levels());
    }
}

proof fn lemma_delta_absent(m: Map<i64, i64>, e: Seq<(PriceInput, i64)>, s: Seq<(i64, i64)>)
    requires
        m == levels_map(s),
        forall|i: int| 0 <= i < e.len() ==> removes_absent(#[trigger] e[i], s),
    ensures
        delta_map(m, e) == m,
    decreases e.len(),
{
    lemma_levels_map_keys(s);
    if e.len() > 0 {
        let t = e.drop_last();
        assert forall|i: int| 0 <= i < t.len() implies removes_absent(#[trigger] t[i], s) by {
            assert(t[i] == e[i]);
        }
        lemma_delta_absent(m, t, s);
        assert(removes_absent(e[e.len() - 1], s));
        match e.last().0 {
            PriceInput::Ticks(p) => {
                assert(!m.contains_key(p));
                assert(m.remove(p) =~= m);
            },
            PriceInput::NotFinite => {},
        }
    }
}

/// A delta whose entries for one side each remove a price that the side does
/// not hold leaves that side unchanged, whatever the other side's entries.
pub proof fn delta_absent_remove_is_no_op(
    pre: L2Book,
    post: L2Book,
    side: Side,
    bids: Seq<(PriceInput, i64)>,
    asks: Seq<(PriceInput, i64)>,
    r: Result<(), InvalidPriceError>,
)
    requires
        pre.wf(),
        delta_result(pre, bids, asks, post, r),
        forall|i: int|
            0 <= i < side_entries(side, bids, asks).len() ==> removes_absent(
                #[trigger] side_entries(side, bids, asks)[i],
                pre.levels(side),
            ),
    ensures
        post.levels(side) == pre.levels(side),
{
    if r.is_ok() {
        lemma_delta_absent(
            levels_map(pre.levels(side)),
            side_entries(side, bids, asks),
            pre.levels(side),
        );
        lemma_in_order_determined(side, pre.levels(side), post.levels(side));
    }
}

proof fn lemma_snapshot_last(e: Seq<(PriceInput, i64)>, j: int, p: i64)
    requires
        0 <= j < e.len(),
        e[j].0 == PriceInput::Ticks(p),
        e[j].1 > 0,
        forall|k: int| j < k < e.len() && #[trigger] e[k].0 == PriceInput::Ticks(p) ==> e[k].1 <= 0,
    ensures
        snapshot_map(e).contains_key(p),
        snapshot_map(e)[p] == e[j].1,
    decreases e.len(),
{
    if j < e.len() - 1 {
        let t = e.drop_last();
        assert forall|k: int| j < k < t.len() && #[trigger] t[k].0 == PriceInput::Ticks(p) implies t[k].1
            <= 0 by {
            assert(t[k] == e[k]);
        }
        lemma_snapshot_last(t, j, p);
        assert(e[e.len() - 1].0 == PriceInput::Ticks(p) ==> e[e.len() - 1].1 <= 0);
    }
}

/// Of the kept entries (size above zero) of one price in a snapshot side, the
/// last one sets the side's level at that price, and that is the only level
/// of that price.
pub proof fn snapshot_last_write_wins(
    pre: L2Book,
    post: L2Book,
    side: Side,
    bids: Seq<(PriceInput, i64)>,
    asks: Seq<(PriceInput, i64)>,
    j: int,
    p: i64,
)
    requires
        snapshot_result(pre, bids, asks, post, Ok(())),
        0 <= j < side_entries(side, bids, asks).len(),
        side_entries(side, bids, asks)[j] == (PriceInput::Ticks(p), side_entries(side, bids, asks)[j].1),
        side_entries(side, bids, asks)[j].1 > 0,
        forall|k: int|
            j < k < side_entries(side, bids, asks).len() && (#[trigger] side_entries(side, bids, asks)[k]).0
                == PriceInput::Ticks(p) ==> side_entries(side, bids, asks)[k].1 <= 0,
    ensures
        exists|i: int|
            has_key_at(post.levels(side), p, i) && post.levels(side)[i].1 == side_entries(
                side,
                bids,
                asks,
            )[j].1,
        forall|i1: int, i2: int|
            has_key_at(post.levels(side), p, i1) && has_key_at(post.levels(side), p, i2) ==> i1 == i2,
{
    let e = side_entries(side, bids, asks);
    let s = post.levels(side);
    assert forall|k: int| j < k < e.len() && #[trigger] e[k].0 == PriceInput::Ticks(p) implies e[k].1
        <= 0 by {
        assert(e[k] == side_entries(side, bids, asks)[k]);
    }
    lemma_snapshot_last(e, j, p);
    lemma_in_order_unique(side, s);
    lemma_levels_map_keys(s);
    lemma_levels_map_values(s);
    let i = choose|i: int| has_key_at(s, p, i);
    assert(levels_map(s)[s[i].0] == s[i].1);
}

/// A snapshot with any entry whose price is not finite, whatever its size, is
/// refused and leaves the book as it was.
pub proof fn snapshot_refuses_non_finite(
    pre: L2Book,
    post: L2Book,
    side: Side,
    bids: Seq<(PriceInput, i64)>,
    asks: Seq<(PriceInput, i64)>,
    r: Result<(), InvalidPriceError>,
    i: int,
)
    requires
        snapshot_result(pre, bids, asks, post, r),
        0 <= i < side_entries(side, bids, asks).len(),
        side_entries(side, bids, asks)[i].0 == PriceInput::NotFinite,
    ensures
        r.is_err(),
        post.bid_levels() == pre.bid_levels(),
        post.ask_levels() == pre.ask_levels(),
{
    assert(side_entries(side, bids, asks)[i].0 == PriceInput::NotFinite);
}

/// A delta with any entry whose price is not finite is refused and leaves the
/// book as it was.
pub proof fn delta_refuses_non_finite(
    pre: L2Book,
    post: L2Book,
    side: Side,
    bids: Seq<(PriceInput, i64)>,
    asks: Seq<(PriceInput, i64)>,
    r: Result<(), InvalidPriceError>,
    i: int,
)
    requires
        delta_result(pre, bids, asks, post, r),
        0 <= i < side_entries(side, bids, asks).len(),
        side_entries(side, bids, asks)[i].0 == PriceInput::NotFinite,
    ensures
        r.is_err(),
        post.bid_levels() == pre.bid_levels(),
        post.ask_levels() == pre.ask_levels(),
{
    assert(side_entries(side, bids, asks)[i].0 == PriceInput::NotFinite);
}

} // verus!
