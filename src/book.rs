//! The book: two price-level stores, the snapshot and delta updates that keep
//! them in canonical order, and the metrics read from them.

use indexmap::IndexMap;
use vstd::prelude::*;

use crate::model::{
    all_positive, delta_map, delta_rejects, first_level, has_key, has_key_at, imbalance_of,
    in_order, lemma_in_order_unique, lemma_map_push, lemma_map_remove_absent, lemma_map_same_levels,
    lemma_map_swap_remove, lemma_map_update, levels_map, microprice_of, mid_of, snapshot_map,
    snapshot_rejects, top_of, total_size, unique_keys, volume, PriceInput, Side,
};
use crate::sort::sort_levels;
use crate::store::{
    entries, store_clear, store_clone, store_get_index, store_insert, store_len, store_new, store_swap_remove,
};

verus! {

/// An update held a price that is NaN or infinite; the book was left as it was.
#[derive(Clone, Copy, Debug, PartialEq, Eq, Structural)]
pub struct InvalidPriceError;

/// The exact quotient `num / den`.
#[derive(Clone, Copy, Debug, PartialEq, Eq, Structural)]
pub struct Ratio {
    pub num: i128,
    pub den: u128,
}

impl Ratio {
    pub open spec fn is(self, q: (int, int)) -> bool {
        self.num as int == q.0 && self.den as int == q.1
    }
}

/// `r` holds the quotient `q`, or nothing where `q` is absent.
pub open spec fn holds_quotient(r: Option<Ratio>, q: Option<(int, int)>) -> bool {
    match q {
        Some(v) => r.is_some() && r.unwrap().is(v),
        None => r.is_none(),
    }
}

/// An L2 order book: per side, one aggregate size per price.
pub struct L2Book {
    bids: IndexMap<i64, i64>,
    asks: IndexMap<i64, i64>,
}

/// What `apply_snapshot(bids, asks)` does to `pre`, giving `post` and `r`.
pub open spec fn snapshot_result(
    pre: L2Book,
    bids: Seq<(PriceInput, i64)>,
    asks: Seq<(PriceInput, i64)>,
    post: L2Book,
    r: Result<(), InvalidPriceError>,
) -> bool {
    &&& post.wf()
    &&& r.is_err() <==> snapshot_rejects(bids) || snapshot_rejects(asks)
    &&& r.is_err() ==> post.bid_levels() == pre.bid_levels() && post.ask_levels()
        == pre.ask_levels()
    &&& r.is_ok() ==> levels_map(post.bid_levels()) == snapshot_map(bids) && levels_map(
        post.ask_levels(),
    ) == snapshot_map(asks)
}

/// What `apply_delta(bids, asks)` does to `pre`, giving `post` and `r`.
pub open spec fn delta_result(
    pre: L2Book,
    bids: Seq<(PriceInput, i64)>,
    asks: Seq<(PriceInput, i64)>,
    post: L2Book,
    r: Result<(), InvalidPriceError>,
) -> bool {
    &&& post.wf()
    &&& r.is_err() <==> delta_rejects(bids) || delta_rejects(asks)
    &&& r.is_err() ==> post.bid_levels() == pre.bid_levels() && post.ask_levels()
        == pre.ask_levels()
    &&& r.is_ok() ==> levels_map(post.bid_levels()) == delta_map(levels_map(pre.bid_levels()), bids)
        && levels_map(post.ask_levels()) == delta_map(levels_map(pre.ask_levels()), asks)
}

/// The first `n` entries of the store, in its order.
fn store_top(m: &IndexMap<i64, i64>, n: usize) -> (r: Vec<(i64, i64)>)
    ensures
        r@ == top_of(entries(*m), n as int),
{
    let len = store_len(m);
    let end = if n < len { n } else { len };
    let mut out: Vec<(i64, i64)> = Vec::new();
    let mut i: usize = 0;
    while i < end
        invariant
            i <= end,
            end <= entries(*m).len(),
            end as int == (if (n as int) < entries(*m).len() { n as int } else { entries(*m).len() as int }),
            out@ == entries(*m).take(i as int),
        decreases end - i,
    {
        let e = store_get_index(m, i);
        match e {
            Some(level) => {
                out.push(level);
            },
            None => {},
        }
        assert(out@ =~= entries(*m).take(i as int + 1));
        i = i + 1;
    }
    out
}

/// Rebuilds the store in the order of `side`, keeping its levels.
fn reorder_store(m: &mut IndexMap<i64, i64>, side: Side)
    requires
        unique_keys(entries(*old(m))),
    ensures
        in_order(side, entries(*final(m))),
        levels_map(entries(*final(m))) == levels_map(entries(*old(m))),
        all_positive(entries(*old(m))) ==> all_positive(entries(*final(m))),
{
    let len = store_len(m);
    let current = store_top(m, len);
    assert(current@ =~= entries(*m));
    let sorted = sort_levels(side, &current);
    proof {
        lemma_in_order_unique(side, sorted@);
        lemma_map_same_levels(current@, sorted@);
    }
    store_clear(m);
    let mut i: usize = 0;
    while i < sorted.len()
        invariant
            i <= sorted.len(),
            in_order(side, sorted@),
            unique_keys(sorted@),
            entries(*m) == sorted@.take(i as int),
        decreases sorted.len() - i,
    {
        let (p, s) = sorted[i];
        proof {
            if has_key(entries(*m), p) {
                let j = choose|j: int| has_key_at(entries(*m), p, j);
                assert(sorted@[j].0 == sorted@[i as int].0);
            }
        }
        store_insert(m, p, s);
        assert(entries(*m) =~= sorted@.take(i as int + 1));
        i = i + 1;
    }
    assert(sorted@.take(sorted@.len() as int) =~= sorted@);
}

/// Sets the level of price `p` to size `s` in a store whose prices are unique.
fn upsert(m: &mut IndexMap<i64, i64>, p: i64, s: i64)
    requires
        unique_keys(entries(*old(m))),
        all_positive(entries(*old(m))),
        s > 0,
    ensures
        unique_keys(entries(*final(m))),
        all_positive(entries(*final(m))),
        levels_map(entries(*final(m))) == levels_map(entries(*old(m))).insert(p, s),
{
    let ghost pre = entries(*m);
    proof {
        if has_key(pre, p) {
            let j = choose|j: int| has_key_at(pre, p, j);
            lemma_map_update(pre, j, s);
        } else {
            lemma_map_push(pre, p, s);
        }
    }
    store_insert(m, p, s);
}

/// Removes the level of price `p`, if there is one, from a store whose prices
/// are unique.
fn remove(m: &mut IndexMap<i64, i64>, p: i64)
    requires
        unique_keys(entries(*old(m))),
        all_positive(entries(*old(m))),
    ensures
        unique_keys(entries(*final(m))),
        all_positive(entries(*final(m))),
        levels_map(entries(*final(m))) == levels_map(entries(*old(m))).remove(p),
{
    let ghost pre = entries(*m);
    proof {
        if has_key(pre, p) {
            let j = choose|j: int| has_key_at(pre, p, j);
            lemma_map_swap_remove(pre, j);
        } else {
            lemma_map_remove_absent(pre, p);
        }
    }
    store_swap_remove(m, p);
}

/// Fills an empty store with the levels that the snapshot side `e` describes.
fn load_snapshot(m: &mut IndexMap<i64, i64>, e: &Vec<(PriceInput, i64)>)
    requires
        entries(*old(m)).len() == 0,
    ensures
        unique_keys(entries(*final(m))),
        all_positive(entries(*final(m))),
        levels_map(entries(*final(m))) == snapshot_map(e@),
{
    assert(levels_map(entries(*m)) =~= snapshot_map(e@.take(0)));
    let mut i: usize = 0;
    while i < e.len()
        invariant
            i <= e.len(),
            unique_keys(entries(*m)),
            all_positive(entries(*m)),
            levels_map(entries(*m)) == snapshot_map(e@.take(i as int)),
        decreases e.len() - i,
    {
        let (price, size) = e[i];
        assert(e@.take(i as int + 1).drop_last() =~= e@.take(i as int));
        match price {
            PriceInput::Ticks(p) => {
                if size > 0 {
                    upsert(m, p, size);
                }
            },
            PriceInput::NotFinite => {},
        }
        i = i + 1;
    }
    assert(e@.take(e@.len() as int) =~= e@);
}

/// Applies the delta side `e` to a store, entry by entry.
fn merge_delta(m: &mut IndexMap<i64, i64>, e: &Vec<(PriceInput, i64)>)
    requires
        unique_keys(entries(*old(m))),
        all_positive(entries(*old(m))),
    ensures
        unique_keys(entries(*final(m))),
        all_positive(entries(*final(m))),
        levels_map(entries(*final(m))) == delta_map(levels_map(entries(*old(m))), e@),
{
    let ghost start = levels_map(entries(*m));
    assert(e@.take(0) =~= Seq::<(PriceInput, i64)>::empty());
    let mut i: usize = 0;
    while i < e.len()
        invariant
            i <= e.len(),
            unique_keys(entries(*m)),
            all_positive(entries(*m)),
            levels_map(entries(*m)) == delta_map(start, e@.take(i as int)),
        decreases e.len() - i,
    {
        let (price, size) = e[i];
        assert(e@.take(i as int + 1).drop_last() =~= e@.take(i as int));
        match price {
            PriceInput::Ticks(p) => {
                if size > 0 {
                    upsert(m, p, size);
                } else {
                    remove(m, p);
                }
            },
            PriceInput::NotFinite => {},
        }
        i = i + 1;
    }
    assert(e@.take(e@.len() as int) =~= e@);
}

/// Every entry of the snapshot side `e` has a finite price.
fn snapshot_side_valid(e: &Vec<(PriceInput, i64)>) -> (r: bool)
    ensures
        r == !snapshot_rejects(e@),
{
    let mut i: usize = 0;
    while i < e.len()
        invariant
            i <= e.len(),
            forall|j: int| 0 <= j < i ==> #[trigger] e@[j].0 != PriceInput::NotFinite,
        decreases e.len() - i,
    {
        let (price, _size) = e[i];
        if price == PriceInput::NotFinite {
            assert(e@[i as int].0 == PriceInput::NotFinite);
            return false;
        }
        i = i + 1;
    }
    true
}

/// Every entry of the delta side `e` has a finite price.
fn delta_side_valid(e: &Vec<(PriceInput, i64)>) -> (r: bool)
    ensures
        r == !delta_rejects(e@),
{
    let mut i: usize = 0;
    while i < e.len()
        invariant
            i <= e.len(),
            forall|j: int| 0 <= j < i ==> #[trigger] e@[j].0 != PriceInput::NotFinite,
        decreases e.len() - i,
    {
        let (price, _size) = e[i];
        if price == PriceInput::NotFinite {
            assert(e@[i as int].0 == PriceInput::NotFinite);
            return false;
        }
        i = i + 1;
    }
    true
}

/// The sum of the sizes of the first `depth` entries of a store whose sizes
/// are all above zero.
fn store_volume(m: &IndexMap<i64, i64>, depth: usize) -> (r: i128)
    requires
        all_positive(entries(*m)),
    ensures
        r as int == volume(entries(*m), depth as int),
        0 <= r <= entries(*m).len() * 0x7fff_ffff_ffff_ffff,
{
    let top = store_top(m, depth);
    let ghost s = entries(*m);
    let mut acc: i128 = 0;
    let mut i: usize = 0;
    while i < top.len()
        invariant
            i <= top.len(),
            top.len() <= s.len(),
            top@ == top_of(s, depth as int),
            all_positive(s),
            acc as int == total_size(top@.take(i as int)),
            0 <= acc <= i * 0x7fff_ffff_ffff_ffff,
        decreases top.len() - i,
    {
        let (_p, size) = top[i];
        assert(top@[i as int] == s[i as int]);
        assert(top@.take(i as int + 1).drop_last() =~= top@.take(i as int));
        acc = acc + size as i128;
        i = i + 1;
    }
    assert(top@.take(top@.len() as int) =~= top@);
    acc
}

impl L2Book {
    /// The bid levels, in the store's order.
    pub closed spec fn bid_levels(&self) -> Seq<(i64, i64)> {
        entries(self.bids)
    }

    /// The ask levels, in the store's order.
    pub closed spec fn ask_levels(&self) -> Seq<(i64, i64)> {
        entries(self.asks)
    }

    pub open spec fn levels(&self, side: Side) -> Seq<(i64, i64)> {
        match side {
            Side::Bid => self.bid_levels(),
            Side::Ask => self.ask_levels(),
        }
    }

    /// Both sides are strictly in canonical order (so no price repeats on a
    /// side) and every stored size is above zero.
    pub open spec fn wf(&self) -> bool {
        &&& in_order(Side::Bid, self.bid_levels())
        &&& in_order(Side::Ask, self.ask_levels())
        &&& all_positive(self.bid_levels())
        &&& all_positive(self.ask_levels())
    }

    /// An empty book.
    pub fn new() -> (r: Self)
        ensures
            r.wf(),
            r.bid_levels().len() == 0,
            r.ask_levels().len() == 0,
    {
        L2Book { bids: store_new(), asks: store_new() }
    }

    /// Empties both sides.
    pub fn clear(&mut self)
        ensures
            final(self).wf(),
            final(self).bid_levels().len() == 0,
            final(self).ask_levels().len() == 0,
    {
        store_clear(&mut self.bids);
        store_clear(&mut self.asks);
    }

    /// Replaces both sides by the levels that `bids` and `asks` describe:
    /// entries of size zero or below are dropped, the last entry of a price
    /// wins, and each side is put in canonical order. Where any entry has no
    /// finite price, whatever its size, the whole update is refused.
    pub fn apply_snapshot(
        &mut self,
        bids: Vec<(PriceInput, i64)>,
        asks: Vec<(PriceInput, i64)>,
    ) -> (r: Result<(), InvalidPriceError>)
        requires
            old(self).wf(),
        ensures
            snapshot_result(*old(self), bids@, asks@, *final(self), r),
    {
        if !snapshot_side_valid(&bids) || !snapshot_side_valid(&asks) {
            return Err(InvalidPriceError);
        }
        self.clear();
        load_snapshot(&mut self.bids, &bids);
        load_snapshot(&mut self.asks, &asks);
        reorder_store(&mut self.bids, Side::Bid);
        reorder_store(&mut self.asks, Side::Ask);
        Ok(())
    }

    /// Merges `bids` and `asks` into the book entry by entry (a size above
    /// zero sets the level, any other removes it) and restores canonical
    /// order. Where any entry has no finite price, the whole update is
    /// refused.
    pub fn apply_delta(
        &mut self,
        bids: Vec<(PriceInput, i64)>,
        asks: Vec<(PriceInput, i64)>,
    ) -> (r: Result<(), InvalidPriceError>)
        requires
            old(self).wf(),
        ensures
            delta_result(*old(self), bids@, asks@, *final(self), r),
    {
        if !delta_side_valid(&bids) || !delta_side_valid(&asks) {
            return Err(InvalidPriceError);
        }
        proof {
            lemma_in_order_unique(Side::Bid, self.bid_levels());
            lemma_in_order_unique(Side::Ask, self.ask_levels());
        }
        merge_delta(&mut self.bids, &bids);
        merge_delta(&mut self.asks, &asks);
        reorder_store(&mut self.bids, Side::Bid);
        reorder_store(&mut self.asks, Side::Ask);
        Ok(())
    }

    /// The best (highest) bid level, if there is one.
    pub fn best_bid(&self) -> (r: Option<(i64, i64)>)
        ensures
            r == first_level(self.bid_levels()),
    {
        store_get_index(&self.bids, 0)
    }

    /// The best (lowest) ask level, if there is one.
    pub fn best_ask(&self) -> (r: Option<(i64, i64)>)
        ensures
            r == first_level(self.ask_levels()),
    {
        store_get_index(&self.asks, 0)
    }

    /// The first `n` levels of `side` in canonical order, or all of them
    /// where the side holds fewer.
    pub fn top(&self, side: Side, n: usize) -> (r: Vec<(i64, i64)>)
        ensures
            r@ == top_of(self.levels(side), n as int),
    {
        match side {
            Side::Bid => store_top(&self.bids, n),
            Side::Ask => store_top(&self.asks, n),
        }
    }

    /// Half the sum of the best bid and ask prices, where both sides have a
    /// level and both best prices are above zero.
    pub fn mid(&self) -> (r: Option<Ratio>)
        ensures
            holds_quotient(r, mid_of(self.bid_levels(), self.ask_levels())),
    {
        match (self.best_bid(), self.best_ask()) {
            (Some((bp, _)), Some((ap, _))) => {
                if bp > 0 && ap > 0 {
                    Some(Ratio { num: bp as i128 + ap as i128, den: 2 })
                } else {
                    None
                }
            },
            _ => None,
        }
    }

    /// Each best price weighted by the opposite best size; the mid where the
    /// two sizes add up to zero or a side is empty.
    pub fn microprice(&self) -> (r: Option<Ratio>)
        requires
            self.wf(),
        ensures
            holds_quotient(r, microprice_of(self.bid_levels(), self.ask_levels())),
    {
        match (self.best_bid(), self.best_ask()) {
            (Some((bp, bs)), Some((ap, asz))) => {
                let total: i128 = bs as i128 + asz as i128;
                if total > 0 {
                    assert(self.bid_levels()[0].1 > 0 && self.ask_levels()[0].1 > 0);
                    let b = bp as i128;
                    let a = ap as i128;
                    let x = asz as i128;
                    let y = bs as i128;
                    assert(-0x4000_0000_0000_0000_0000_0000_0000_0000 < b * x
                        < 0x4000_0000_0000_0000_0000_0000_0000_0000) by (nonlinear_arith)
                        requires
                            -0x8000_0000_0000_0000 <= b <= 0x7fff_ffff_ffff_ffff,
                            0 < x <= 0x7fff_ffff_ffff_ffff,
                    ;
                    assert(-0x4000_0000_0000_0000_0000_0000_0000_0000 < a * y
                        < 0x4000_0000_0000_0000_0000_0000_0000_0000) by (nonlinear_arith)
                        requires
                            -0x8000_0000_0000_0000 <= a <= 0x7fff_ffff_ffff_ffff,
                            0 < y <= 0x7fff_ffff_ffff_ffff,
                    ;
                    return Some(Ratio { num: b * x + a * y, den: total as u128 });
                }
            },
            _ => {},
        }
        self.mid()
    }

    /// The bid volume less the ask volume over their sum, both taken over
    /// the first `depth` levels of each side; exactly zero where the sum is
    /// zero.
    pub fn imbalance(&self, depth: usize) -> (r: Ratio)
        requires
            self.wf(),
        ensures
            r.is(imbalance_of(self.bid_levels(), self.ask_levels(), depth as int)),
    {
        let bid_vol = store_volume(&self.bids, depth);
        let ask_vol = store_volume(&self.asks, depth);
        let tot: u128 = bid_vol as u128 + ask_vol as u128;
        if tot == 0 {
            Ratio { num: 0, den: 1 }
        } else {
            Ratio { num: bid_vol - ask_vol, den: tot }
        }
    }
}

impl Clone for L2Book {
    fn clone(&self) -> (r: Self)
        ensures
            r.bid_levels() == self.bid_levels(),
            r.ask_levels() == self.ask_levels(),
    {
        L2Book { bids: store_clone(&self.bids), asks: store_clone(&self.asks) }
    }
}

impl Default for L2Book {
    fn default() -> (r: Self)
        ensures
            r.wf(),
            r.bid_levels().len() == 0,
            r.ask_levels().len() == 0,
    {
        L2Book::new()
    }
}

} // verus!
