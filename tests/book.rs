use mm_orderbook::{InvalidPriceError, L2Book, PriceInput, Ratio, Side};

fn q(p: i64, s: i64) -> (PriceInput, i64) {
    (PriceInput::Ticks(p), s)
}

fn scenario_one() -> L2Book {
    let mut book = L2Book::new();
    let r = book.apply_snapshot(vec![q(100, 2), q(101, 5)], vec![q(102, 3), q(103, 1)]);
    assert_eq!(r, Ok(()));
    book
}

#[test]
fn snapshot_gives_best_levels_and_metrics() {
    let book = scenario_one();
    assert_eq!(book.best_bid(), Some((101, 5)));
    assert_eq!(book.best_ask(), Some((102, 3)));
    assert_eq!(book.mid(), Some(Ratio { num: 203, den: 2 }));
    assert_eq!(book.microprice(), Some(Ratio { num: 813, den: 8 }));
    assert_eq!(book.imbalance(1), Ratio { num: 2, den: 8 });
}

#[test]
fn delta_removal_exposes_next_bid() {
    let mut book = scenario_one();
    assert_eq!(book.apply_delta(vec![q(101, 0)], vec![]), Ok(()));
    assert_eq!(book.best_bid(), Some((100, 2)));
    assert_eq!(book.best_ask(), Some((102, 3)));
}

#[test]
fn empty_book_has_no_metrics() {
    let book = L2Book::new();
    assert_eq!(book.best_bid(), None);
    assert_eq!(book.best_ask(), None);
    assert_eq!(book.mid(), None);
    assert_eq!(book.microprice(), None);
    assert_eq!(book.imbalance(5), Ratio { num: 0, den: 1 });
}

#[test]
fn default_book_is_empty() {
    let book = L2Book::default();
    assert_eq!(book.top(Side::Bid, 10), vec![]);
    assert_eq!(book.top(Side::Ask, 10), vec![]);
}

#[test]
fn snapshot_sorts_each_side() {
    let mut book = L2Book::new();
    let bids = vec![q(98, 1), q(101, 2), q(99, 3), q(100, 4)];
    let asks = vec![q(105, 1), q(102, 2), q(104, 3), q(103, 4)];
    assert_eq!(book.apply_snapshot(bids, asks), Ok(()));
    assert_eq!(book.top(Side::Bid, 10), vec![(101, 2), (100, 4), (99, 3), (98, 1)]);
    assert_eq!(book.top(Side::Ask, 10), vec![(102, 2), (103, 4), (104, 3), (105, 1)]);
}

#[test]
fn snapshot_drops_non_positive_sizes() {
    let mut book = L2Book::new();
    assert_eq!(book.apply_snapshot(vec![q(100, 0), q(99, -4), q(98, 1)], vec![q(101, 0)]), Ok(()));
    assert_eq!(book.top(Side::Bid, 10), vec![(98, 1)]);
    assert_eq!(book.top(Side::Ask, 10), vec![]);
}

#[test]
fn snapshot_replaces_previous_state() {
    let mut book = scenario_one();
    assert_eq!(book.apply_snapshot(vec![q(90, 7)], vec![]), Ok(()));
    assert_eq!(book.top(Side::Bid, 10), vec![(90, 7)]);
    assert_eq!(book.top(Side::Ask, 10), vec![]);
}

#[test]
fn snapshot_last_write_wins() {
    let mut book = L2Book::new();
    let bids = vec![q(100, 2), q(99, 1), q(100, 9)];
    let asks = vec![q(101, 4), q(101, 6), q(101, 0)];
    assert_eq!(book.apply_snapshot(bids, asks), Ok(()));
    assert_eq!(book.top(Side::Bid, 10), vec![(100, 9), (99, 1)]);
    assert_eq!(book.top(Side::Ask, 10), vec![(101, 6)]);
}

#[test]
fn snapshot_twice_is_idempotent() {
    let bids = vec![q(100, 2), q(101, 5), q(100, 3)];
    let asks = vec![q(103, 1), q(102, 3)];
    let mut book = L2Book::new();
    assert_eq!(book.apply_snapshot(bids.clone(), asks.clone()), Ok(()));
    let once_bids = book.top(Side::Bid, 10);
    let once_asks = book.top(Side::Ask, 10);
    assert_eq!(book.apply_snapshot(bids, asks), Ok(()));
    assert_eq!(book.top(Side::Bid, 10), once_bids);
    assert_eq!(book.top(Side::Ask, 10), once_asks);
}

#[test]
fn snapshot_rejects_non_finite_price() {
    let mut book = scenario_one();
    let r = book.apply_snapshot(vec![q(100, 1), (PriceInput::NotFinite, 3)], vec![q(104, 2)]);
    assert_eq!(r, Err(InvalidPriceError));
    assert_eq!(book.top(Side::Bid, 10), vec![(101, 5), (100, 2)]);
    assert_eq!(book.top(Side::Ask, 10), vec![(102, 3), (103, 1)]);
}

#[test]
fn snapshot_rejects_non_finite_price_of_empty_entry() {
    let mut book = scenario_one();
    let r = book.apply_snapshot(vec![q(100, 1), (PriceInput::NotFinite, 0)], vec![]);
    assert_eq!(r, Err(InvalidPriceError));
    assert_eq!(book.top(Side::Bid, 10), vec![(101, 5), (100, 2)]);
    assert_eq!(book.top(Side::Ask, 10), vec![(102, 3), (103, 1)]);
}

#[test]
fn clone_keeps_levels() {
    let book = scenario_one();
    let mut copy = book.clone();
    assert_eq!(copy.top(Side::Bid, 10), vec![(101, 5), (100, 2)]);
    assert_eq!(copy.top(Side::Ask, 10), vec![(102, 3), (103, 1)]);
    copy.clear();
    assert_eq!(book.best_bid(), Some((101, 5)));
}

#[test]
fn delta_rejects_non_finite_price() {
    let mut book = scenario_one();
    let r = book.apply_delta(vec![q(100, 0)], vec![q(104, 1), (PriceInput::NotFinite, -1)]);
    assert_eq!(r, Err(InvalidPriceError));
    assert_eq!(book.top(Side::Bid, 10), vec![(101, 5), (100, 2)]);
    assert_eq!(book.top(Side::Ask, 10), vec![(102, 3), (103, 1)]);
}

#[test]
fn delta_upserts_and_keeps_order() {
    let mut book = scenario_one();
    let r = book.apply_delta(vec![q(102, 1), q(100, 8), q(99, 4)], vec![q(101, 2), q(103, 0)]);
    assert_eq!(r, Ok(()));
    assert_eq!(book.top(Side::Bid, 10), vec![(102, 1), (101, 5), (100, 8), (99, 4)]);
    assert_eq!(book.top(Side::Ask, 10), vec![(101, 2), (102, 3)]);
}

#[test]
fn delta_remove_of_absent_price_is_no_op() {
    let mut book = scenario_one();
    assert_eq!(book.apply_delta(vec![q(50, 0), q(60, -1)], vec![q(200, 0)]), Ok(()));
    assert_eq!(book.top(Side::Bid, 10), vec![(101, 5), (100, 2)]);
    assert_eq!(book.top(Side::Ask, 10), vec![(102, 3), (103, 1)]);
}

#[test]
fn delta_entries_apply_in_order() {
    let mut book = L2Book::new();
    assert_eq!(book.apply_delta(vec![q(100, 1), q(100, 0), q(99, 2), q(99, 3)], vec![]), Ok(()));
    assert_eq!(book.top(Side::Bid, 10), vec![(99, 3)]);
}

#[test]
fn clear_empties_both_sides() {
    let mut book = scenario_one();
    book.clear();
    assert_eq!(book.best_bid(), None);
    assert_eq!(book.best_ask(), None);
    assert_eq!(book.imbalance(3), Ratio { num: 0, den: 1 });
}

#[test]
fn top_clamps_to_available_levels() {
    let book = scenario_one();
    assert_eq!(book.top(Side::Bid, 0), vec![]);
    assert_eq!(book.top(Side::Bid, 1), vec![(101, 5)]);
    assert_eq!(book.top(Side::Ask, 99), vec![(102, 3), (103, 1)]);
}

#[test]
fn imbalance_over_depth() {
    let book = scenario_one();
    assert_eq!(book.imbalance(0), Ratio { num: 0, den: 1 });
    assert_eq!(book.imbalance(2), Ratio { num: 3, den: 11 });
    assert_eq!(book.imbalance(usize::MAX), Ratio { num: 3, den: 11 });
}

#[test]
fn imbalance_with_one_empty_side() {
    let mut book = L2Book::new();
    assert_eq!(book.apply_snapshot(vec![], vec![q(10, 4)]), Ok(()));
    assert_eq!(book.imbalance(1), Ratio { num: -4, den: 4 });
}

#[test]
fn mid_needs_positive_prices() {
    let mut book = L2Book::new();
    assert_eq!(book.apply_snapshot(vec![q(0, 1)], vec![q(2, 1)]), Ok(()));
    assert_eq!(book.mid(), None);
    assert_eq!(book.microprice(), Some(Ratio { num: 2, den: 2 }));
}

#[test]
fn mid_and_microprice_need_both_sides() {
    let mut book = L2Book::new();
    assert_eq!(book.apply_snapshot(vec![q(100, 1)], vec![]), Ok(()));
    assert_eq!(book.mid(), None);
    assert_eq!(book.microprice(), None);
}

#[test]
fn crossed_book_is_tolerated() {
    let mut book = L2Book::new();
    assert_eq!(book.apply_snapshot(vec![q(105, 1)], vec![q(100, 1)]), Ok(()));
    assert_eq!(book.mid(), Some(Ratio { num: 205, den: 2 }));
}

#[test]
fn extreme_values_do_not_overflow() {
    let mut book = L2Book::new();
    let bids = vec![q(i64::MAX, i64::MAX), q(i64::MAX - 1, i64::MAX)];
    let asks = vec![q(i64::MIN, i64::MAX)];
    assert_eq!(book.apply_snapshot(bids, asks), Ok(()));
    let big = i64::MAX as i128;
    assert_eq!(book.imbalance(2), Ratio { num: big, den: (3 * big) as u128 });
    let num = big * big + (i64::MIN as i128) * big;
    assert_eq!(book.microprice(), Some(Ratio { num, den: (2 * big) as u128 }));
}

#[test]
fn many_levels_come_out_sorted() {
    let mut bids = Vec::new();
    let mut asks = Vec::new();
    for k in 0..97i64 {
        let p = (k * 37) % 97;
        bids.push(q(p, k + 1));
        asks.push(q(1000 + p, k + 1));
    }
    let mut book = L2Book::new();
    assert_eq!(book.apply_snapshot(bids, asks), Ok(()));
    let b = book.top(Side::Bid, 200);
    let a = book.top(Side::Ask, 200);
    assert_eq!(b.len(), 97);
    assert_eq!(a.len(), 97);
    for w in b.windows(2) {
        assert!(w[0].0 > w[1].0);
    }
    for w in a.windows(2) {
        assert!(w[0].0 < w[1].0);
    }
    assert_eq!(b[0], (96, 77));
    assert_eq!(a[0], (1000, 1));
    assert_eq!(book.apply_delta(vec![q(96, 0), q(50, 0)], vec![q(999, 5)]), Ok(()));
    assert_eq!(book.best_bid().map(|l| l.0), Some(95));
    assert_eq!(book.top(Side::Bid, 200).len(), 95);
    assert_eq!(book.best_ask(), Some((999, 5)));
}
