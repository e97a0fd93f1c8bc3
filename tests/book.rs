use mbo_backend::book::Book;
use mbo_backend::effect::{BookEffect, CancelKind, MboError, ModifyKind, SkipReason};
use mbo_backend::msg::{decode_action, decode_side, Action, MboMsg, Side, UNDEF_PRICE};
use mbo_backend::price_level::{BidAskPair, PriceLevel};

const TOB: u8 = 64;

fn msg(action: u8, side: u8, order_id: u64, price: i64, size: u32) -> MboMsg {
    MboMsg {
        ts_event: 0,
        publisher_id: 1,
        instrument_id: 7,
        order_id,
        price,
        size,
        flags: 0,
        channel_id: 0,
        action,
        side,
        ts_recv: 0,
        ts_in_delta: 0,
        sequence: 0,
    }
}

fn add(side: u8, id: u64, price: i64, size: u32) -> MboMsg {
    msg(b'A', side, id, price, size)
}

fn cancel(side: u8, id: u64, price: i64, size: u32) -> MboMsg {
    msg(b'C', side, id, price, size)
}

fn modify(side: u8, id: u64, price: i64, size: u32) -> MboMsg {
    msg(b'M', side, id, price, size)
}

fn level(price: i64, size: u32, count: u32) -> PriceLevel {
    PriceLevel { price, size, count }
}

#[test]
fn two_sided_resting_book() {
    let mut book = Book::new();
    book.apply(add(b'B', 1, 100, 10)).unwrap();
    book.apply(add(b'A', 2, 101, 5)).unwrap();
    assert_eq!(book.bbo(), (Some(level(100, 10, 1)), Some(level(101, 5, 1))));
}

#[test]
fn partial_cancel() {
    let mut book = Book::new();
    book.apply(add(b'B', 1, 100, 10)).unwrap();
    book.apply(add(b'A', 2, 101, 5)).unwrap();
    let fx = book.apply(cancel(b'B', 1, 100, 4)).unwrap();
    assert_eq!(fx, vec![BookEffect::Canceled { order_id: 1, extent: CancelKind::Partial }]);
    assert_eq!(book.bbo().0, Some(level(100, 6, 1)));
    assert_eq!(book.order(1).map(|o| o.size), Some(6));
}

#[test]
fn full_cancel_removes_level() {
    let mut book = Book::new();
    book.apply(add(b'B', 1, 100, 10)).unwrap();
    book.apply(add(b'A', 2, 101, 5)).unwrap();
    book.apply(cancel(b'B', 1, 100, 4)).unwrap();
    let fx = book.apply(cancel(b'B', 1, 100, 6)).unwrap();
    assert_eq!(fx, vec![BookEffect::Canceled { order_id: 1, extent: CancelKind::Full }]);
    assert_eq!(book.bbo(), (None, Some(level(101, 5, 1))));
    assert_eq!(book.order(1), None);
    assert_eq!(book.bid_level_by_px(100), None);
}

#[test]
fn pre_snapshot_cancel_is_skipped() {
    let mut book = Book::new();
    let fx = book.apply(cancel(b'B', 42, 99, 1)).unwrap();
    assert_eq!(fx, vec![BookEffect::Skipped { reason: SkipReason::PreSnapshotCancel }]);
    assert_eq!(book.bbo(), (None, None));
}

#[test]
fn cancel_of_unknown_id_at_existing_level_is_skipped() {
    let mut book = Book::new();
    book.apply(add(b'B', 1, 100, 10)).unwrap();
    let fx = book.apply(cancel(b'B', 9, 100, 1)).unwrap();
    assert_eq!(fx, vec![BookEffect::Skipped { reason: SkipReason::PreSnapshotCancel }]);
    assert_eq!(book.bbo().0, Some(level(100, 10, 1)));
}

#[test]
fn crossed_book_repair_evicts_both_levels() {
    let mut book = Book::new();
    book.apply(add(b'B', 1, 100, 10)).unwrap();
    book.apply(add(b'A', 2, 101, 5)).unwrap();
    let fx = book.apply(add(b'B', 3, 102, 7)).unwrap();
    assert_eq!(
        fx,
        vec![
            BookEffect::Added { order_id: 3, side: Side::Bid, price: 102 },
            BookEffect::CrossedResolved {
                removed_bid_price: 102,
                removed_ask_price: 101,
                removed_order_ids: vec![3, 2],
            },
        ]
    );
    assert_eq!(book.bbo(), (Some(level(100, 10, 1)), None));
    assert!(book.order(1).is_some());
    assert_eq!(book.order(2), None);
    assert_eq!(book.order(3), None);
}

#[test]
fn crossed_book_repair_runs_until_uncrossed() {
    let mut book = Book::new();
    book.apply(add(b'B', 1, 100, 1)).unwrap();
    book.apply(add(b'B', 2, 99, 1)).unwrap();
    book.apply(add(b'A', 3, 103, 1)).unwrap();
    book.apply(add(b'A', 4, 104, 1)).unwrap();
    let fx = book.apply(add(b'A', 5, 98, 1)).unwrap();
    // 100 >= 98 evicts bid 100 and ask 98; then 99 < 103 stops.
    assert_eq!(fx.len(), 2);
    assert_eq!(book.bbo(), (Some(level(99, 1, 1)), Some(level(103, 1, 1))));
}

#[test]
fn modify_keeps_priority_or_requeues() {
    let mut book = Book::new();
    book.apply(add(b'B', 1, 100, 10)).unwrap();
    book.apply(add(b'B', 2, 100, 5)).unwrap();
    assert_eq!(book.queue_pos(2), Some(10));
    let fx = book.apply(modify(b'B', 1, 100, 8)).unwrap();
    assert_eq!(
        fx,
        vec![BookEffect::Modified {
            order_id: 1,
            priority: ModifyKind::KeptPriority,
            prev_price: 100,
            new_price: 100
        }]
    );
    assert_eq!(book.queue_pos(2), Some(8));
    assert_eq!(book.queue_pos(1), Some(0));
    let fx = book.apply(modify(b'B', 1, 100, 20)).unwrap();
    assert_eq!(
        fx,
        vec![BookEffect::Modified {
            order_id: 1,
            priority: ModifyKind::Requeued,
            prev_price: 100,
            new_price: 100
        }]
    );
    assert_eq!(book.queue_pos(2), Some(0));
    assert_eq!(book.queue_pos(1), Some(5));
}

#[test]
fn modify_to_new_price_moves_order() {
    let mut book = Book::new();
    book.apply(add(b'B', 1, 100, 10)).unwrap();
    book.apply(add(b'B', 2, 99, 5)).unwrap();
    book.apply(modify(b'B', 1, 99, 10)).unwrap();
    assert_eq!(book.bid_level_by_px(100), None);
    assert_eq!(book.bid_level_by_px(99), Some(level(99, 15, 2)));
    assert_eq!(book.queue_pos(1), Some(5));
}

#[test]
fn modify_across_sides_moves_order() {
    let mut book = Book::new();
    book.apply(add(b'B', 1, 100, 10)).unwrap();
    book.apply(modify(b'A', 1, 105, 3)).unwrap();
    assert_eq!(book.bbo(), (None, Some(level(105, 3, 1))));
    assert_eq!(book.order(1).map(|o| o.side), Some(b'A'));
}

#[test]
fn pre_snapshot_modify_is_skipped() {
    let mut book = Book::new();
    let fx = book.apply(modify(b'B', 5, 100, 1)).unwrap();
    assert_eq!(fx, vec![BookEffect::Skipped { reason: SkipReason::PreSnapshotModify }]);
    assert_eq!(book.bbo(), (None, None));
}

#[test]
fn clear_twice_equals_clear_once() {
    let mut book = Book::new();
    book.apply(add(b'B', 1, 100, 10)).unwrap();
    book.apply(add(b'A', 2, 101, 5)).unwrap();
    let clear = msg(b'R', b'N', 0, 0, 0);
    assert_eq!(book.apply(clear).unwrap(), vec![BookEffect::Cleared]);
    assert_eq!(book.bbo(), (None, None));
    assert_eq!(book.apply(clear).unwrap(), vec![BookEffect::Cleared]);
    assert_eq!(book.bbo(), (None, None));
    assert_eq!(book.order(1), None);
    book.apply(add(b'B', 1, 100, 10)).unwrap();
    assert_eq!(book.bbo(), (Some(level(100, 10, 1)), None));
}

#[test]
fn add_then_cancel_restores_level_and_index() {
    let mut book = Book::new();
    book.apply(add(b'B', 1, 100, 10)).unwrap();
    book.apply(add(b'A', 2, 101, 5)).unwrap();
    let before = (book.bbo(), book.snapshot(3));
    book.apply(add(b'B', 3, 99, 4)).unwrap();
    assert!(book.order(3).is_some());
    book.apply(cancel(b'B', 3, 99, 4)).unwrap();
    assert_eq!((book.bbo(), book.snapshot(3)), before);
    assert_eq!(book.order(3), None);
    assert_eq!(book.bid_level_by_px(99), None);
}

#[test]
fn trade_fill_and_none_do_nothing() {
    let mut book = Book::new();
    book.apply(add(b'B', 1, 100, 10)).unwrap();
    for a in [b'T', b'F', b'N'] {
        assert_eq!(book.apply(msg(a, b'B', 1, 100, 10)).unwrap(), vec![BookEffect::NoOp]);
    }
    assert_eq!(book.bbo().0, Some(level(100, 10, 1)));
}

#[test]
fn top_of_book_add_replaces_side() {
    let mut book = Book::new();
    book.apply(add(b'B', 1, 100, 10)).unwrap();
    book.apply(add(b'B', 2, 99, 10)).unwrap();
    let mut tob = add(b'B', 0, 101, 30);
    tob.flags = TOB;
    let fx = book.apply(tob).unwrap();
    assert_eq!(fx, vec![BookEffect::Added { order_id: 0, side: Side::Bid, price: 101 }]);
    assert_eq!(book.bbo().0, Some(level(101, 30, 0)));
    assert_eq!(book.bid_level(1), None);
    assert_eq!(book.order(1), None);
    assert_eq!(book.order(2), None);
}

#[test]
fn top_of_book_undef_price_clears_side() {
    let mut book = Book::new();
    book.apply(add(b'A', 1, 100, 10)).unwrap();
    let mut tob = add(b'A', 0, UNDEF_PRICE, 0);
    tob.flags = TOB;
    assert_eq!(book.apply(tob).unwrap(), vec![BookEffect::Cleared]);
    assert_eq!(book.bbo(), (None, None));
    assert_eq!(book.order(1), None);
}

#[test]
fn invalid_action_is_an_error() {
    let mut book = Book::new();
    assert_eq!(book.apply(msg(b'X', b'B', 1, 100, 1)), Err(MboError::InvalidAction));
}

#[test]
fn invalid_side_is_an_error() {
    let mut book = Book::new();
    assert_eq!(book.apply(add(b'N', 1, 100, 1)), Err(MboError::InvalidSide));
    assert_eq!(book.apply(cancel(b'?', 1, 100, 1)), Err(MboError::InvalidSide));
    assert_eq!(book.apply(modify(b'N', 1, 100, 1)), Err(MboError::InvalidSide));
}

#[test]
fn undef_price_resting_add_is_an_error() {
    let mut book = Book::new();
    assert_eq!(book.apply(add(b'B', 1, UNDEF_PRICE, 1)), Err(MboError::InvalidPrice));
    assert_eq!(book.bbo(), (None, None));
}

#[test]
fn duplicate_order_is_an_error() {
    let mut book = Book::new();
    book.apply(add(b'B', 1, 100, 1)).unwrap();
    assert_eq!(book.apply(add(b'B', 1, 99, 1)), Err(MboError::DuplicateOrder));
    assert_eq!(book.bid_level_by_px(99), None);
}

#[test]
fn cancel_exceeding_size_is_an_error() {
    let mut book = Book::new();
    book.apply(add(b'B', 1, 100, 3)).unwrap();
    assert_eq!(book.apply(cancel(b'B', 1, 100, 4)), Err(MboError::CancelExceedsSize));
    assert_eq!(book.bbo().0, Some(level(100, 3, 1)));
}

#[test]
fn levels_are_ordered_best_first() {
    let mut book = Book::new();
    for (id, px) in [(1, 97), (2, 99), (3, 98)] {
        book.apply(add(b'B', id, px, 1)).unwrap();
    }
    for (id, px) in [(4, 103), (5, 101), (6, 102)] {
        book.apply(add(b'A', id, px, 1)).unwrap();
    }
    let bids: Vec<i64> = (0..3).map(|i| book.bid_level(i).unwrap().price).collect();
    let asks: Vec<i64> = (0..3).map(|i| book.ask_level(i).unwrap().price).collect();
    assert_eq!(bids, vec![99, 98, 97]);
    assert_eq!(asks, vec![101, 102, 103]);
    assert_eq!(book.bid_level(3), None);
    assert_eq!(book.ask_level(3), None);
}

#[test]
fn snapshot_is_zero_filled() {
    let mut book = Book::new();
    book.apply(add(b'B', 1, 100, 10)).unwrap();
    book.apply(add(b'B', 2, 100, 5)).unwrap();
    book.apply(add(b'A', 3, 101, 2)).unwrap();
    book.apply(add(b'A', 4, 102, 1)).unwrap();
    let snap = book.snapshot(3);
    assert_eq!(snap.len(), 3);
    assert_eq!(
        snap[0],
        BidAskPair { bid_px: 100, ask_px: 101, bid_sz: 15, ask_sz: 2, bid_ct: 2, ask_ct: 1 }
    );
    assert_eq!(
        snap[1],
        BidAskPair { bid_px: 0, ask_px: 102, bid_sz: 0, ask_sz: 1, bid_ct: 0, ask_ct: 1 }
    );
    assert_eq!(
        snap[2],
        BidAskPair { bid_px: 0, ask_px: 0, bid_sz: 0, ask_sz: 0, bid_ct: 0, ask_ct: 0 }
    );
    assert_eq!(book.snapshot(0).len(), 0);
}

#[test]
fn queue_position_sums_sizes_ahead() {
    let mut book = Book::new();
    book.apply(add(b'A', 1, 101, 3)).unwrap();
    book.apply(add(b'A', 2, 101, 4)).unwrap();
    book.apply(add(b'A', 3, 101, 5)).unwrap();
    assert_eq!(book.queue_pos(1), Some(0));
    assert_eq!(book.queue_pos(2), Some(3));
    assert_eq!(book.queue_pos(3), Some(7));
    assert_eq!(book.queue_pos(4), None);
}

#[test]
fn price_level_counts_resting_orders_only() {
    let mut tob = add(b'B', 0, 100, 30);
    tob.flags = TOB;
    let orders = vec![tob, add(b'B', 1, 100, 2), add(b'B', 2, 100, 3)];
    assert_eq!(PriceLevel::new(100, &orders), level(100, 35, 2));
    assert_eq!(PriceLevel::new(100, &[]), level(100, 0, 0));
}

#[test]
fn price_level_size_saturates() {
    let orders = vec![add(b'B', 1, 100, u32::MAX), add(b'B', 2, 100, 5)];
    assert_eq!(PriceLevel::new(100, &orders), level(100, u32::MAX, 2));
}

#[test]
fn raw_fields_decode() {
    assert_eq!(decode_side(b'A'), Some(Side::Ask));
    assert_eq!(decode_side(b'B'), Some(Side::Bid));
    assert_eq!(decode_side(b'N'), None);
    assert_eq!(decode_action(b'A'), Some(Action::Add));
    assert_eq!(decode_action(b'C'), Some(Action::Cancel));
    assert_eq!(decode_action(b'M'), Some(Action::Modify));
    assert_eq!(decode_action(b'R'), Some(Action::Clear));
    assert_eq!(decode_action(b'T'), Some(Action::Trade));
    assert_eq!(decode_action(b'F'), Some(Action::Fill));
    assert_eq!(decode_action(b'N'), Some(Action::NoAction));
    assert_eq!(decode_action(b'Z'), None);
    let mut m = add(b'B', 1, 1, 1);
    m.flags = 128 | 64;
    assert!(m.is_tob() && m.is_last());
    m.flags = 0;
    assert!(!m.is_tob() && !m.is_last());
}

#[test]
fn modify_across_the_spread_is_not_repaired() {
    let mut book = Book::new();
    book.apply(add(b'B', 1, 100, 10)).unwrap();
    book.apply(add(b'A', 2, 101, 5)).unwrap();
    book.apply(modify(b'B', 1, 102, 10)).unwrap();
    // Repair runs after resting Adds only; a Modify may leave the book crossed.
    assert_eq!(book.bbo(), (Some(level(102, 10, 1)), Some(level(101, 5, 1))));
    // The next resting Add repairs it.
    let fx = book.apply(add(b'B', 3, 90, 1)).unwrap();
    assert_eq!(fx.len(), 2);
    assert_eq!(book.bbo(), (Some(level(90, 1, 1)), None));
}
