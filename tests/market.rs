use mbo_backend::effect::{BookEffect, MboError};
use mbo_backend::market::{Market, MarketEffect};
use mbo_backend::msg::MboMsg;
use mbo_backend::price_level::PriceLevel;
use mbo_backend::replay::{replay_all, Replay, BATCH_SIZE};

fn rec(action: u8, side: u8, publisher_id: u16, instrument_id: u32, order_id: u64, price: i64, size: u32) -> MboMsg {
    MboMsg {
        ts_event: 0,
        publisher_id,
        instrument_id,
        order_id,
        price,
        size,
        flags: 0,
        channel_id: 0,
        action,
        side,
        ts_recv: 0,
        ts_in_delta: 0,
        sequence: 0,
    }
}

fn level(price: i64, size: u32, count: u32) -> PriceLevel {
    PriceLevel { price, size, count }
}

#[test]
fn aggregated_bbo_merges_ties() {
    let mut market = Market::new();
    market.apply(rec(b'A', b'B', 1, 5, 1, 100, 3)).unwrap();
    market.apply(rec(b'A', b'B', 2, 5, 1, 100, 4)).unwrap();
    assert_eq!(market.aggregated_bbo(5), (Some(level(100, 7, 2)), None));
}

#[test]
fn aggregated_bbo_takes_best_prices() {
    let mut market = Market::new();
    market.apply(rec(b'A', b'B', 1, 5, 1, 100, 3)).unwrap();
    market.apply(rec(b'A', b'B', 2, 5, 2, 101, 4)).unwrap();
    market.apply(rec(b'A', b'A', 1, 5, 3, 105, 2)).unwrap();
    market.apply(rec(b'A', b'A', 2, 5, 4, 104, 6)).unwrap();
    market.apply(rec(b'A', b'A', 3, 5, 5, 104, 1)).unwrap();
    assert_eq!(market.aggregated_bbo(5), (Some(level(101, 4, 1)), Some(level(104, 7, 2))));
    assert_eq!(market.aggregated_bbo(6), (None, None));
}

#[test]
fn first_record_creates_publisher_book() {
    let mut market = Market::new();
    let e = market.apply(rec(b'A', b'B', 1, 5, 1, 100, 3)).unwrap();
    assert_eq!(e.publisher_created, Some(1));
    assert_eq!(e.book_effects, vec![BookEffect::Added { order_id: 1, side: mbo_backend::msg::Side::Bid, price: 100 }]);
    let e = market.apply(rec(b'A', b'B', 1, 5, 2, 99, 3)).unwrap();
    assert_eq!(e.publisher_created, None);
    let e = market.apply(rec(b'A', b'B', 2, 5, 2, 99, 3)).unwrap();
    assert_eq!(e.publisher_created, Some(2));
    let pubs: Vec<u16> = market.books_by_pub(5).unwrap().iter().map(|p| p.0).collect();
    assert_eq!(pubs, vec![1, 2]);
    assert!(market.books_by_pub(9).is_none());
    assert_eq!(market.bbo(5, 1).0, Some(level(100, 3, 1)));
    assert_eq!(market.bbo(5, 3), (None, None));
    assert!(market.book(5, 2).is_some());
    assert!(market.book(5, 3).is_none());
}

#[test]
fn unknown_publisher_is_an_error() {
    let mut market = Market::new();
    assert_eq!(market.apply(rec(b'A', b'B', 0, 5, 1, 100, 3)), Err(MboError::InvalidPublisher));
    assert_eq!(market.apply(rec(b'A', b'B', u16::MAX, 5, 1, 100, 3)), Err(MboError::InvalidPublisher));
    assert!(market.books_by_pub(5).is_none());
}

#[test]
fn book_error_leaves_market_unchanged() {
    let mut market = Market::new();
    assert_eq!(market.apply(rec(b'A', b'N', 1, 5, 1, 100, 3)), Err(MboError::InvalidSide));
    assert!(market.books_by_pub(5).is_none());
}

#[test]
fn market_effect_builders() {
    let mut e = MarketEffect::from_book_effect(vec![BookEffect::NoOp]);
    assert_eq!(e.publisher_created, None);
    e.add_publisher_created(3);
    assert_eq!(e.publisher_created, Some(3));
    assert_eq!(e.book_effects, vec![BookEffect::NoOp]);
    let d = MarketEffect::default();
    assert_eq!(d.publisher_created, None);
    assert!(d.book_effects.is_empty());
}

#[test]
fn replay_hands_out_full_batches() {
    let mut replay = Replay::new();
    let m = rec(b'N', b'N', 1, 5, 0, 0, 0);
    for i in 0..BATCH_SIZE - 1 {
        assert!(replay.push_message(m, true).is_none(), "early batch at {}", i);
    }
    let batch = replay.push_message(m, true).unwrap();
    assert_eq!(batch.len(), BATCH_SIZE);
    assert!(replay.push_message(m, true).is_none());
    assert!(replay.push_message(m, false).is_none());
    assert_eq!(replay.finish().map(|b| b.len()), Some(1));
    assert!(replay.finish().is_none());
    assert_eq!(replay.messages().len(), BATCH_SIZE + 2);
}

#[test]
fn replay_snapshots_follow_each_record() {
    let mut replay = Replay::new();
    let mut last = rec(b'A', b'A', 1, 5, 2, 101, 5);
    last.flags = 128;
    let first = rec(b'A', b'B', 1, 5, 1, 100, 10);
    assert_eq!(replay.apply_message(first), Ok(None));
    assert_eq!(replay.apply_message(last), Ok(Some((Some(level(100, 10, 1)), Some(level(101, 5, 1))))));
    let snaps = replay.snapshots();
    assert_eq!(snaps.len(), 2);
    assert_eq!(snaps[0].applied_mbo_msg, first);
    assert_eq!(snaps[0].market.aggregated_bbo(5), (Some(level(100, 10, 1)), None));
    assert_eq!(snaps[1].market.aggregated_bbo(5).1, Some(level(101, 5, 1)));
    assert_eq!(snaps[0].market_effect.publisher_created, Some(1));
    assert_eq!(snaps[1].market_effect.publisher_created, None);
}

#[test]
fn replay_is_deterministic() {
    let msgs = vec![
        rec(b'A', b'B', 1, 5, 1, 100, 10),
        rec(b'A', b'A', 2, 5, 2, 101, 5),
        rec(b'A', b'B', 1, 5, 3, 102, 7),
        rec(b'M', b'B', 1, 5, 1, 100, 4),
        rec(b'C', b'B', 2, 5, 9, 99, 1),
        rec(b'R', b'N', 2, 5, 0, 0, 0),
    ];
    let a = replay_all(&msgs).unwrap();
    let b = replay_all(&msgs).unwrap();
    assert_eq!(a.len(), msgs.len());
    for (x, y) in a.iter().zip(b.iter()) {
        assert_eq!(x.market_effect, y.market_effect);
        assert_eq!(x.applied_mbo_msg, y.applied_mbo_msg);
        assert_eq!(x.market.aggregated_bbo(5), y.market.aggregated_bbo(5));
    }
}

#[test]
fn replay_stops_at_first_error() {
    let msgs = vec![rec(b'A', b'B', 1, 5, 1, 100, 10), rec(b'A', b'B', 1, 5, 1, 100, 10)];
    assert_eq!(replay_all(&msgs).err(), Some(MboError::DuplicateOrder));
}
