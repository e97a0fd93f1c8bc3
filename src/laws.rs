//! Properties of the book, the market and the replay, stated over the models
//! that the operations' contracts use, and proved.
use vstd::prelude::*;
use crate::book_model::{
    first_at, first_index, holds_id, indexed_order, lemma_extremes_exist, lemma_live_index,
    lemma_first_index, lemma_step_wf, live_at, live_ids_unique, live_index, nth_ask, nth_bid,
    queue_or_empty, size_ahead, step, uncross, evict_top, BookModel,
};
use crate::effect::{CancelKind, EffectModel};
use crate::ladder::{lemma_rank_above_unique, lemma_rank_below_unique, prices_above, prices_below};
use crate::market::{agg_bid, agg_ask};
use crate::msg::{action_of, side_of, Action, MboMsg, Side, UNDEF_PRICE};
use crate::price_level::saturate;
use crate::replay::{replay_from, SnapshotModel};

verus! {

/// A resting order id sits in one level only, at one position: two resting
/// orders with the same id are the same entry of the same level.
pub proof fn lemma_id_in_one_level(m: BookModel, oid: u64, sa: Side, pa: i64, ia: int, sb: Side, pb: i64, ib: int)
    requires
        m.wf(),
        m.levels(sa).contains_key(pa),
        m.levels(sb).contains_key(pb),
        live_at(m.levels(sa)[pa], oid, ia),
        live_at(m.levels(sb)[pb], oid, ib),
    ensures
        sa == sb && pa == pb && ia == ib,
{
    assert(m.levels(sa)[pa][ia].order_id == oid);
    assert(m.levels(sb)[pb][ib].order_id == oid);
    assert(m.ids[oid] == (sa, pa));
    assert(m.ids[oid] == (sb, pb));
    assert(live_ids_unique(m.levels(sa)[pa]));
}

/// Crossed-book repair leaves a book whose every bid is below every ask.
pub proof fn lemma_uncross_not_crossed(m: BookModel)
    requires
        m.bids.dom().finite(),
        m.asks.dom().finite(),
    ensures
        uncross(m).0.not_crossed(),
    decreases m.bids.dom().len(),
{
    if m.is_crossed() {
        assert(evict_top(m).bids.dom().len() < m.bids.dom().len());
        lemma_uncross_not_crossed(evict_top(m));
    } else if m.bids.dom().len() > 0 && m.asks.dom().len() > 0 {
        lemma_extremes_exist(m.bids.dom());
        lemma_extremes_exist(m.asks.dom());
    } else {
        assert forall|b: i64, a: i64| m.bids.contains_key(b) && m.asks.contains_key(a) implies b < a by {
            assert(m.bids.dom().contains(b));
            assert(m.asks.dom().contains(a));
        }
    }
}

/// After a resting order is added, no bid is at or above any ask.
pub proof fn lemma_resting_add_uncrossed(m: BookModel, msg: MboMsg)
    requires
        m.wf(),
        action_of(msg.action) == Some(Action::Add),
        !msg.spec_is_tob(),
        step(m, msg) is Ok,
    ensures
        step(m, msg)->Ok_0.0.not_crossed(),
{
    let s = side_of(msg.side)->Some_0;
    let lv = m.levels(s);
    let joined = m.with_levels(
        s,
        lv.insert(msg.price, queue_or_empty(lv, msg.price).push(msg)),
    ).with_ids(m.ids.insert(msg.order_id, (s, msg.price)));
    lemma_uncross_not_crossed(joined);
}

/// Cancels, Clear, and the records that change nothing keep a book that is
/// not crossed uncrossed.
pub proof fn lemma_uncrossed_kept(m: BookModel, msg: MboMsg)
    requires
        m.not_crossed(),
        action_of(msg.action) != Some(Action::Add),
        action_of(msg.action) != Some(Action::Modify),
        step(m, msg) is Ok,
    ensures
        step(m, msg)->Ok_0.0.not_crossed(),
{
}

/// Bid levels come best first: a deeper level has a strictly lower price.
pub proof fn lemma_bid_levels_descend(m: BookModel, i: int, j: int)
    requires
        m.bids.dom().finite(),
        0 <= i < j,
        nth_bid(m, i) is Some,
        nth_bid(m, j) is Some,
    ensures
        nth_bid(m, i)->Some_0.price > nth_bid(m, j)->Some_0.price,
{
    let pi = choose|p: i64| m.bids.contains_key(p) && prices_above(m.bids.dom(), p).len() == i;
    let pj = choose|p: i64| m.bids.contains_key(p) && prices_above(m.bids.dom(), p).len() == j;
    if pi < pj {
        lemma_rank_above_unique(m.bids.dom(), pi, pj);
    }
}

/// Ask levels come best first: a deeper level has a strictly higher price.
pub proof fn lemma_ask_levels_ascend(m: BookModel, i: int, j: int)
    requires
        m.asks.dom().finite(),
        0 <= i < j,
        nth_ask(m, i) is Some,
        nth_ask(m, j) is Some,
    ensures
        nth_ask(m, i)->Some_0.price < nth_ask(m, j)->Some_0.price,
{
    let pi = choose|p: i64| m.asks.contains_key(p) && prices_below(m.asks.dom(), p).len() == i;
    let pj = choose|p: i64| m.asks.contains_key(p) && prices_below(m.asks.dom(), p).len() == j;
    if pj < pi {
        lemma_rank_below_unique(m.asks.dom(), pj, pi);
    }
}

/// Clear twice is Clear once: both leave the empty book, whatever came
/// before, so whatever follows starts from empty.
pub proof fn lemma_clear_idempotent(m: BookModel, c1: MboMsg, c2: MboMsg)
    requires
        action_of(c1.action) == Some(Action::Clear),
        action_of(c2.action) == Some(Action::Clear),
    ensures
        step(m, c1) == Ok::<(BookModel, Seq<EffectModel>), crate::effect::MboError>(
            (BookModel::empty(), seq![EffectModel::Cleared]),
        ),
        step(step(m, c1)->Ok_0.0, c2) == step(m, c1),
{
}

/// An Add of a resting order followed by a Cancel of its whole size at the
/// same side and price gives back the book as it was, where the Add crossed
/// nothing and the level held no other order with that id.
pub proof fn lemma_add_cancel_round_trip(m: BookModel, add: MboMsg, cancel: MboMsg)
    requires
        m.wf(),
        m.not_crossed(),
        action_of(add.action) == Some(Action::Add),
        action_of(cancel.action) == Some(Action::Cancel),
        side_of(add.side) is Some,
        cancel.side == add.side,
        cancel.price == add.price,
        cancel.order_id == add.order_id,
        cancel.size == add.size,
        !add.spec_is_tob(),
        add.price != UNDEF_PRICE,
        !m.ids.contains_key(add.order_id),
        !holds_id(queue_or_empty(m.levels(side_of(add.side)->Some_0), add.price), add.order_id),
        side_of(add.side) == Some(Side::Bid) ==> forall|a: i64| m.asks.contains_key(a) ==> add.price < a,
        side_of(add.side) == Some(Side::Ask) ==> forall|b: i64| m.bids.contains_key(b) ==> b < add.price,
    ensures
        step(m, add) is Ok,
        step(step(m, add)->Ok_0.0, cancel) == Ok::<(BookModel, Seq<EffectModel>), crate::effect::MboError>(
            (m, seq![EffectModel::Canceled { order_id: add.order_id, extent: CancelKind::Full }]),
        ),
{
    let s = side_of(add.side)->Some_0;
    let lv = m.levels(s);
    let q0 = queue_or_empty(lv, add.price);
    let q = q0.push(add);
    let joined = m.with_levels(s, lv.insert(add.price, q)).with_ids(
        m.ids.insert(add.order_id, (s, add.price)),
    );
    // The joined book is not crossed, so repair leaves it as it is.
    assert(!joined.is_crossed()) by {
        if joined.is_crossed() {
            let b = crate::book_model::max_price(joined.bids.dom());
            let a = crate::book_model::min_price(joined.asks.dom());
            if s == Side::Bid {
                if b != add.price {
                    assert(m.bids.contains_key(b));
                }
                assert(m.asks.contains_key(a));
            } else {
                if a != add.price {
                    assert(m.asks.contains_key(a));
                }
                assert(m.bids.contains_key(b));
            }
        }
    }
    assert(uncross(joined) == (joined, Seq::<EffectModel>::empty()));
    let after = step(m, add)->Ok_0.0;
    assert(after == joined);
    // The Cancel finds the new order at the tail.
    assert(first_at(q, add.order_id, q0.len() as int));
    lemma_first_index(q, add.order_id, q0.len() as int);
    assert(q.remove(q0.len() as int) =~= q0);
    assert(joined.levels(s)[add.price] == q);
    let restored_levels = crate::book_model::put_queue(joined.levels(s), add.price, q0);
    assert(restored_levels =~= lv);
    assert(m.ids.insert(add.order_id, (s, add.price)).remove(add.order_id) =~= m.ids);
    assert(joined.with_levels(s, restored_levels).with_ids(m.ids) == m);
}

/// A Modify at the same side and price that does not grow the order keeps
/// the size queued ahead of it; any other Modify of a resting order puts the
/// record at the tail of its destination level.
pub proof fn lemma_modify_priority(m: BookModel, msg: MboMsg)
    requires
        m.wf(),
        action_of(msg.action) == Some(Action::Modify),
        side_of(msg.side) is Some,
        m.ids.contains_key(msg.order_id),
    ensures
        step(m, msg) is Ok,
        ({
            let s = side_of(msg.side)->Some_0;
            let r = step(m, msg)->Ok_0.0;
            if m.ids[msg.order_id] == (s, msg.price) && msg.size <= indexed_order(
                m,
                msg.order_id,
            )->Some_0.size {
                size_ahead(r, msg.order_id) == size_ahead(m, msg.order_id)
            } else {
                &&& r.levels(s).contains_key(msg.price)
                &&& r.levels(s)[msg.price].last() == msg
            }
        }),
{
    let s = side_of(msg.side)->Some_0;
    let oid = msg.order_id;
    let ps = m.ids[oid].0;
    let pp = m.ids[oid].1;
    let q = m.levels(ps)[pp];
    let i = live_index(q, oid);
    assert(live_at(q, oid, i));
    lemma_step_wf(m, msg);
    let r = step(m, msg)->Ok_0.0;
    if ps == s && pp == msg.price && msg.size <= q[i].size {
        let q2 = q.update(i, crate::book_model::resized(q[i], msg.size));
        assert(r.levels(s)[pp] == q2);
        assert(r.ids[oid] == (s, pp));
        assert(live_at(q2, oid, i));
        assert(live_ids_unique(q2));
        lemma_live_index(q2, oid, i);
        assert(q2.take(i) =~= q.take(i));
    }
}

/// Two replays of the same records from the same market give the same
/// markets, effects and snapshots, or the same error.
pub proof fn lemma_replay_deterministic(
    start: crate::market::MarketModel,
    a: Seq<MboMsg>,
    b: Seq<MboMsg>,
)
    requires
        a == b,
    ensures
        replay_from(start, a) == replay_from(start, b),
{
}

/// The total size of the best bids quoted at price `p` by a run of books.
pub open spec fn best_bid_size_at(s: Seq<(u16, BookModel)>, p: i64) -> nat
    decreases s.len(),
{
    if s.len() == 0 {
        0
    } else {
        best_bid_size_at(s.drop_last(), p) + match nth_bid(s.last().1, 0) {
            Some(l) => if l.price == p {
                l.size as nat
            } else {
                0
            },
            None => 0,
        }
    }
}

/// The total count of the best bids quoted at price `p` by a run of books.
pub open spec fn best_bid_count_at(s: Seq<(u16, BookModel)>, p: i64) -> nat
    decreases s.len(),
{
    if s.len() == 0 {
        0
    } else {
        best_bid_count_at(s.drop_last(), p) + match nth_bid(s.last().1, 0) {
            Some(l) => if l.price == p {
                l.count as nat
            } else {
                0
            },
            None => 0,
        }
    }
}

/// The total size of the best asks quoted at price `p` by a run of books.
pub open spec fn best_ask_size_at(s: Seq<(u16, BookModel)>, p: i64) -> nat
    decreases s.len(),
{
    if s.len() == 0 {
        0
    } else {
        best_ask_size_at(s.drop_last(), p) + match nth_ask(s.last().1, 0) {
            Some(l) => if l.price == p {
                l.size as nat
            } else {
                0
            },
            None => 0,
        }
    }
}

/// The total count of the best asks quoted at price `p` by a run of books.
pub open spec fn best_ask_count_at(s: Seq<(u16, BookModel)>, p: i64) -> nat
    decreases s.len(),
{
    if s.len() == 0 {
        0
    } else {
        best_ask_count_at(s.drop_last(), p) + match nth_ask(s.last().1, 0) {
            Some(l) => if l.price == p {
                l.count as nat
            } else {
                0
            },
            None => 0,
        }
    }
}

/// Saturating a partial sum first does not change a saturated total.
proof fn lemma_saturate_add(x: nat, y: u32)
    ensures
        saturate((saturate(x) + y) as nat) == saturate((x + y) as nat),
{
}

/// The aggregated best bid is at the highest best bid of the books, with
/// the sizes and counts of all best bids at that price added up (saturating
/// at `u32::MAX`); it is absent exactly when no book has a bid.
pub proof fn lemma_aggregated_bid(s: Seq<(u16, BookModel)>)
    ensures
        agg_bid(s) is None <==> forall|k: int| 0 <= k < s.len() ==> nth_bid(#[trigger] s[k].1, 0) is None,
        agg_bid(s) matches Some(l) ==> {
            &&& l.size == saturate(best_bid_size_at(s, l.price))
            &&& l.count == saturate(best_bid_count_at(s, l.price))
            &&& forall|k: int|
                0 <= k < s.len() && nth_bid(#[trigger] s[k].1, 0) is Some ==> nth_bid(s[k].1, 0)->Some_0.price
                    <= l.price
        },
    decreases s.len(),
{
    if s.len() > 0 {
        let init = s.drop_last();
        lemma_aggregated_bid(init);
        assert forall|k: int| 0 <= k < init.len() implies #[trigger] init[k] == s[k] by {}
        assert(s.last() == s[s.len() - 1]);
        let b = nth_bid(s.last().1, 0);
        match b {
            None => {
                assert(agg_bid(s) == agg_bid(init));
                if let Some(l) = agg_bid(s) {
                    assert(best_bid_size_at(s, l.price) == best_bid_size_at(init, l.price));
                    assert(best_bid_count_at(s, l.price) == best_bid_count_at(init, l.price));
                }
            },
            Some(bl) => {
                match agg_bid(init) {
                    None => {
                        lemma_no_bid_at(init, bl.price);
                        assert(agg_bid(s) == Some(bl));
                        assert(best_bid_size_at(s, bl.price) == bl.size as nat);
                        assert(best_bid_count_at(s, bl.price) == bl.count as nat);
                    },
                    Some(a) => {
                        if bl.price > a.price {
                            lemma_no_bid_at(init, bl.price);
                            assert(agg_bid(s) == Some(bl));
                            assert(best_bid_size_at(s, bl.price) == bl.size as nat);
                            assert(best_bid_count_at(s, bl.price) == bl.count as nat);
                        } else if bl.price == a.price {
                            lemma_saturate_add(best_bid_size_at(init, a.price), bl.size);
                            lemma_saturate_add(best_bid_count_at(init, a.price), bl.count);
                            assert(best_bid_size_at(s, a.price) == best_bid_size_at(init, a.price) + bl.size);
                            assert(best_bid_count_at(s, a.price) == best_bid_count_at(init, a.price) + bl.count);
                        } else {
                            assert(agg_bid(s) == Some(a));
                            assert(best_bid_size_at(s, a.price) == best_bid_size_at(init, a.price));
                            assert(best_bid_count_at(s, a.price) == best_bid_count_at(init, a.price));
                        }
                    },
                }
            },
        }
        if let Some(lv) = agg_bid(s) {
            if let Some(a) = agg_bid(init) {
                assert(a.price <= lv.price);
            }
            assert forall|k: int|
                0 <= k < s.len() && nth_bid(#[trigger] s[k].1, 0) is Some implies nth_bid(s[k].1, 0)->Some_0.price
                    <= lv.price by {
                if k < init.len() {
                    assert(init[k] == s[k]);
                    assert(nth_bid(init[k].1, 0) is Some);
                }
            }
        }
        if agg_bid(s) is None {
            assert forall|k: int| 0 <= k < s.len() implies nth_bid(#[trigger] s[k].1, 0) is None by {
                if k < init.len() {
                    assert(init[k] == s[k]);
                }
            }
        } else {
            if forall|k: int| 0 <= k < s.len() ==> nth_bid(#[trigger] s[k].1, 0) is None {
                assert(nth_bid(s[s.len() - 1].1, 0) is None);
                assert forall|k: int| 0 <= k < init.len() implies nth_bid(#[trigger] init[k].1, 0) is None by {
                    assert(init[k] == s[k]);
                }
            }
        }
    }
}

/// Where every best bid of a run of books is below `p`, none adds to the
/// size or count at `p`.
proof fn lemma_no_bid_at(s: Seq<(u16, BookModel)>, p: i64)
    requires
        forall|k: int|
            0 <= k < s.len() && nth_bid(#[trigger] s[k].1, 0) is Some ==> nth_bid(s[k].1, 0)->Some_0.price < p,
    ensures
        best_bid_size_at(s, p) == 0,
        best_bid_count_at(s, p) == 0,
    decreases s.len(),
{
    if s.len() > 0 {
        let init = s.drop_last();
        assert forall|k: int| 0 <= k < init.len() implies #[trigger] init[k] == s[k] by {}
        lemma_no_bid_at(init, p);
        assert(s.last() == s[s.len() - 1]);
    }
}

/// The aggregated best ask is at the lowest best ask of the books, with
/// the sizes and counts of all best asks at that price added up (saturating
/// at `u32::MAX`); it is absent exactly when no book has an ask.
pub proof fn lemma_aggregated_ask(s: Seq<(u16, BookModel)>)
    ensures
        agg_ask(s) is None <==> forall|k: int| 0 <= k < s.len() ==> nth_ask(#[trigger] s[k].1, 0) is None,
        agg_ask(s) matches Some(l) ==> {
            &&& l.size == saturate(best_ask_size_at(s, l.price))
            &&& l.count == saturate(best_ask_count_at(s, l.price))
            &&& forall|k: int|
                0 <= k < s.len() && nth_ask(#[trigger] s[k].1, 0) is Some ==> nth_ask(s[k].1, 0)->Some_0.price
                    >= l.price
        },
    decreases s.len(),
{
    if s.len() > 0 {
        let init = s.drop_last();
        lemma_aggregated_ask(init);
        assert forall|k: int| 0 <= k < init.len() implies #[trigger] init[k] == s[k] by {}
        assert(s.last() == s[s.len() - 1]);
        let b = nth_ask(s.last().1, 0);
        match b {
            None => {
                assert(agg_ask(s) == agg_ask(init));
                if let Some(l) = agg_ask(s) {
                    assert(best_ask_size_at(s, l.price) == best_ask_size_at(init, l.price));
                    assert(best_ask_count_at(s, l.price) == best_ask_count_at(init, l.price));
                }
            },
            Some(bl) => {
                match agg_ask(init) {
                    None => {
                        lemma_no_ask_at(init, bl.price);
                        assert(agg_ask(s) == Some(bl));
                        assert(best_ask_size_at(s, bl.price) == bl.size as nat);
                        assert(best_ask_count_at(s, bl.price) == bl.count as nat);
                    },
                    Some(a) => {
                        if bl.price < a.price {
                            lemma_no_ask_at(init, bl.price);
                            assert(agg_ask(s) == Some(bl));
                            assert(best_ask_size_at(s, bl.price) == bl.size as nat);
                            assert(best_ask_count_at(s, bl.price) == bl.count as nat);
                        } else if bl.price == a.price {
                            lemma_saturate_add(best_ask_size_at(init, a.price), bl.size);
                            lemma_saturate_add(best_ask_count_at(init, a.price), bl.count);
                            assert(best_ask_size_at(s, a.price) == best_ask_size_at(init, a.price) + bl.size);
                            assert(best_ask_count_at(s, a.price) == best_ask_count_at(init, a.price) + bl.count);
                        } else {
                            assert(agg_ask(s) == Some(a));
                            assert(best_ask_size_at(s, a.price) == best_ask_size_at(init, a.price));
                            assert(best_ask_count_at(s, a.price) == best_ask_count_at(init, a.price));
                        }
                    },
                }
            },
        }
        if let Some(lv) = agg_ask(s) {
            if let Some(a) = agg_ask(init) {
                assert(a.price >= lv.price);
            }
            assert forall|k: int|
                0 <= k < s.len() && nth_ask(#[trigger] s[k].1, 0) is Some implies nth_ask(s[k].1, 0)->Some_0.price
                    >= lv.price by {
                if k < init.len() {
                    assert(init[k] == s[k]);
                    assert(nth_ask(init[k].1, 0) is Some);
                }
            }
        }
        if agg_ask(s) is None {
            assert forall|k: int| 0 <= k < s.len() implies nth_ask(#[trigger] s[k].1, 0) is None by {
                if k < init.len() {
                    assert(init[k] == s[k]);
                }
            }
        } else {
            if forall|k: int| 0 <= k < s.len() ==> nth_ask(#[trigger] s[k].1, 0) is None {
                assert(nth_ask(s[s.len() - 1].1, 0) is None);
                assert forall|k: int| 0 <= k < init.len() implies nth_ask(#[trigger] init[k].1, 0) is None by {
                    assert(init[k] == s[k]);
                }
            }
        }
    }
}

/// Where every best ask of a run of books is above `p`, none adds to the
/// size or count at `p`.
proof fn lemma_no_ask_at(s: Seq<(u16, BookModel)>, p: i64)
    requires
        forall|k: int|
            0 <= k < s.len() && nth_ask(#[trigger] s[k].1, 0) is Some ==> nth_ask(s[k].1, 0)->Some_0.price > p,
    ensures
        best_ask_size_at(s, p) == 0,
        best_ask_count_at(s, p) == 0,
    decreases s.len(),
{
    if s.len() > 0 {
        let init = s.drop_last();
        assert forall|k: int| 0 <= k < init.len() implies #[trigger] init[k] == s[k] by {}
        lemma_no_ask_at(init, p);
        assert(s.last() == s[s.len() - 1]);
    }
}

} // verus!
