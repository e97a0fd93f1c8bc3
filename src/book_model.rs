//! The mathematical model of a book and of the transition made by each record.
use vstd::prelude::*;
use crate::effect::{CancelKind, EffectModel, ModifyKind, MboError, SkipReason};
use crate::ladder::{prices_above, prices_below};
use crate::price_level::{summary, total_size, saturate, BidAskPair, PriceLevel};
use crate::msg::{action_of, side_of, Action, MboMsg, Side, UNDEF_PRICE};

verus! {

/// A book as maps: the id index and the two sides, each price mapped to its
/// queue of orders in time priority.
pub struct BookModel {
    pub ids: Map<u64, (Side, i64)>,
    pub bids: Map<i64, Seq<MboMsg>>,
    pub asks: Map<i64, Seq<MboMsg>>,
}

/// Whether the order at `i` of a queue is a resting order with id `oid`.
pub open spec fn live_at(q: Seq<MboMsg>, oid: u64, i: int) -> bool {
    0 <= i < q.len() && q[i].order_id == oid && !q[i].spec_is_tob()
}

/// Whether a queue holds a resting order with id `oid`.
pub open spec fn holds_live(q: Seq<MboMsg>, oid: u64) -> bool {
    exists|i: int| live_at(q, oid, i)
}

/// The position of the resting order with id `oid` in a queue.
pub open spec fn live_index(q: Seq<MboMsg>, oid: u64) -> int {
    choose|i: int| live_at(q, oid, i)
}

/// Whether `i` is the first position of a queue whose order has id `oid`.
pub open spec fn first_at(q: Seq<MboMsg>, oid: u64, i: int) -> bool {
    &&& 0 <= i < q.len()
    &&& q[i].order_id == oid
    &&& forall|j: int| 0 <= j < i ==> q[j].order_id != oid
}

/// Whether a queue holds any order with id `oid`.
pub open spec fn holds_id(q: Seq<MboMsg>, oid: u64) -> bool {
    exists|i: int| 0 <= i < q.len() && q[i].order_id == oid
}

/// The first position of a queue whose order has id `oid`.
pub open spec fn first_index(q: Seq<MboMsg>, oid: u64) -> int {
    choose|i: int| first_at(q, oid, i)
}

/// The ids of the orders of a queue, in order.
pub open spec fn queue_ids(q: Seq<MboMsg>) -> Seq<u64> {
    q.map_values(|o: MboMsg| o.order_id)
}

/// The ids of the resting orders of a queue.
pub open spec fn live_ids(q: Seq<MboMsg>) -> Set<u64> {
    Set::new(|oid: u64| holds_live(q, oid))
}

/// The same order with another size.
pub open spec fn resized(o: MboMsg, size: u32) -> MboMsg {
    MboMsg { size, ..o }
}

/// The queue at `p` of a side, or the empty queue where there is none.
pub open spec fn queue_or_empty(lv: Map<i64, Seq<MboMsg>>, p: i64) -> Seq<MboMsg> {
    if lv.contains_key(p) {
        lv[p]
    } else {
        Seq::empty()
    }
}

/// A side with the queue at `p` replaced, and dropped if it became empty.
pub open spec fn put_queue(lv: Map<i64, Seq<MboMsg>>, p: i64, q: Seq<MboMsg>) -> Map<
    i64,
    Seq<MboMsg>,
> {
    if q.len() == 0 {
        lv.remove(p)
    } else {
        lv.insert(p, q)
    }
}

/// Whether a price is the highest of a set.
pub open spec fn is_max(s: Set<i64>, p: i64) -> bool {
    s.contains(p) && forall|q: i64| s.contains(q) ==> q <= p
}

/// Whether a price is the lowest of a set.
pub open spec fn is_min(s: Set<i64>, p: i64) -> bool {
    s.contains(p) && forall|q: i64| s.contains(q) ==> p <= q
}

/// The highest price of a set.
pub open spec fn max_price(s: Set<i64>) -> i64 {
    choose|p: i64| is_max(s, p)
}

/// The lowest price of a set.
pub open spec fn min_price(s: Set<i64>) -> i64 {
    choose|p: i64| is_min(s, p)
}

/// The id index without the entries of one side.
pub open spec fn ids_off_side(ids: Map<u64, (Side, i64)>, s: Side) -> Map<u64, (Side, i64)> {
    Map::new(|k: u64| ids.contains_key(k) && ids[k].0 != s, |k: u64| ids[k])
}

impl BookModel {
    /// The book with no orders.
    pub open spec fn empty() -> BookModel {
        BookModel { ids: Map::empty(), bids: Map::empty(), asks: Map::empty() }
    }

    /// The price levels of one side.
    pub open spec fn levels(self, s: Side) -> Map<i64, Seq<MboMsg>> {
        match s {
            Side::Bid => self.bids,
            Side::Ask => self.asks,
        }
    }

    /// The book with one side replaced.
    pub open spec fn with_levels(self, s: Side, lv: Map<i64, Seq<MboMsg>>) -> BookModel {
        match s {
            Side::Bid => BookModel { ids: self.ids, bids: lv, asks: self.asks },
            Side::Ask => BookModel { ids: self.ids, bids: self.bids, asks: lv },
        }
    }

    /// The book with another id index.
    pub open spec fn with_ids(self, ids: Map<u64, (Side, i64)>) -> BookModel {
        BookModel { ids, bids: self.bids, asks: self.asks }
    }

    /// Whether the best bid is at or above the best ask.
    pub open spec fn is_crossed(self) -> bool {
        &&& self.bids.dom().contains(max_price(self.bids.dom()))
        &&& self.asks.dom().contains(min_price(self.asks.dom()))
        &&& max_price(self.bids.dom()) >= min_price(self.asks.dom())
    }

    /// Every bid is priced below every ask.
    pub open spec fn not_crossed(self) -> bool {
        forall|b: i64, a: i64|
            self.bids.contains_key(b) && self.asks.contains_key(a) ==> b < a
    }
}

/// The rules of one side: every level is non-empty; every resting order in a
/// level is indexed at that level; no two resting orders of a level share an
/// id.
pub open spec fn side_wf(lv: Map<i64, Seq<MboMsg>>, ids: Map<u64, (Side, i64)>, s: Side) -> bool {
    &&& lv.dom().finite()
    &&& forall|p: i64| #[trigger] lv.contains_key(p) ==> lv[p].len() > 0
    &&& forall|p: i64, i: int|
        lv.contains_key(p) && 0 <= i < lv[p].len() && !(#[trigger] lv[p][i]).spec_is_tob() ==> {
            &&& ids.contains_key(lv[p][i].order_id)
            &&& ids[lv[p][i].order_id] == (s, p)
        }
    &&& forall|p: i64, i: int, j: int|
        lv.contains_key(p) && 0 <= i < j < lv[p].len() && !(#[trigger] lv[p][i]).spec_is_tob()
            && !(#[trigger] lv[p][j]).spec_is_tob() ==> lv[p][i].order_id != lv[p][j].order_id
}

impl BookModel {
    /// The book's rules: both sides keep [`side_wf`], and every indexed id
    /// names a level that holds a resting order with that id.
    pub open spec fn wf(self) -> bool {
        &&& side_wf(self.bids, self.ids, Side::Bid)
        &&& side_wf(self.asks, self.ids, Side::Ask)
        &&& forall|oid: u64| #[trigger]
            self.ids.contains_key(oid) ==> {
                &&& self.levels(self.ids[oid].0).contains_key(self.ids[oid].1)
                &&& holds_live(self.levels(self.ids[oid].0)[self.ids[oid].1], oid)
            }
    }
}

/// The two levels evicted by one round of crossed-book repair, bid level
/// first.
pub open spec fn evicted(m: BookModel) -> Seq<MboMsg> {
    m.bids[max_price(m.bids.dom())] + m.asks[min_price(m.asks.dom())]
}

/// One round of crossed-book repair: the best bid level and the best ask
/// level leave, with the index entries of their resting orders.
pub open spec fn evict_top(m: BookModel) -> BookModel {
    let b = max_price(m.bids.dom());
    let a = min_price(m.asks.dom());
    BookModel {
        ids: m.ids.remove_keys(live_ids(m.bids[b]) + live_ids(m.asks[a])),
        bids: m.bids.remove(b),
        asks: m.asks.remove(a),
    }
}

/// The effect that records one round of crossed-book repair.
pub open spec fn eviction_effect(m: BookModel) -> EffectModel {
    EffectModel::CrossedResolved {
        removed_bid_price: max_price(m.bids.dom()),
        removed_ask_price: min_price(m.asks.dom()),
        removed_order_ids: queue_ids(evicted(m)),
    }
}

/// Crossed-book repair: rounds of eviction until the book is not crossed,
/// with one effect per round.
pub open spec fn uncross(m: BookModel) -> (BookModel, Seq<EffectModel>)
    decreases m.bids.dom().len(),
{
    if m.bids.dom().finite() && m.is_crossed() {
        let (r, fx) = uncross(evict_top(m));
        (r, seq![eviction_effect(m)] + fx)
    } else {
        (m, Seq::empty())
    }
}

/// An Add: a top-of-book record replaces its whole side; a resting order
/// joins the tail of its level, after which the book is repaired.
pub open spec fn add_step(m: BookModel, msg: MboMsg, s: Side) -> Result<
    (BookModel, Seq<EffectModel>),
    MboError,
> {
    if msg.spec_is_tob() {
        let cleared = m.with_levels(s, Map::empty()).with_ids(ids_off_side(m.ids, s));
        if msg.price == UNDEF_PRICE {
            Ok((cleared, seq![EffectModel::Cleared]))
        } else {
            Ok(
                (
                    cleared.with_levels(s, Map::empty().insert(msg.price, seq![msg])),
                    seq![EffectModel::Added { order_id: msg.order_id, side: s, price: msg.price }],
                ),
            )
        }
    } else if msg.price == UNDEF_PRICE {
        Err(MboError::InvalidPrice)
    } else if m.ids.contains_key(msg.order_id) {
        Err(MboError::DuplicateOrder)
    } else {
        let lv = m.levels(s);
        let joined = m.with_levels(
            s,
            lv.insert(msg.price, queue_or_empty(lv, msg.price).push(msg)),
        ).with_ids(m.ids.insert(msg.order_id, (s, msg.price)));
        let (r, fx) = uncross(joined);
        Ok(
            (
                r,
                seq![EffectModel::Added { order_id: msg.order_id, side: s, price: msg.price }]
                    + fx,
            ),
        )
    }
}

/// A Cancel: takes `msg.size` off the first order of the level with the
/// record's id; an order brought to zero leaves its level, and its level
/// leaves the side when it empties.
pub open spec fn cancel_step(m: BookModel, msg: MboMsg, s: Side) -> Result<
    (BookModel, Seq<EffectModel>),
    MboError,
> {
    let lv = m.levels(s);
    let oid = msg.order_id;
    if !lv.contains_key(msg.price) || !holds_id(lv[msg.price], oid) {
        Ok((m, seq![EffectModel::Skipped { reason: SkipReason::PreSnapshotCancel }]))
    } else {
        let q = lv[msg.price];
        let i = first_index(q, oid);
        let e = q[i];
        if e.size < msg.size {
            Err(MboError::CancelExceedsSize)
        } else if e.size > msg.size {
            Ok(
                (
                    m.with_levels(
                        s,
                        lv.insert(msg.price, q.update(i, resized(e, (e.size - msg.size) as u32))),
                    ),
                    seq![EffectModel::Canceled { order_id: oid, extent: CancelKind::Partial }],
                ),
            )
        } else {
            let ids = if e.spec_is_tob() {
                m.ids
            } else {
                m.ids.remove(oid)
            };
            Ok(
                (
                    m.with_levels(s, put_queue(lv, msg.price, q.remove(i))).with_ids(ids),
                    seq![EffectModel::Canceled { order_id: oid, extent: CancelKind::Full }],
                ),
            )
        }
    }
}

/// A Modify: the indexed order takes the record's size; it keeps its place
/// when side and price are unchanged and the size did not grow, and
/// otherwise leaves its level and joins the tail of the record's level as
/// the record itself.
pub open spec fn modify_step(m: BookModel, msg: MboMsg, s: Side) -> Result<
    (BookModel, Seq<EffectModel>),
    MboError,
> {
    let oid = msg.order_id;
    if !m.ids.contains_key(oid) {
        Ok((m, seq![EffectModel::Skipped { reason: SkipReason::PreSnapshotModify }]))
    } else {
        let ps = m.ids[oid].0;
        let pp = m.ids[oid].1;
        let lv = m.levels(ps);
        if !lv.contains_key(pp) || !holds_live(lv[pp], oid) {
            Err(MboError::InternalInconsistency)
        } else {
            let q = lv[pp];
            let i = live_index(q, oid);
            let e = q[i];
            if ps == s && pp == msg.price && msg.size <= e.size {
                Ok(
                    (
                        m.with_levels(ps, lv.insert(pp, q.update(i, resized(e, msg.size)))),
                        seq![
                            EffectModel::Modified {
                                order_id: oid,
                                priority: ModifyKind::KeptPriority,
                                prev_price: pp,
                                new_price: msg.price,
                            },
                        ],
                    ),
                )
            } else {
                let left = m.with_levels(ps, put_queue(lv, pp, q.remove(i)));
                let dl = left.levels(s);
                let ids = if msg.spec_is_tob() {
                    m.ids.remove(oid)
                } else {
                    m.ids.insert(oid, (s, msg.price))
                };
                Ok(
                    (
                        left.with_levels(
                            s,
                            dl.insert(msg.price, queue_or_empty(dl, msg.price).push(msg)),
                        ).with_ids(ids),
                        seq![
                            EffectModel::Modified {
                                order_id: oid,
                                priority: ModifyKind::Requeued,
                                prev_price: pp,
                                new_price: msg.price,
                            },
                        ],
                    ),
                )
            }
        }
    }
}

/// The transition made by one record: the next book and the effects, or
/// the error that stops the record.
pub open spec fn step(m: BookModel, msg: MboMsg) -> Result<(BookModel, Seq<EffectModel>), MboError> {
    match action_of(msg.action) {
        None => Err(MboError::InvalidAction),
        Some(Action::Clear) => Ok((BookModel::empty(), seq![EffectModel::Cleared])),
        Some(Action::Add) => match side_of(msg.side) {
            None => Err(MboError::InvalidSide),
            Some(s) => add_step(m, msg, s),
        },
        Some(Action::Cancel) => match side_of(msg.side) {
            None => Err(MboError::InvalidSide),
            Some(s) => cancel_step(m, msg, s),
        },
        Some(Action::Modify) => match side_of(msg.side) {
            None => Err(MboError::InvalidSide),
            Some(s) => modify_step(m, msg, s),
        },
        Some(_) => Ok((m, seq![EffectModel::NoOp])),
    }
}

/// The summary of the bid level with `i` bid prices above it, if there is one.
pub open spec fn nth_bid(m: BookModel, i: int) -> Option<PriceLevel> {
    if exists|p: i64| m.bids.contains_key(p) && prices_above(m.bids.dom(), p).len() == i {
        let p = choose|p: i64| m.bids.contains_key(p) && prices_above(m.bids.dom(), p).len() == i;
        Some(summary(p, m.bids[p]))
    } else {
        None
    }
}

/// The summary of the ask level with `i` ask prices below it, if there is one.
pub open spec fn nth_ask(m: BookModel, i: int) -> Option<PriceLevel> {
    if exists|p: i64| m.asks.contains_key(p) && prices_below(m.asks.dom(), p).len() == i {
        let p = choose|p: i64| m.asks.contains_key(p) && prices_below(m.asks.dom(), p).len() == i;
        Some(summary(p, m.asks[p]))
    } else {
        None
    }
}

/// The summary of the level at price `p` of a side, if there is one.
pub open spec fn level_at(lv: Map<i64, Seq<MboMsg>>, p: i64) -> Option<PriceLevel> {
    if lv.contains_key(p) {
        Some(summary(p, lv[p]))
    } else {
        None
    }
}

/// Row `i` of a snapshot.
pub open spec fn snapshot_row(m: BookModel, i: int) -> BidAskPair {
    BidAskPair {
        bid_px: if let Some(l) = nth_bid(m, i) { l.price } else { 0 },
        ask_px: if let Some(l) = nth_ask(m, i) { l.price } else { 0 },
        bid_sz: if let Some(l) = nth_bid(m, i) { l.size } else { 0 },
        ask_sz: if let Some(l) = nth_ask(m, i) { l.size } else { 0 },
        bid_ct: if let Some(l) = nth_bid(m, i) { l.count } else { 0 },
        ask_ct: if let Some(l) = nth_ask(m, i) { l.count } else { 0 },
    }
}

/// The resting order indexed under `oid`, as stored.
pub open spec fn indexed_order(m: BookModel, oid: u64) -> Option<MboMsg> {
    if m.ids.contains_key(oid) {
        let q = m.levels(m.ids[oid].0)[m.ids[oid].1];
        Some(q[live_index(q, oid)])
    } else {
        None
    }
}

/// The total size ahead of the resting order indexed under `oid` in its level.
pub open spec fn size_ahead(m: BookModel, oid: u64) -> Option<u32> {
    if m.ids.contains_key(oid) {
        let q = m.levels(m.ids[oid].0)[m.ids[oid].1];
        Some(saturate(total_size(q.take(live_index(q, oid)))))
    } else {
        None
    }
}

/// Whether no two resting orders of a queue share an id.
pub open spec fn live_ids_unique(q: Seq<MboMsg>) -> bool {
    forall|i: int, j: int|
        0 <= i < j < q.len() && !(#[trigger] q[i]).spec_is_tob() && !(#[trigger] q[j]).spec_is_tob()
            ==> q[i].order_id != q[j].order_id
}

/// The first position with an id is the one `first_index` names.
pub proof fn lemma_first_index(q: Seq<MboMsg>, oid: u64, i: int)
    requires
        first_at(q, oid, i),
    ensures
        first_index(q, oid) == i,
{
    let k = first_index(q, oid);
    assert(first_at(q, oid, k));
    if k < i {
        assert(q[k].order_id != oid);
    }
    if i < k {
        assert(q[i].order_id != oid);
    }
}

/// In a queue whose resting ids are distinct, the resting order with an id is
/// the one `live_index` names.
pub proof fn lemma_live_index(q: Seq<MboMsg>, oid: u64, i: int)
    requires
        live_at(q, oid, i),
        live_ids_unique(q),
    ensures
        live_index(q, oid) == i,
{
    let k = live_index(q, oid);
    assert(live_at(q, oid, k));
    if k < i {
        assert(q[k].order_id != q[i].order_id);
    }
    if i < k {
        assert(q[i].order_id != q[k].order_id);
    }
}

/// A highest price of a set is the one `max_price` names.
pub proof fn lemma_max_price(s: Set<i64>, p: i64)
    requires
        is_max(s, p),
    ensures
        max_price(s) == p,
{
    let k = max_price(s);
    assert(is_max(s, k));
}

/// A lowest price of a set is the one `min_price` names.
pub proof fn lemma_min_price(s: Set<i64>, p: i64)
    requires
        is_min(s, p),
    ensures
        min_price(s) == p,
{
    let k = min_price(s);
    assert(is_min(s, k));
}

/// A finite non-empty set of prices has a highest and a lowest.
pub proof fn lemma_extremes_exist(s: Set<i64>)
    requires
        s.finite(),
        s.len() > 0,
    ensures
        is_max(s, max_price(s)),
        is_min(s, min_price(s)),
    decreases s.len(),
{
    let x = s.choose();
    assert(s.contains(x));
    let rest = s.remove(x);
    if rest.len() == 0 {
        assert(is_max(s, x)) by {
            assert forall|q: i64| s.contains(q) implies q <= x by {
                if q != x {
                    assert(rest.contains(q));
                }
            }
        }
        assert(is_min(s, x)) by {
            assert forall|q: i64| s.contains(q) implies x <= q by {
                if q != x {
                    assert(rest.contains(q));
                }
            }
        }
        lemma_max_price(s, x);
        lemma_min_price(s, x);
    } else {
        lemma_extremes_exist(rest);
        let a = max_price(rest);
        let b = min_price(rest);
        let hi = if a > x { a } else { x };
        let lo = if b < x { b } else { x };
        assert(is_max(s, hi)) by {
            assert forall|q: i64| s.contains(q) implies q <= hi by {
                if q != x {
                    assert(rest.contains(q));
                }
            }
        }
        assert(is_min(s, lo)) by {
            assert forall|q: i64| s.contains(q) implies lo <= q by {
                if q != x {
                    assert(rest.contains(q));
                }
            }
        }
        lemma_max_price(s, hi);
        lemma_min_price(s, lo);
    }
}

/// The index after the order at `i` of queue `q` leaves: a resting order's
/// entry goes with it.
pub open spec fn ids_without(ids: Map<u64, (Side, i64)>, o: MboMsg) -> Map<u64, (Side, i64)> {
    if o.spec_is_tob() {
        ids
    } else {
        ids.remove(o.order_id)
    }
}

/// Taking one order out of its level keeps the book's rules.
pub proof fn lemma_take_out_wf(m: BookModel, s: Side, p: i64, i: int)
    requires
        m.wf(),
        m.levels(s).contains_key(p),
        0 <= i < m.levels(s)[p].len(),
    ensures
        m.with_levels(s, put_queue(m.levels(s), p, m.levels(s)[p].remove(i))).with_ids(
            ids_without(m.ids, m.levels(s)[p][i]),
        ).wf(),
{
    let lv = m.levels(s);
    let q = lv[p];
    let o = q[i];
    let q2 = q.remove(i);
    let lv2 = put_queue(lv, p, q2);
    let ids2 = ids_without(m.ids, o);
    let r = m.with_levels(s, lv2).with_ids(ids2);
    // A resting order other than `o` never carries `o`'s id.
    assert forall|t: Side, pq: i64, j: int|
        m.levels(t).contains_key(pq) && 0 <= j < m.levels(t)[pq].len()
            && !(#[trigger] m.levels(t)[pq][j]).spec_is_tob() && !o.spec_is_tob() && !(t == s
            && pq == p && j == i) implies m.levels(t)[pq][j].order_id != o.order_id by {
        if m.levels(t)[pq][j].order_id == o.order_id {
            assert(m.ids[o.order_id] == (s, p));
            assert(m.ids[o.order_id] == (t, pq));
            if j < i {
                assert(q[j].order_id != q[i].order_id);
            } else {
                assert(q[i].order_id != q[j].order_id);
            }
        }
    }
    assert forall|t: Side| side_wf(#[trigger] r.levels(t), r.ids, t) by {
        let l = r.levels(t);
        assert(l.dom().finite()) by {
            if t == s {
                assert(lv2.dom().finite());
            }
        }
        assert forall|pq: i64, j: int|
            l.contains_key(pq) && 0 <= j < l[pq].len() && !(#[trigger] l[pq][j]).spec_is_tob() implies {
            &&& r.ids.contains_key(l[pq][j].order_id)
            &&& r.ids[l[pq][j].order_id] == (t, pq)
        } by {
            if t == s && pq == p {
                let k = if j < i { j } else { j + 1 };
                assert(l[pq][j] == q[k]);
                assert(m.levels(t)[pq][k] == q[k]);
            } else {
                assert(l[pq] == m.levels(t)[pq]);
            }
        }
        assert forall|pq: i64, j: int, k: int|
            l.contains_key(pq) && 0 <= j < k < l[pq].len() && !(#[trigger] l[pq][j]).spec_is_tob()
                && !(#[trigger] l[pq][k]).spec_is_tob() implies l[pq][j].order_id != l[pq][k].order_id by {
            if t == s && pq == p {
                let jj = if j < i { j } else { j + 1 };
                let kk = if k < i { k } else { k + 1 };
                assert(l[pq][j] == q[jj]);
                assert(l[pq][k] == q[kk]);
            } else {
                assert(l[pq] == m.levels(t)[pq]);
            }
        }
    }
    assert(side_wf(r.levels(Side::Bid), r.ids, Side::Bid));
    assert(side_wf(r.levels(Side::Ask), r.ids, Side::Ask));
    assert forall|oid: u64| #[trigger] r.ids.contains_key(oid) implies {
        &&& r.levels(r.ids[oid].0).contains_key(r.ids[oid].1)
        &&& holds_live(r.levels(r.ids[oid].0)[r.ids[oid].1], oid)
    } by {
        let t = m.ids[oid].0;
        let pq = m.ids[oid].1;
        let j = choose|j: int| live_at(m.levels(t)[pq], oid, j);
        assert(r.ids[oid] == m.ids[oid]);
        if t == s && pq == p {
            assert(j != i);
            let jj = if j < i { j } else { j - 1 };
            assert(q2[jj] == q[j]);
            assert(live_at(q2, oid, jj));
            assert(r.levels(t)[pq] == q2);
        } else {
            assert(r.levels(t)[pq] == m.levels(t)[pq]);
            assert(live_at(r.levels(t)[pq], oid, j));
        }
    }
}

/// The index after `o` joins the level at `p` of side `s`: a resting order
/// is entered at that level.
pub open spec fn ids_with(ids: Map<u64, (Side, i64)>, o: MboMsg, s: Side, p: i64) -> Map<
    u64,
    (Side, i64),
> {
    if o.spec_is_tob() {
        ids
    } else {
        ids.insert(o.order_id, (s, p))
    }
}

/// Appending an order whose id is not indexed keeps the book's rules.
pub proof fn lemma_join_wf(m: BookModel, s: Side, p: i64, o: MboMsg)
    requires
        m.wf(),
        o.spec_is_tob() || !m.ids.contains_key(o.order_id),
    ensures
        m.with_levels(s, m.levels(s).insert(p, queue_or_empty(m.levels(s), p).push(o))).with_ids(
            ids_with(m.ids, o, s, p),
        ).wf(),
{
    let lv = m.levels(s);
    let q = queue_or_empty(lv, p);
    let q2 = q.push(o);
    let ids2 = ids_with(m.ids, o, s, p);
    let r = m.with_levels(s, lv.insert(p, q2)).with_ids(ids2);
    // No resting order carries the id of a resting `o`.
    assert forall|t: Side, pq: i64, j: int|
        m.levels(t).contains_key(pq) && 0 <= j < m.levels(t)[pq].len()
            && !(#[trigger] m.levels(t)[pq][j]).spec_is_tob() && !o.spec_is_tob() implies m.levels(
        t,
    )[pq][j].order_id != o.order_id by {
        assert(m.ids.contains_key(m.levels(t)[pq][j].order_id));
    }
    assert forall|t: Side| side_wf(#[trigger] r.levels(t), r.ids, t) by {
        let l = r.levels(t);
        assert forall|pq: i64, j: int|
            l.contains_key(pq) && 0 <= j < l[pq].len() && !(#[trigger] l[pq][j]).spec_is_tob() implies {
            &&& r.ids.contains_key(l[pq][j].order_id)
            &&& r.ids[l[pq][j].order_id] == (t, pq)
        } by {
            if t == s && pq == p {
                if j < q.len() {
                    assert(l[pq][j] == q[j]);
                    assert(lv.contains_key(p));
                    assert(m.levels(t)[pq][j] == q[j]);
                }
            } else {
                assert(l[pq] == m.levels(t)[pq]);
            }
        }
        assert forall|pq: i64, j: int, k: int|
            l.contains_key(pq) && 0 <= j < k < l[pq].len() && !(#[trigger] l[pq][j]).spec_is_tob()
                && !(#[trigger] l[pq][k]).spec_is_tob() implies l[pq][j].order_id != l[pq][k].order_id by {
            if t == s && pq == p {
                assert(lv.contains_key(p));
                assert(l[pq][j] == q[j]);
                assert(m.levels(t)[pq][j] == q[j]);
                if k < q.len() {
                    assert(m.levels(t)[pq][k] == q[k]);
                }
            } else {
                assert(l[pq] == m.levels(t)[pq]);
            }
        }
    }
    assert(side_wf(r.levels(Side::Bid), r.ids, Side::Bid));
    assert(side_wf(r.levels(Side::Ask), r.ids, Side::Ask));
    assert forall|oid: u64| #[trigger] r.ids.contains_key(oid) implies {
        &&& r.levels(r.ids[oid].0).contains_key(r.ids[oid].1)
        &&& holds_live(r.levels(r.ids[oid].0)[r.ids[oid].1], oid)
    } by {
        if !o.spec_is_tob() && oid == o.order_id {
            assert(live_at(q2, oid, q.len() as int));
        } else {
            let t = m.ids[oid].0;
            let pq = m.ids[oid].1;
            let j = choose|j: int| live_at(m.levels(t)[pq], oid, j);
            if t == s && pq == p {
                assert(q2[j] == q[j]);
                assert(live_at(q2, oid, j));
            } else {
                assert(live_at(r.levels(t)[pq], oid, j));
            }
        }
    }
}

/// Changing the size of one order keeps the book's rules.
pub proof fn lemma_resize_wf(m: BookModel, s: Side, p: i64, i: int, size: u32)
    requires
        m.wf(),
        m.levels(s).contains_key(p),
        0 <= i < m.levels(s)[p].len(),
    ensures
        m.with_levels(
            s,
            m.levels(s).insert(p, m.levels(s)[p].update(i, resized(m.levels(s)[p][i], size))),
        ).wf(),
{
    let lv = m.levels(s);
    let q = lv[p];
    let q2 = q.update(i, resized(q[i], size));
    let r = m.with_levels(s, lv.insert(p, q2));
    assert forall|t: Side| side_wf(#[trigger] r.levels(t), r.ids, t) by {
        let l = r.levels(t);
        assert forall|pq: i64, j: int|
            l.contains_key(pq) && 0 <= j < l[pq].len() && !(#[trigger] l[pq][j]).spec_is_tob() implies {
            &&& r.ids.contains_key(l[pq][j].order_id)
            &&& r.ids[l[pq][j].order_id] == (t, pq)
        } by {
            if t == s && pq == p {
                assert(m.levels(t)[pq][j].order_id == l[pq][j].order_id);
                assert(m.levels(t)[pq][j].flags == l[pq][j].flags);
            } else {
                assert(l[pq] == m.levels(t)[pq]);
            }
        }
        assert forall|pq: i64, j: int, k: int|
            l.contains_key(pq) && 0 <= j < k < l[pq].len() && !(#[trigger] l[pq][j]).spec_is_tob()
                && !(#[trigger] l[pq][k]).spec_is_tob() implies l[pq][j].order_id != l[pq][k].order_id by {
            if t == s && pq == p {
                assert(m.levels(t)[pq][j].order_id == l[pq][j].order_id);
                assert(m.levels(t)[pq][j].flags == l[pq][j].flags);
                assert(m.levels(t)[pq][k].order_id == l[pq][k].order_id);
                assert(m.levels(t)[pq][k].flags == l[pq][k].flags);
            } else {
                assert(l[pq] == m.levels(t)[pq]);
            }
        }
    }
    assert(side_wf(r.levels(Side::Bid), r.ids, Side::Bid));
    assert(side_wf(r.levels(Side::Ask), r.ids, Side::Ask));
    assert forall|oid: u64| #[trigger] r.ids.contains_key(oid) implies {
        &&& r.levels(r.ids[oid].0).contains_key(r.ids[oid].1)
        &&& holds_live(r.levels(r.ids[oid].0)[r.ids[oid].1], oid)
    } by {
        let t = m.ids[oid].0;
        let pq = m.ids[oid].1;
        let j = choose|j: int| live_at(m.levels(t)[pq], oid, j);
        if t == s && pq == p {
            assert(q2[j].order_id == q[j].order_id && q2[j].flags == q[j].flags);
            assert(live_at(q2, oid, j));
        } else {
            assert(live_at(r.levels(t)[pq], oid, j));
        }
    }
}

/// One round of crossed-book repair keeps the book's rules.
pub proof fn lemma_evict_wf(m: BookModel)
    requires
        m.wf(),
        m.is_crossed(),
    ensures
        evict_top(m).wf(),
{
    let b = max_price(m.bids.dom());
    let a = min_price(m.asks.dom());
    let gone = live_ids(m.bids[b]) + live_ids(m.asks[a]);
    let r = evict_top(m);
    // An id taken out of the index belonged to one of the two levels.
    assert forall|oid: u64| #[trigger] gone.contains(oid) && m.ids.contains_key(oid) implies (
    m.ids[oid] == (Side::Bid, b) || m.ids[oid] == (Side::Ask, a)) by {
        if live_ids(m.bids[b]).contains(oid) {
            let j = choose|j: int| live_at(m.bids[b], oid, j);
            assert(m.bids[b][j].order_id == oid);
        } else {
            let j = choose|j: int| live_at(m.asks[a], oid, j);
            assert(m.asks[a][j].order_id == oid);
        }
    }
    assert forall|t: Side| side_wf(#[trigger] r.levels(t), r.ids, t) by {
        let l = r.levels(t);
        assert forall|pq: i64, j: int|
            l.contains_key(pq) && 0 <= j < l[pq].len() && !(#[trigger] l[pq][j]).spec_is_tob() implies {
            &&& r.ids.contains_key(l[pq][j].order_id)
            &&& r.ids[l[pq][j].order_id] == (t, pq)
        } by {
            assert(l[pq] == m.levels(t)[pq]);
            let oid = l[pq][j].order_id;
            assert(m.ids[oid] == (t, pq));
            if gone.contains(oid) {
                assert(m.ids[oid] == (Side::Bid, b) || m.ids[oid] == (Side::Ask, a));
            }
        }
        assert forall|pq: i64, j: int, k: int|
            l.contains_key(pq) && 0 <= j < k < l[pq].len() && !(#[trigger] l[pq][j]).spec_is_tob()
                && !(#[trigger] l[pq][k]).spec_is_tob() implies l[pq][j].order_id != l[pq][k].order_id by {
            assert(l[pq] == m.levels(t)[pq]);
        }
    }
    assert(side_wf(r.levels(Side::Bid), r.ids, Side::Bid));
    assert(side_wf(r.levels(Side::Ask), r.ids, Side::Ask));
    assert forall|oid: u64| #[trigger] r.ids.contains_key(oid) implies {
        &&& r.levels(r.ids[oid].0).contains_key(r.ids[oid].1)
        &&& holds_live(r.levels(r.ids[oid].0)[r.ids[oid].1], oid)
    } by {
        let t = m.ids[oid].0;
        let pq = m.ids[oid].1;
        let j = choose|j: int| live_at(m.levels(t)[pq], oid, j);
        if t == Side::Bid && pq == b {
            assert(live_ids(m.bids[b]).contains(oid));
        }
        if t == Side::Ask && pq == a {
            assert(live_ids(m.asks[a]).contains(oid));
        }
        assert(live_at(r.levels(t)[pq], oid, j));
    }
}

/// Crossed-book repair keeps the book's rules.
pub proof fn lemma_uncross_wf(m: BookModel)
    requires
        m.wf(),
    ensures
        uncross(m).0.wf(),
    decreases m.bids.dom().len(),
{
    if m.bids.dom().finite() && m.is_crossed() {
        lemma_evict_wf(m);
        assert(evict_top(m).bids.dom().len() < m.bids.dom().len());
        lemma_uncross_wf(evict_top(m));
    }
}

/// Replacing a side by an empty one, with its index entries, keeps the
/// book's rules.
pub proof fn lemma_clear_side_wf(m: BookModel, s: Side)
    requires
        m.wf(),
    ensures
        m.with_levels(s, Map::empty()).with_ids(ids_off_side(m.ids, s)).wf(),
{
    let r = m.with_levels(s, Map::empty()).with_ids(ids_off_side(m.ids, s));
    assert forall|t: Side| side_wf(#[trigger] r.levels(t), r.ids, t) by {
        let l = r.levels(t);
        if t == s {
            assert(l.dom() =~= Set::empty());
        } else {
            assert(l == m.levels(t));
        }
    }
    assert(side_wf(r.levels(Side::Bid), r.ids, Side::Bid));
    assert(side_wf(r.levels(Side::Ask), r.ids, Side::Ask));
}

/// Every transition keeps the book's rules.
pub proof fn lemma_step_wf(m: BookModel, msg: MboMsg)
    requires
        m.wf(),
    ensures
        step(m, msg) matches Ok((r, _)) ==> r.wf(),
{
    match action_of(msg.action) {
        Some(Action::Clear) => {
            let e = BookModel::empty();
            assert(e.bids.dom() =~= Set::empty());
            assert(e.asks.dom() =~= Set::empty());
        },
        Some(Action::Add) => {
            if let Some(s) = side_of(msg.side) {
                lemma_add_wf(m, msg, s);
            }
        },
        Some(Action::Cancel) => {
            if let Some(s) = side_of(msg.side) {
                lemma_cancel_wf(m, msg, s);
            }
        },
        Some(Action::Modify) => {
            if let Some(s) = side_of(msg.side) {
                lemma_modify_wf(m, msg, s);
            }
        },
        _ => {},
    }
}

/// An Add keeps the book's rules.
pub proof fn lemma_add_wf(m: BookModel, msg: MboMsg, s: Side)
    requires
        m.wf(),
    ensures
        add_step(m, msg, s) matches Ok((r, _)) ==> r.wf(),
{
    if msg.spec_is_tob() {
        lemma_clear_side_wf(m, s);
        let cleared = m.with_levels(s, Map::empty()).with_ids(ids_off_side(m.ids, s));
        if msg.price != UNDEF_PRICE {
            lemma_join_wf(cleared, s, msg.price, msg);
            assert(queue_or_empty(cleared.levels(s), msg.price) =~= Seq::empty());
            assert(seq![msg] =~= Seq::<MboMsg>::empty().push(msg));
            assert(cleared.levels(s).insert(msg.price, seq![msg]) =~= Map::empty().insert(msg.price, seq![msg]));
        }
    } else if msg.price != UNDEF_PRICE && !m.ids.contains_key(msg.order_id) {
        lemma_join_wf(m, s, msg.price, msg);
        let lv = m.levels(s);
        let joined = m.with_levels(
            s,
            lv.insert(msg.price, queue_or_empty(lv, msg.price).push(msg)),
        ).with_ids(m.ids.insert(msg.order_id, (s, msg.price)));
        lemma_uncross_wf(joined);
    }
}

/// A Cancel keeps the book's rules.
pub proof fn lemma_cancel_wf(m: BookModel, msg: MboMsg, s: Side)
    requires
        m.wf(),
    ensures
        cancel_step(m, msg, s) matches Ok((r, _)) ==> r.wf(),
{
    let lv = m.levels(s);
    let oid = msg.order_id;
    if lv.contains_key(msg.price) && holds_id(lv[msg.price], oid) {
        let q = lv[msg.price];
        let w = choose|w: int| 0 <= w < q.len() && q[w].order_id == oid;
        lemma_first_exists(q, oid, w);
        let i = first_index(q, oid);
        let e = q[i];
        if e.size > msg.size {
            lemma_resize_wf(m, s, msg.price, i, (e.size - msg.size) as u32);
        } else if e.size == msg.size {
            lemma_take_out_wf(m, s, msg.price, i);
        }
    }
}

/// A Modify keeps the book's rules.
pub proof fn lemma_modify_wf(m: BookModel, msg: MboMsg, s: Side)
    requires
        m.wf(),
    ensures
        modify_step(m, msg, s) matches Ok((r, _)) ==> r.wf(),
{
    let oid = msg.order_id;
    if m.ids.contains_key(oid) {
        let ps = m.ids[oid].0;
        let pp = m.ids[oid].1;
        let lv = m.levels(ps);
        let q = lv[pp];
        let i = live_index(q, oid);
        let e = q[i];
        if ps == s && pp == msg.price && msg.size <= e.size {
            lemma_resize_wf(m, ps, pp, i, msg.size);
        } else {
            lemma_take_out_wf(m, ps, pp, i);
            let left = m.with_levels(ps, put_queue(lv, pp, q.remove(i))).with_ids(m.ids.remove(oid));
            lemma_join_wf(left, s, msg.price, msg);
            let dl = left.levels(s);
            let ids = if msg.spec_is_tob() {
                m.ids.remove(oid)
            } else {
                m.ids.insert(oid, (s, msg.price))
            };
            assert(ids_with(m.ids.remove(oid), msg, s, msg.price) =~= ids);
        }
    }
}

/// Where a queue holds an order with id `oid`, a first such position exists.
pub proof fn lemma_first_exists(q: Seq<MboMsg>, oid: u64, w: int)
    requires
        0 <= w < q.len(),
        q[w].order_id == oid,
    ensures
        first_at(q, oid, first_index(q, oid)),
    decreases w,
{
    if exists|j: int| 0 <= j < w && q[j].order_id == oid {
        let j = choose|j: int| 0 <= j < w && q[j].order_id == oid;
        lemma_first_exists(q, oid, j);
    } else {
        assert(first_at(q, oid, w));
    }
}

} // verus!
