//! The order book of one instrument at one publisher.
use vstd::prelude::*;
use std::collections::BTreeMap;
use crate::book_model::{
    evict_top, evicted, indexed_order, level_at, nth_ask, nth_bid, size_ahead, snapshot_row, eviction_effect, first_at, first_index, holds_id, ids_off_side,
    lemma_max_price, lemma_min_price, lemma_step_wf, step, live_ids, max_price, min_price, queue_ids, uncross, holds_live, live_at, live_index, put_queue, queue_or_empty,
    resized, BookModel,
};
use crate::effect::{effects_view, BookEffect, EffectModel, CancelKind, MboError, ModifyKind, SkipReason};
use crate::ladder::{
    keys_of, lemma_rank, lemma_rank_above_unique, lemma_rank_below_unique, prices_above,
    prices_below, sorted_prices,
};
use crate::price_level::{BidAskPair, PriceLevel};
use crate::msg::{Action, MboMsg, Side, UNDEF_PRICE};

verus! {

/// The queues of a side as sequences.
pub open spec fn queues(m: Map<i64, Vec<MboMsg>>) -> Map<i64, Seq<MboMsg>> {
    m.map_values(|v: Vec<MboMsg>| v@)
}

/// Putting a queue into a side puts its sequence into the side's model.
proof fn lemma_queues_insert(m: Map<i64, Vec<MboMsg>>, p: i64, v: Vec<MboMsg>)
    ensures
        queues(m.insert(p, v)) == queues(m).insert(p, v@),
{
    assert(queues(m.insert(p, v)) =~= queues(m).insert(p, v@));
}

/// Taking a price out of a side takes it out of the side's model.
proof fn lemma_queues_remove(m: Map<i64, Vec<MboMsg>>, p: i64)
    ensures
        queues(m.remove(p)) == queues(m).remove(p),
{
    assert(queues(m.remove(p)) =~= queues(m).remove(p));
}

/// The position of the first order of a queue with id `oid`.
fn find_order(q: &Vec<MboMsg>, oid: u64) -> (r: Option<usize>)
    ensures
        r matches Some(i) ==> first_at(q@, oid, i as int),
        r is None ==> !holds_id(q@, oid),
{
    let mut i: usize = 0;
    while i < q.len()
        invariant
            i <= q@.len(),
            forall|j: int| 0 <= j < i ==> q@[j].order_id != oid,
        decreases q@.len() - i,
    {
        if q[i].order_id == oid {
            return Some(i);
        }
        i = i + 1;
    }
    None
}

/// The position of a resting order of a queue with id `oid`.
fn find_live(q: &Vec<MboMsg>, oid: u64) -> (r: Option<usize>)
    ensures
        r matches Some(i) ==> live_at(q@, oid, i as int),
        r is None ==> !holds_live(q@, oid),
{
    let mut i: usize = 0;
    while i < q.len()
        invariant
            i <= q@.len(),
            forall|j: int| 0 <= j < i ==> !live_at(q@, oid, j),
        decreases q@.len() - i,
    {
        if q[i].order_id == oid && !q[i].is_tob() {
            return Some(i);
        }
        i = i + 1;
    }
    None
}

/// A copy of a queue.
fn copy_queue(q: &Vec<MboMsg>) -> (r: Vec<MboMsg>)
    ensures
        r@ == q@,
{
    let mut r: Vec<MboMsg> = Vec::new();
    let mut i: usize = 0;
    while i < q.len()
        invariant
            i <= q@.len(),
            r@ == q@.take(i as int),
        decreases q@.len() - i,
    {
        r.push(q[i]);
        proof {
            assert(q@.take(i + 1) =~= q@.take(i as int).push(q@[i as int]));
        }
        i = i + 1;
    }
    proof {
        assert(q@.take(i as int) =~= q@);
    }
    r
}

/// The order book of one instrument at one publisher: resting orders by
/// price on each side in time priority, and an index from order id to the
/// level that holds it.
#[derive(Clone)]
pub struct Book {
    orders_by_id: BTreeMap<u64, (Side, i64)>,
    offers: BTreeMap<i64, Vec<MboMsg>>,
    bids: BTreeMap<i64, Vec<MboMsg>>,
}

impl View for Book {
    type V = BookModel;

    closed spec fn view(&self) -> BookModel {
        BookModel { ids: self.orders_by_id@, bids: queues(self.bids@), asks: queues(self.offers@) }
    }
}

impl Book {
    /// An empty book.
    pub fn new() -> (r: Book)
        ensures
            r@ == BookModel::empty(),
            r@.wf(),
    {
        let r = Book { orders_by_id: BTreeMap::new(), offers: BTreeMap::new(), bids: BTreeMap::new() };
        proof {
            assert(r@.bids =~= Map::empty());
            assert(r@.asks =~= Map::empty());
        }
        r
    }

    /// The levels of one side.
    fn side_levels(&self, s: Side) -> (r: &BTreeMap<i64, Vec<MboMsg>>)
        ensures
            queues(r@) == self@.levels(s),
    {
        match s {
            Side::Bid => &self.bids,
            Side::Ask => &self.offers,
        }
    }

    /// Takes the queue at `p` of side `s` out of the book.
    fn take_queue(&mut self, s: Side, p: i64) -> (r: Option<Vec<MboMsg>>)
        ensures
            final(self)@ == old(self)@.with_levels(s, old(self)@.levels(s).remove(p)),
            r is Some == old(self)@.levels(s).contains_key(p),
            r matches Some(q) ==> q@ == old(self)@.levels(s)[p],
    {
        proof {
            lemma_queues_remove(self.bids@, p);
            lemma_queues_remove(self.offers@, p);
        }
        match s {
            Side::Bid => self.bids.remove(&p),
            Side::Ask => self.offers.remove(&p),
        }
    }

    /// Puts a queue at `p` of side `s`, or leaves the price empty if the
    /// queue is.
    fn put_queue(&mut self, s: Side, p: i64, q: Vec<MboMsg>)
        ensures
            final(self)@ == old(self)@.with_levels(s, put_queue(old(self)@.levels(s), p, q@)),
    {
        proof {
            lemma_queues_remove(self.bids@, p);
            lemma_queues_remove(self.offers@, p);
            lemma_queues_insert(self.bids@, p, q);
            lemma_queues_insert(self.offers@, p, q);
        }
        if q.len() == 0 {
            match s {
                Side::Bid => {
                    self.bids.remove(&p);
                },
                Side::Ask => {
                    self.offers.remove(&p);
                },
            }
        } else {
            match s {
                Side::Bid => {
                    self.bids.insert(p, q);
                },
                Side::Ask => {
                    self.offers.insert(p, q);
                },
            }
        }
    }
    /// Applies a Cancel on side `s`.
    fn cancel(&mut self, msg: &MboMsg, s: Side) -> (r: Result<Vec<BookEffect>, MboError>)
        requires
            old(self)@.wf(),
        ensures
            match crate::book_model::cancel_step(old(self)@, *msg, s) {
                Ok((m, fx)) => r matches Ok(v) && final(self)@ == m && effects_view(v@) == fx,
                Err(e) => r == Err::<Vec<BookEffect>, MboError>(e) && final(self)@ == old(self)@,
            },
    {
        let ghost m0 = self@;
        let oid = msg.order_id;
        let Some(mut q) = self.take_queue(s, msg.price) else {
            proof {
                assert(self@ == m0) by {
                    assert(m0.levels(s).remove(msg.price) =~= m0.levels(s));
                    assert(m0.with_levels(s, m0.levels(s)) == m0);
                }
            }
            return Ok(vec![BookEffect::Skipped { reason: SkipReason::PreSnapshotCancel }]);
        };
        proof {
            assert(m0.levels(s).remove(msg.price).insert(msg.price, q@) =~= m0.levels(s));
        }
        let Some(i) = find_order(&q, oid) else {
            proof {
                assert(q@.len() > 0);
                assert(m0.with_levels(s, m0.levels(s)) == m0);
            }
            self.put_queue(s, msg.price, q);
            return Ok(vec![BookEffect::Skipped { reason: SkipReason::PreSnapshotCancel }]);
        };
        proof {
            crate::book_model::lemma_first_index(q@, oid, i as int);
        }
        let e = q[i];
        if e.size < msg.size {
            proof {
                assert(m0.with_levels(s, m0.levels(s)) == m0);
            }
            self.put_queue(s, msg.price, q);
            return Err(MboError::CancelExceedsSize);
        }
        if e.size > msg.size {
            q[i] = MboMsg { size: e.size - msg.size, ..e };
            proof {
                assert(q@ =~= m0.levels(s)[msg.price].update(i as int, resized(e, (e.size - msg.size) as u32)));
                assert(m0.levels(s).remove(msg.price).insert(msg.price, q@) =~= m0.levels(s).insert(msg.price, q@));
            }
            self.put_queue(s, msg.price, q);
            return Ok(vec![BookEffect::Canceled { order_id: oid, extent: CancelKind::Partial }]);
        }
        q.remove(i);
        proof {
            assert(put_queue(m0.levels(s).remove(msg.price), msg.price, q@) =~= put_queue(m0.levels(s), msg.price, q@));
        }
        self.put_queue(s, msg.price, q);
        if !e.is_tob() {
            self.orders_by_id.remove(&oid);
        }
        Ok(vec![BookEffect::Canceled { order_id: oid, extent: CancelKind::Full }])
    }
    /// Applies a Modify carrying side `s`.
    fn modify(&mut self, msg: &MboMsg, s: Side) -> (r: Result<Vec<BookEffect>, MboError>)
        requires
            old(self)@.wf(),
        ensures
            match crate::book_model::modify_step(old(self)@, *msg, s) {
                Ok((m, fx)) => r matches Ok(v) && final(self)@ == m && effects_view(v@) == fx,
                Err(e) => r == Err::<Vec<BookEffect>, MboError>(e) && final(self)@ == old(self)@,
            },
    {
        let ghost m0 = self@;
        let oid = msg.order_id;
        let (ps, pp) = match self.orders_by_id.get(&oid) {
            Some(loc) => *loc,
            None => {
                return Ok(vec![BookEffect::Skipped { reason: SkipReason::PreSnapshotModify }]);
            },
        };
        let Some(mut q) = self.take_queue(ps, pp) else {
            proof {
                assert(m0.levels(ps).remove(pp) =~= m0.levels(ps));
                assert(m0.with_levels(ps, m0.levels(ps)) == m0);
            }
            return Err(MboError::InternalInconsistency);
        };
        proof {
            assert(m0.levels(ps).remove(pp).insert(pp, q@) =~= m0.levels(ps));
            assert(m0.with_levels(ps, m0.levels(ps)) == m0);
            assert(q@.len() > 0);
        }
        let Some(i) = find_live(&q, oid) else {
            self.put_queue(ps, pp, q);
            return Err(MboError::InternalInconsistency);
        };
        proof {
            assert(crate::book_model::live_ids_unique(q@));
            crate::book_model::lemma_live_index(q@, oid, i as int);
        }
        let e = q[i];
        if ps == s && pp == msg.price && msg.size <= e.size {
            q[i] = MboMsg { size: msg.size, ..e };
            proof {
                assert(q@ =~= m0.levels(ps)[pp].update(i as int, resized(e, msg.size)));
                assert(m0.levels(ps).remove(pp).insert(pp, q@) =~= m0.levels(ps).insert(pp, q@));
            }
            self.put_queue(ps, pp, q);
            return Ok(
                vec![
                    BookEffect::Modified {
                        order_id: oid,
                        priority: ModifyKind::KeptPriority,
                        prev_price: pp,
                        new_price: msg.price,
                    },
                ],
            );
        }
        q.remove(i);
        proof {
            assert(put_queue(m0.levels(ps).remove(pp), pp, q@) =~= put_queue(m0.levels(ps), pp, q@));
        }
        self.put_queue(ps, pp, q);
        let ghost left = self@;
        let mut dq = match self.take_queue(s, msg.price) {
            Some(dq) => dq,
            None => Vec::new(),
        };
        proof {
            assert(dq@ == queue_or_empty(left.levels(s), msg.price));
        }
        dq.push(*msg);
        proof {
            assert(put_queue(left.levels(s).remove(msg.price), msg.price, dq@) =~= left.levels(s).insert(msg.price, dq@));
        }
        self.put_queue(s, msg.price, dq);
        if msg.is_tob() {
            self.orders_by_id.remove(&oid);
        } else {
            self.orders_by_id.insert(oid, (s, msg.price));
        }
        Ok(
            vec![
                BookEffect::Modified {
                    order_id: oid,
                    priority: ModifyKind::Requeued,
                    prev_price: pp,
                    new_price: msg.price,
                },
            ],
        )
    }
    /// Empties every index.
    fn clear(&mut self)
        ensures
            final(self)@ == BookModel::empty(),
    {
        self.orders_by_id.clear();
        self.offers.clear();
        self.bids.clear();
        proof {
            assert(self@.bids =~= Map::empty());
            assert(self@.asks =~= Map::empty());
        }
    }

    /// Drops every index entry that points into side `s`, and the side's levels.
    fn clear_side(&mut self, s: Side)
        ensures
            final(self)@ == old(self)@.with_levels(s, Map::empty()).with_ids(
                ids_off_side(old(self)@.ids, s),
            ),
    {
        let ghost ids0 = self.orders_by_id@;
        let keys = keys_of(&self.orders_by_id);
        let mut k: usize = 0;
        while k < keys.len()
            invariant
                k <= keys@.len(),
                keys@.to_set() == ids0.dom(),
                self.bids == old(self).bids,
                self.offers == old(self).offers,
                forall|oid: u64|
                    #[trigger] self.orders_by_id@.contains_key(oid) <==> (ids0.contains_key(oid)
                        && !(ids0[oid].0 == s && exists|w: int| 0 <= w < k && keys@[w] == oid)),
                forall|oid: u64| #[trigger]
                    self.orders_by_id@.contains_key(oid) ==> self.orders_by_id@[oid] == ids0[oid],
            decreases keys@.len() - k,
        {
            let key = keys[k];
            let drop = match self.orders_by_id.get(&key) {
                Some(loc) => loc.0 == s,
                None => false,
            };
            if drop {
                self.orders_by_id.remove(&key);
            }
            k = k + 1;
        }
        match s {
            Side::Bid => self.bids.clear(),
            Side::Ask => self.offers.clear(),
        }
        proof {
            assert forall|oid: u64| ids0.dom().contains(oid) implies exists|w: int| 0 <= w < k && keys@[w] == oid by {
                assert(keys@.to_set().contains(oid));
            }
            assert(self.orders_by_id@ =~= ids_off_side(ids0, s));
            match s {
                Side::Bid => assert(queues(self.bids@) =~= Map::empty()),
                Side::Ask => assert(queues(self.offers@) =~= Map::empty()),
            }
        }
    }
    /// Takes the index entries of the resting orders of `q` out of the id
    /// index, and appends the ids of all of `q`'s orders to `removed`.
    fn unindex_queue(&mut self, q: &Vec<MboMsg>, removed: &mut Vec<u64>)
        ensures
            final(self).orders_by_id@ == old(self).orders_by_id@.remove_keys(live_ids(q@)),
            final(self).bids == old(self).bids,
            final(self).offers == old(self).offers,
            final(removed)@ == old(removed)@ + queue_ids(q@),
    {
        let mut j: usize = 0;
        while j < q.len()
            invariant
                j <= q@.len(),
                self.orders_by_id@ == old(self).orders_by_id@.remove_keys(live_ids(q@.take(j as int))),
                self.bids == old(self).bids,
                self.offers == old(self).offers,
                removed@ == old(removed)@ + queue_ids(q@.take(j as int)),
            decreases q@.len() - j,
        {
            let o = q[j];
            removed.push(o.order_id);
            if !o.is_tob() {
                self.orders_by_id.remove(&o.order_id);
            }
            proof {
                let before = live_ids(q@.take(j as int));
                let after = live_ids(q@.take(j + 1));
                assert forall|oid: u64| after.contains(oid) <==> (before.contains(oid) || (
                oid == o.order_id && !o.spec_is_tob())) by {
                    if after.contains(oid) {
                        let w = choose|w: int| #[trigger] live_at(q@.take(j + 1), oid, w);
                        if w < j {
                            assert(live_at(q@.take(j as int), oid, w));
                        }
                    }
                    if before.contains(oid) {
                        let w = choose|w: int| #[trigger] live_at(q@.take(j as int), oid, w);
                        assert(live_at(q@.take(j + 1), oid, w));
                    }
                    if oid == o.order_id && !o.spec_is_tob() {
                        assert(live_at(q@.take(j + 1), oid, j as int));
                    }
                }
                assert(self.orders_by_id@ =~= old(self).orders_by_id@.remove_keys(after));
                assert(queue_ids(q@.take(j + 1)) =~= queue_ids(q@.take(j as int)).push(o.order_id));
            }
            j = j + 1;
        }
        proof {
            assert(q@.take(j as int) =~= q@);
        }
    }

    /// Evicts the best bid and best ask levels, whole, while the best bid is
    /// at or above the best ask.
    fn match_crossed_orders(&mut self) -> (r: Vec<BookEffect>)
        ensures
            final(self)@ == uncross(old(self)@).0,
            effects_view(r@) == uncross(old(self)@).1,
    {
        let ghost m0 = self@;
        let mut fx: Vec<BookEffect> = Vec::new();
        proof {
            assert(m0.bids.dom() =~= self.bids@.dom());
        }
        loop
            invariant
                m0 == old(self)@,
                self@.bids.dom().finite(),
                uncross(self@).0 == uncross(m0).0,
                effects_view(fx@) + uncross(self@).1 == uncross(m0).1,
            decreases self@.bids.dom().len(),
        {
            let ghost m = self@;
            let ghost vb = self.bids@;
            let ghost va = self.offers@;
            let bp = sorted_prices(&self.bids);
            let ap = sorted_prices(&self.offers);
            proof {
                assert(m.bids.dom() =~= self.bids@.dom());
                assert(m.asks.dom() =~= self.offers@.dom());
            }
            if bp.len() == 0 || ap.len() == 0 {
                proof {
                    if bp@.len() == 0 {
                        assert(!m.bids.dom().contains(max_price(m.bids.dom())));
                    } else {
                        assert(!m.asks.dom().contains(min_price(m.asks.dom())));
                    }
                    assert(uncross(m) == (m, Seq::<EffectModel>::empty()));
                    assert(effects_view(fx@) + Seq::<EffectModel>::empty() =~= effects_view(fx@));
                    assert(self@ == uncross(m0).0);
                    assert(effects_view(fx@) == uncross(m0).1);
                }
                return fx;
            }
            let b = bp[bp.len() - 1];
            let a = ap[0];
            proof {
                assert(bp@.to_set().contains(b));
                assert forall|p: i64| m.bids.dom().contains(p) implies p <= b by {
                    assert(bp@.to_set().contains(p));
                    let w = choose|w: int| 0 <= w < bp@.len() && bp@[w] == p;
                    if w < bp@.len() - 1 {
                        assert(bp@[w] < bp@[bp@.len() - 1]);
                    }
                }
                lemma_max_price(m.bids.dom(), b);
                assert(ap@.to_set().contains(a));
                assert forall|p: i64| m.asks.dom().contains(p) implies a <= p by {
                    assert(ap@.to_set().contains(p));
                    let w = choose|w: int| 0 <= w < ap@.len() && ap@[w] == p;
                    if w > 0 {
                        assert(ap@[0] < ap@[w]);
                    }
                }
                lemma_min_price(m.asks.dom(), a);
            }
            if b < a {
                proof {
                    assert(uncross(m) == (m, Seq::<EffectModel>::empty()));
                    assert(effects_view(fx@) + Seq::<EffectModel>::empty() =~= effects_view(fx@));
                    assert(self@ == uncross(m0).0);
                    assert(effects_view(fx@) == uncross(m0).1);
                }
                return fx;
            }
            let bl = match self.bids.remove(&b) {
                Some(v) => v,
                None => Vec::new(),
            };
            let al = match self.offers.remove(&a) {
                Some(v) => v,
                None => Vec::new(),
            };
            let mut removed: Vec<u64> = Vec::new();
            self.unindex_queue(&bl, &mut removed);
            self.unindex_queue(&al, &mut removed);
            proof {
                assert(bl@ == m.bids[b]);
                assert(al@ == m.asks[a]);
                lemma_queues_remove(vb, b);
                lemma_queues_remove(va, a);
                assert(queues(self.bids@) =~= m.bids.remove(b));
                assert(queues(self.offers@) =~= m.asks.remove(a));
                assert(self.orders_by_id@ =~= m.ids.remove_keys(live_ids(bl@) + live_ids(al@)));
                assert(self@ == evict_top(m));
                assert(removed@ =~= queue_ids(evicted(m)));
            }
            let e = BookEffect::CrossedResolved {
                removed_bid_price: b,
                removed_ask_price: a,
                removed_order_ids: removed,
            };
            proof {
                assert(e@ == eviction_effect(m));
                assert(m.is_crossed());
                assert(uncross(m).1 == seq![eviction_effect(m)] + uncross(evict_top(m)).1);
                assert(m.bids.dom().remove(b) =~= self@.bids.dom());
            }
            let ghost fx0 = fx@;
            fx.push(e);
            proof {
                assert(effects_view(fx@) =~= effects_view(fx0).push(e@));
                assert(effects_view(fx@) + uncross(self@).1 =~= effects_view(fx0) + uncross(m).1);
            }
        }
    }
    /// Applies an Add on side `s`.
    fn add(&mut self, msg: &MboMsg, s: Side) -> (r: Result<Vec<BookEffect>, MboError>)
        ensures
            match crate::book_model::add_step(old(self)@, *msg, s) {
                Ok((m, fx)) => r matches Ok(v) && final(self)@ == m && effects_view(v@) == fx,
                Err(e) => r == Err::<Vec<BookEffect>, MboError>(e) && final(self)@ == old(self)@,
            },
    {
        let ghost m0 = self@;
        let added = BookEffect::Added { order_id: msg.order_id, side: s, price: msg.price };
        if msg.is_tob() {
            self.clear_side(s);
            if msg.price == UNDEF_PRICE {
                return Ok(vec![BookEffect::Cleared]);
            }
            let ghost cleared = self@;
            proof {
                assert(cleared.levels(s) =~= Map::empty());
            }
            let q = vec![*msg];
            proof {
                assert(q@ =~= seq![*msg]);
            }
            self.put_queue(s, msg.price, q);
            return Ok(vec![added]);
        }
        if msg.price == UNDEF_PRICE {
            return Err(MboError::InvalidPrice);
        }
        if self.orders_by_id.contains_key(&msg.order_id) {
            return Err(MboError::DuplicateOrder);
        }
        self.orders_by_id.insert(msg.order_id, (s, msg.price));
        let ghost indexed = self@;
        let mut q = match self.take_queue(s, msg.price) {
            Some(q) => q,
            None => Vec::new(),
        };
        proof {
            assert(q@ == queue_or_empty(indexed.levels(s), msg.price));
        }
        q.push(*msg);
        proof {
            assert(put_queue(indexed.levels(s).remove(msg.price), msg.price, q@) =~= indexed.levels(s).insert(msg.price, q@));
        }
        self.put_queue(s, msg.price, q);
        proof {
            let lv = m0.levels(s);
            assert(self@ == m0.with_levels(
                s,
                lv.insert(msg.price, queue_or_empty(lv, msg.price).push(*msg)),
            ).with_ids(m0.ids.insert(msg.order_id, (s, msg.price))));
        }
        let mut crossed = self.match_crossed_orders();
        let ghost cx = crossed@;
        let mut fx = vec![added];
        let ghost fx0 = fx@;
        fx.append(&mut crossed);
        proof {
            assert(effects_view(fx@) =~= effects_view(fx0) + effects_view(cx));
            assert(effects_view(fx0) =~= seq![added@]);
        }
        Ok(fx)
    }
    /// Applies one record to the book and reports what it changed.
    ///
    /// Trade, Fill and records without an action change nothing; Clear
    /// empties the book; Add, Cancel and Modify follow their rules in
    /// [`crate::book_model::step`]. On an error the book is unchanged.
    pub fn apply(&mut self, mbo: MboMsg) -> (r: Result<Vec<BookEffect>, MboError>)
        requires
            old(self)@.wf(),
        ensures
            match step(old(self)@, mbo) {
                Ok((m, fx)) => r matches Ok(v) && final(self)@ == m && effects_view(v@) == fx,
                Err(e) => r == Err::<Vec<BookEffect>, MboError>(e) && final(self)@ == old(self)@,
            },
            final(self)@.wf(),
    {
        proof {
            lemma_step_wf(self@, mbo);
        }
        let Some(action) = mbo.action() else {
            return Err(MboError::InvalidAction);
        };
        match action {
            Action::Clear => {
                self.clear();
                Ok(vec![BookEffect::Cleared])
            },
            Action::Add => match mbo.side() {
                Some(s) => self.add(&mbo, s),
                None => Err(MboError::InvalidSide),
            },
            Action::Cancel => match mbo.side() {
                Some(s) => self.cancel(&mbo, s),
                None => Err(MboError::InvalidSide),
            },
            Action::Modify => match mbo.side() {
                Some(s) => self.modify(&mbo, s),
                None => Err(MboError::InvalidSide),
            },
            Action::Trade | Action::Fill | Action::NoAction => Ok(vec![BookEffect::NoOp]),
        }
    }
    /// The summary of the level `idx` places from the best bid.
    pub fn bid_level(&self, idx: usize) -> (r: Option<PriceLevel>)
        ensures
            r == nth_bid(self@, idx as int),
            r is Some <==> idx < self@.bids.dom().len(),
    {
        let bp = sorted_prices(&self.bids);
        proof {
            assert(self@.bids.dom() =~= self.bids@.dom());
        }
        if idx >= bp.len() {
            proof {
                if exists|p: i64| self@.bids.contains_key(p) && prices_above(self@.bids.dom(), p).len() == idx {
                    let p = choose|p: i64| self@.bids.contains_key(p) && prices_above(self@.bids.dom(), p).len() == idx;
                    assert(bp@.to_set().contains(p));
                    let w = choose|w: int| 0 <= w < bp@.len() && bp@[w] == p;
                    lemma_rank(bp@, self@.bids.dom(), w);
                }
            }
            return None;
        }
        let k = bp.len() - 1 - idx;
        let p = bp[k];
        proof {
            lemma_rank(bp@, self@.bids.dom(), k as int);
            assert(bp@.to_set().contains(p));
            let c = choose|c: i64| self@.bids.contains_key(c) && prices_above(self@.bids.dom(), c).len() == idx;
            if c < p {
                lemma_rank_above_unique(self@.bids.dom(), c, p);
            } else if p < c {
                lemma_rank_above_unique(self@.bids.dom(), p, c);
            }
        }
        match self.bids.get(&p) {
            Some(q) => Some(PriceLevel::new(p, q.as_slice())),
            None => None,
        }
    }

    /// The summary of the level `idx` places from the best ask.
    pub fn ask_level(&self, idx: usize) -> (r: Option<PriceLevel>)
        ensures
            r == nth_ask(self@, idx as int),
            r is Some <==> idx < self@.asks.dom().len(),
    {
        let ap = sorted_prices(&self.offers);
        proof {
            assert(self@.asks.dom() =~= self.offers@.dom());
        }
        if idx >= ap.len() {
            proof {
                if exists|p: i64| self@.asks.contains_key(p) && prices_below(self@.asks.dom(), p).len() == idx {
                    let p = choose|p: i64| self@.asks.contains_key(p) && prices_below(self@.asks.dom(), p).len() == idx;
                    assert(ap@.to_set().contains(p));
                    let w = choose|w: int| 0 <= w < ap@.len() && ap@[w] == p;
                    lemma_rank(ap@, self@.asks.dom(), w);
                }
            }
            return None;
        }
        let p = ap[idx];
        proof {
            lemma_rank(ap@, self@.asks.dom(), idx as int);
            assert(ap@.to_set().contains(p));
            let c = choose|c: i64| self@.asks.contains_key(c) && prices_below(self@.asks.dom(), c).len() == idx;
            if c < p {
                lemma_rank_below_unique(self@.asks.dom(), c, p);
            } else if p < c {
                lemma_rank_below_unique(self@.asks.dom(), p, c);
            }
        }
        match self.offers.get(&p) {
            Some(q) => Some(PriceLevel::new(p, q.as_slice())),
            None => None,
        }
    }

    /// The best bid and the best ask.
    pub fn bbo(&self) -> (r: (Option<PriceLevel>, Option<PriceLevel>))
        ensures
            r == (nth_bid(self@, 0), nth_ask(self@, 0)),
    {
        (self.bid_level(0), self.ask_level(0))
    }

    /// The summary of the bid level at exactly `px`.
    pub fn bid_level_by_px(&self, px: i64) -> (r: Option<PriceLevel>)
        ensures
            r == level_at(self@.bids, px),
    {
        match self.bids.get(&px) {
            Some(q) => Some(PriceLevel::new(px, q.as_slice())),
            None => None,
        }
    }

    /// The summary of the ask level at exactly `px`.
    pub fn ask_level_by_px(&self, px: i64) -> (r: Option<PriceLevel>)
        ensures
            r == level_at(self@.asks, px),
    {
        match self.offers.get(&px) {
            Some(q) => Some(PriceLevel::new(px, q.as_slice())),
            None => None,
        }
    }

    /// The resting order with id `order_id`, as stored.
    pub fn order(&self, order_id: u64) -> (r: Option<MboMsg>)
        requires
            self@.wf(),
        ensures
            r == indexed_order(self@, order_id),
    {
        let (s, p) = match self.orders_by_id.get(&order_id) {
            Some(loc) => *loc,
            None => {
                return None;
            },
        };
        let q = match self.side_levels(s).get(&p) {
            Some(q) => q,
            None => {
                return None;
            },
        };
        match find_live(q, order_id) {
            Some(i) => {
                proof {
                    assert(crate::book_model::live_ids_unique(q@));
                    crate::book_model::lemma_live_index(q@, order_id, i as int);
                }
                Some(q[i])
            },
            None => None,
        }
    }

    /// The total size of the orders ahead of `order_id` in its level
    /// (saturating at `u32::MAX`), or `None` for an unknown id.
    pub fn queue_pos(&self, order_id: u64) -> (r: Option<u32>)
        requires
            self@.wf(),
        ensures
            r == size_ahead(self@, order_id),
    {
        let (s, p) = match self.orders_by_id.get(&order_id) {
            Some(loc) => *loc,
            None => {
                return None;
            },
        };
        let q = match self.side_levels(s).get(&p) {
            Some(q) => q,
            None => {
                return None;
            },
        };
        match find_live(q, order_id) {
            Some(i) => {
                proof {
                    assert(crate::book_model::live_ids_unique(q@));
                    crate::book_model::lemma_live_index(q@, order_id, i as int);
                }
                let ahead = PriceLevel::new(p, q.as_slice().split_at(i).0);
                Some(ahead.size)
            },
            None => None,
        }
    }

    /// The first `level_count` rows of bid and ask levels, best first, with
    /// zeros where a side has fewer levels.
    pub fn snapshot(&self, level_count: usize) -> (r: Vec<BidAskPair>)
        ensures
            r@.len() == level_count,
            forall|i: int| 0 <= i < level_count ==> r@[i] == snapshot_row(self@, i),
    {
        let mut r: Vec<BidAskPair> = Vec::new();
        let mut i: usize = 0;
        while i < level_count
            invariant
                i <= level_count,
                r@.len() == i,
                forall|j: int| 0 <= j < i ==> r@[j] == snapshot_row(self@, j),
            decreases level_count - i,
        {
            let mut row = BidAskPair { bid_px: 0, ask_px: 0, bid_sz: 0, ask_sz: 0, bid_ct: 0, ask_ct: 0 };
            if let Some(bid) = self.bid_level(i) {
                row.bid_px = bid.price;
                row.bid_sz = bid.size;
                row.bid_ct = bid.count;
            }
            if let Some(ask) = self.ask_level(i) {
                row.ask_px = ask.price;
                row.ask_sz = ask.size;
                row.ask_ct = ask.count;
            }
            r.push(row);
            i = i + 1;
        }
        r
    }
    /// The levels of one side, lowest price first, each with its orders in
    /// time priority.
    pub fn side_queues(&self, side: Side) -> (r: Vec<(i64, Vec<MboMsg>)>)
        ensures
            r@.len() == self@.levels(side).dom().len(),
            forall|i: int| #![trigger r@[i]]
                0 <= i < r@.len() ==> self@.levels(side).contains_key(r@[i].0) && r@[i].1@
                    == self@.levels(side)[r@[i].0],
            forall|i: int, j: int| 0 <= i < j < r@.len() ==> r@[i].0 < r@[j].0,
    {
        let levels = self.side_levels(side);
        let prices = sorted_prices(levels);
        proof {
            assert(self@.levels(side).dom() =~= levels@.dom());
        }
        let mut r: Vec<(i64, Vec<MboMsg>)> = Vec::new();
        let mut i: usize = 0;
        while i < prices.len()
            invariant
                i <= prices@.len(),
                prices@.to_set() == levels@.dom(),
                queues(levels@) == self@.levels(side),
                crate::ladder::strictly_increasing(prices@),
                r@.len() == i,
                forall|k: int| #![trigger r@[k]]
                    0 <= k < i ==> r@[k].0 == prices@[k] && self@.levels(side).contains_key(r@[k].0)
                        && r@[k].1@ == self@.levels(side)[r@[k].0],
            decreases prices@.len() - i,
        {
            let p = prices[i];
            proof {
                assert(prices@.to_set().contains(p));
            }
            let q = match levels.get(&p) {
                Some(q) => copy_queue(q),
                None => Vec::new(),
            };
            r.push((p, q));
            i = i + 1;
        }
        r
    }

    /// The entries of the id index: each resting order id with the side and
    /// price of its level.
    pub fn index_entries(&self) -> (r: Vec<(u64, Side, i64)>)
        ensures
            forall|i: int| #![trigger r@[i]]
                0 <= i < r@.len() ==> self@.ids.contains_key(r@[i].0) && self@.ids[r@[i].0] == (
                    r@[i].1,
                    r@[i].2,
                ),
            forall|oid: u64| #[trigger]
                self@.ids.contains_key(oid) ==> exists|i: int| 0 <= i < r@.len() && r@[i].0 == oid,
    {
        let keys = keys_of(&self.orders_by_id);
        let mut r: Vec<(u64, Side, i64)> = Vec::new();
        let mut i: usize = 0;
        while i < keys.len()
            invariant
                i <= keys@.len(),
                keys@.to_set() == self@.ids.dom(),
                r@.len() == i,
                forall|k: int| #![trigger r@[k]]
                    0 <= k < r@.len() ==> r@[k].0 == keys@[k] && self@.ids.contains_key(r@[k].0)
                        && self@.ids[r@[k].0] == (r@[k].1, r@[k].2),
            decreases keys@.len() - i,
        {
            let k = keys[i];
            proof {
                assert(keys@.to_set().contains(k));
            }
            if let Some(loc) = self.orders_by_id.get(&k) {
                r.push((k, loc.0, loc.1));
            }
            i = i + 1;
        }
        proof {
            assert forall|oid: u64| #[trigger] self@.ids.contains_key(oid) implies exists|i: int| 0 <= i < r@.len() && r@[i].0 == oid by {
                assert(keys@.to_set().contains(oid));
                let w = choose|w: int| 0 <= w < keys@.len() && keys@[w] == oid;
                assert(r@[w].0 == oid);
            }
        }
        r
    }
}

} // verus!
