//! The replay of a feed through a market: records are kept in order, handed
//! out in batches for storage, applied one by one, and a snapshot is taken
//! after each.
use vstd::prelude::*;
use crate::effect::{effects_view, EffectModel, MboError};
use crate::market::{agg_ask, agg_bid, market_step, Market, MarketEffect, MarketModel};
use crate::msg::{last_flag, MboMsg};
use crate::price_level::PriceLevel;

verus! {

/// How many records make one batch for storage.
pub const BATCH_SIZE: usize = 1000;

/// The market right after one record was applied, with what the record did.
pub struct MarketSnapshot {
    pub market: Market,
    pub market_effect: MarketEffect,
    pub applied_mbo_msg: MboMsg,
}

/// The mathematical value of a snapshot: the market, the publisher whose
/// book was created, the book's effects, and the record.
pub type SnapshotModel = (MarketModel, Option<u16>, Seq<EffectModel>, MboMsg);

impl View for MarketSnapshot {
    type V = SnapshotModel;

    open spec fn view(&self) -> SnapshotModel {
        (
            self.market@,
            self.market_effect.publisher_created,
            effects_view(self.market_effect.book_effects@),
            self.applied_mbo_msg,
        )
    }
}

/// The snapshots of a run of snapshots.
pub open spec fn snapshots_view(s: Seq<MarketSnapshot>) -> Seq<SnapshotModel> {
    s.map_values(|x: MarketSnapshot| x@)
}

/// The aggregated best bid and offer of an instrument in a market.
pub open spec fn aggregated(mm: MarketModel, instrument_id: u32) -> (
    Option<PriceLevel>,
    Option<PriceLevel>,
) {
    if mm.contains_key(instrument_id) {
        (agg_bid(mm[instrument_id]), agg_ask(mm[instrument_id]))
    } else {
        (None, None)
    }
}

/// The market and the snapshots after replaying `msgs` from `start`, or the
/// first error.
pub open spec fn replay_from(start: MarketModel, msgs: Seq<MboMsg>) -> Result<
    (MarketModel, Seq<SnapshotModel>),
    MboError,
>
    decreases msgs.len(),
{
    if msgs.len() == 0 {
        Ok((start, Seq::empty()))
    } else {
        match replay_from(start, msgs.drop_last()) {
            Ok((mm, snaps)) => match market_step(mm, msgs.last()) {
                Ok((mm2, created, fx)) => Ok((mm2, snaps.push((mm2, created, fx, msgs.last())))),
                Err(e) => Err(e),
            },
            Err(e) => Err(e),
        }
    }
}

/// A market that keeps its rules at all times.
struct CheckedMarket {
    market: Market,
}

impl View for CheckedMarket {
    type V = MarketModel;

    closed spec fn view(&self) -> MarketModel {
        self.market@
    }
}

impl CheckedMarket {
    #[verifier::type_invariant]
    spec fn inv(&self) -> bool {
        self.market.wf()
    }

    fn new() -> (r: CheckedMarket)
        ensures
            r@ == Map::<u32, Seq<(u16, crate::book_model::BookModel)>>::empty(),
    {
        CheckedMarket { market: Market::new() }
    }

    fn apply(&mut self, mbo: MboMsg) -> (r: Result<MarketEffect, MboError>)
        ensures
            match market_step(old(self)@, mbo) {
                Ok((mm, created, fx)) => r matches Ok(e) && final(self)@ == mm
                    && e.publisher_created == created && effects_view(e.book_effects@) == fx,
                Err(e) => r == Err::<MarketEffect, MboError>(e) && final(self)@ == old(self)@,
            },
    {
        proof {
            use_type_invariant(&*self);
        }
        let mut market = Market::new();
        std::mem::swap(&mut market, &mut self.market);
        let r = market.apply(mbo);
        self.market = market;
        r
    }

    fn copy(&self) -> (r: Market)
        ensures
            r@ == self@,
    {
        self.market.copy()
    }

    fn aggregated_bbo(&self, instrument_id: u32) -> (r: (Option<PriceLevel>, Option<PriceLevel>))
        ensures
            r == aggregated(self@, instrument_id),
    {
        self.market.aggregated_bbo(instrument_id)
    }
}

/// The state of a replay in progress.
pub struct Replay {
    market: CheckedMarket,
    messages: Vec<MboMsg>,
    batch: Vec<MboMsg>,
    snapshots: Vec<MarketSnapshot>,
}

impl Replay {
    /// The current market.
    pub closed spec fn market_view(&self) -> MarketModel {
        self.market@
    }

    /// Every record seen so far, in order.
    pub closed spec fn messages_view(&self) -> Seq<MboMsg> {
        self.messages@
    }

    /// The records waiting for storage.
    pub closed spec fn batch_view(&self) -> Seq<MboMsg> {
        self.batch@
    }

    /// The snapshots taken so far, in order.
    pub closed spec fn snapshots_model(&self) -> Seq<SnapshotModel> {
        snapshots_view(self.snapshots@)
    }

    /// A replay that has seen nothing.
    pub fn new() -> (r: Replay)
        ensures
            r.market_view() == Map::<u32, Seq<(u16, crate::book_model::BookModel)>>::empty(),
            r.messages_view().len() == 0,
            r.batch_view().len() == 0,
            r.snapshots_model().len() == 0,
    {
        Replay {
            market: CheckedMarket::new(),
            messages: Vec::new(),
            batch: Vec::new(),
            snapshots: Vec::new(),
        }
    }

    /// Takes in the next record of the feed: it is kept, and, where the
    /// records are stored (`persist`), added to the batch. A batch that
    /// reaches [`BATCH_SIZE`] records is handed back for storage and a new
    /// one begins.
    pub fn push_message(&mut self, mbo: MboMsg, persist: bool) -> (r: Option<Vec<MboMsg>>)
        ensures
            final(self).messages_view() == old(self).messages_view().push(mbo),
            final(self).market_view() == old(self).market_view(),
            final(self).snapshots_model() == old(self).snapshots_model(),
            !persist ==> r is None && final(self).batch_view() == old(self).batch_view(),
            persist && old(self).batch_view().len() + 1 >= BATCH_SIZE ==> (r matches Some(b) && b@
                == old(self).batch_view().push(mbo) && final(self).batch_view().len() == 0),
            persist && old(self).batch_view().len() + 1 < BATCH_SIZE ==> r is None
                && final(self).batch_view() == old(self).batch_view().push(mbo),
    {
        self.messages.push(mbo);
        if !persist {
            return None;
        }
        self.batch.push(mbo);
        if self.batch.len() >= BATCH_SIZE {
            let mut full: Vec<MboMsg> = Vec::new();
            std::mem::swap(&mut self.batch, &mut full);
            Some(full)
        } else {
            None
        }
    }

    /// Applies the next record to the market and takes a snapshot. Where the
    /// record ends an event, hands back the aggregated best bid and offer of
    /// its instrument.
    pub fn apply_message(&mut self, mbo: MboMsg) -> (r: Result<
        Option<(Option<PriceLevel>, Option<PriceLevel>)>,
        MboError,
    >)
        ensures
            final(self).messages_view() == old(self).messages_view(),
            final(self).batch_view() == old(self).batch_view(),
            match market_step(old(self).market_view(), mbo) {
                Ok((mm, created, fx)) => {
                    &&& final(self).market_view() == mm
                    &&& final(self).snapshots_model() == old(self).snapshots_model().push(
                        (mm, created, fx, mbo),
                    )
                    &&& r == Ok::<Option<(Option<PriceLevel>, Option<PriceLevel>)>, MboError>(
                        if last_flag(mbo.flags) {
                            Some(aggregated(mm, mbo.instrument_id))
                        } else {
                            None
                        },
                    )
                },
                Err(e) => {
                    &&& r == Err::<Option<(Option<PriceLevel>, Option<PriceLevel>)>, MboError>(e)
                    &&& final(self).market_view() == old(self).market_view()
                    &&& final(self).snapshots_model() == old(self).snapshots_model()
                },
            },
    {
        let market_effect = match self.market.apply(mbo) {
            Ok(e) => e,
            Err(e) => {
                return Err(e);
            },
        };
        let snapshot = MarketSnapshot {
            market: self.market.copy(),
            market_effect,
            applied_mbo_msg: mbo,
        };
        let ghost before = self.snapshots@;
        self.snapshots.push(snapshot);
        proof {
            assert(snapshots_view(self.snapshots@) =~= snapshots_view(before).push(snapshot@));
        }
        if mbo.is_last() {
            Ok(Some(self.market.aggregated_bbo(mbo.instrument_id)))
        } else {
            Ok(None)
        }
    }

    /// Ends the replay: hands back the records still waiting for storage, if
    /// any.
    pub fn finish(&mut self) -> (r: Option<Vec<MboMsg>>)
        ensures
            old(self).batch_view().len() == 0 ==> r is None,
            old(self).batch_view().len() > 0 ==> (r matches Some(b) && b@ == old(self).batch_view()),
            final(self).batch_view().len() == 0,
            final(self).messages_view() == old(self).messages_view(),
            final(self).market_view() == old(self).market_view(),
            final(self).snapshots_model() == old(self).snapshots_model(),
    {
        if self.batch.len() == 0 {
            None
        } else {
            let mut rest: Vec<MboMsg> = Vec::new();
            std::mem::swap(&mut self.batch, &mut rest);
            Some(rest)
        }
    }

    /// Every record seen so far, in order.
    pub fn messages(&self) -> (r: &Vec<MboMsg>)
        ensures
            r@ == self.messages_view(),
    {
        &self.messages
    }

    /// The snapshots taken so far, in order.
    pub fn snapshots(&self) -> (r: &Vec<MarketSnapshot>)
        ensures
            snapshots_view(r@) == self.snapshots_model(),
    {
        &self.snapshots
    }

    /// Ends the replay and hands over its snapshots.
    pub fn into_snapshots(self) -> (r: Vec<MarketSnapshot>)
        ensures
            snapshots_view(r@) == self.snapshots_model(),
    {
        self.snapshots
    }
}

/// Replays a whole run of records through a new market and returns one
/// snapshot per record, in order; or the first error.
pub fn replay_all(msgs: &Vec<MboMsg>) -> (r: Result<Vec<MarketSnapshot>, MboError>)
    ensures
        match replay_from(Map::empty(), msgs@) {
            Ok((_, snaps)) => r matches Ok(v) && snapshots_view(v@) == snaps,
            Err(e) => r == Err::<Vec<MarketSnapshot>, MboError>(e),
        },
{
    let mut replay = Replay::new();
    proof {
        assert(msgs@.take(0) =~= Seq::<MboMsg>::empty());
        assert(replay.snapshots_model() =~= Seq::<SnapshotModel>::empty());
    }
    let mut i: usize = 0;
    while i < msgs.len()
        invariant
            i <= msgs@.len(),
            replay_from(Map::empty(), msgs@.take(i as int)) == Ok::<
                (MarketModel, Seq<SnapshotModel>),
                MboError,
            >((replay.market_view(), replay.snapshots_model())),
        decreases msgs@.len() - i,
    {
        proof {
            assert(msgs@.take(i + 1).drop_last() =~= msgs@.take(i as int));
        }
        match replay.apply_message(msgs[i]) {
            Ok(_) => {},
            Err(e) => {
                proof {
                    lemma_replay_error_sticks(Map::empty(), msgs@, i + 1);
                }
                return Err(e);
            },
        }
        i = i + 1;
    }
    proof {
        assert(msgs@.take(i as int) =~= msgs@);
    }
    Ok(replay.into_snapshots())
}

/// Once a prefix of the records fails, the whole run fails with the same
/// error.
pub proof fn lemma_replay_error_sticks(start: MarketModel, msgs: Seq<MboMsg>, n: int)
    requires
        0 <= n <= msgs.len(),
        replay_from(start, msgs.take(n)) is Err,
    ensures
        replay_from(start, msgs) == replay_from(start, msgs.take(n)),
    decreases msgs.len() - n,
{
    if n < msgs.len() {
        assert(msgs.take(n + 1).drop_last() =~= msgs.take(n));
        lemma_replay_error_sticks(start, msgs, n + 1);
    } else {
        assert(msgs.take(n) =~= msgs);
    }
}

} // verus!
