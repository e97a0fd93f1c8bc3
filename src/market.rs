//! All books of a feed: per instrument, one book per publisher, in the
//! order the publishers first appeared.
use vstd::prelude::*;
use std::collections::BTreeMap;
use crate::book::Book;
use crate::book_model::{nth_ask, nth_bid, step, BookModel};
use crate::effect::{effects_view, BookEffect, EffectModel, MboError};
use crate::msg::{publisher_known, is_known_publisher, MboMsg};
use crate::price_level::{saturate, PriceLevel};

verus! {

/// The books of one instrument, as (publisher, book) pairs.
pub open spec fn books_view(v: Seq<(u16, Book)>) -> Seq<(u16, BookModel)> {
    v.map_values(|e: (u16, Book)| (e.0, e.1@))
}

/// The market as a map from instrument id to its (publisher, book) pairs.
pub type MarketModel = Map<u32, Seq<(u16, BookModel)>>;

/// Whether a run of (publisher, book) pairs names each publisher once and
/// keeps each book's rules.
pub open spec fn books_wf(s: Seq<(u16, BookModel)>) -> bool {
    &&& forall|i: int| 0 <= i < s.len() ==> (#[trigger] s[i]).1.wf()
    &&& forall|i: int, j: int| 0 <= i < j < s.len() ==> (#[trigger] s[i]).0 != (#[trigger] s[j]).0
}

/// The position of publisher `p` in a run of pairs.
pub open spec fn publisher_index(s: Seq<(u16, BookModel)>, p: u16) -> int {
    choose|i: int| 0 <= i < s.len() && s[i].0 == p
}

/// Whether publisher `p` has a book in a run of pairs.
pub open spec fn has_publisher(s: Seq<(u16, BookModel)>, p: u16) -> bool {
    exists|i: int| 0 <= i < s.len() && s[i].0 == p
}

/// The market after one record, the publisher whose book it created, and the
/// book's effects; or the error that stops the record.
pub open spec fn market_step(mm: MarketModel, msg: MboMsg) -> Result<
    (MarketModel, Option<u16>, Seq<EffectModel>),
    MboError,
> {
    if !publisher_known(msg.publisher_id) {
        Err(MboError::InvalidPublisher)
    } else {
        let iid = msg.instrument_id;
        let pid = msg.publisher_id;
        let s = if mm.contains_key(iid) {
            mm[iid]
        } else {
            Seq::empty()
        };
        let created = !has_publisher(s, pid);
        let s1 = if created {
            s.push((pid, BookModel::empty()))
        } else {
            s
        };
        let i = publisher_index(s1, pid);
        match step(s1[i].1, msg) {
            Ok((b, fx)) => Ok(
                (
                    mm.insert(iid, s1.update(i, (pid, b))),
                    if created {
                        Some(pid)
                    } else {
                        None
                    },
                    fx,
                ),
            ),
            Err(e) => Err(e),
        }
    }
}

/// Merges one book's best bid into the running aggregate: a higher price
/// replaces it, an equal price adds to it.
pub open spec fn merge_bid(acc: Option<PriceLevel>, b: Option<PriceLevel>) -> Option<PriceLevel> {
    match (acc, b) {
        (_, None) => acc,
        (None, Some(b)) => Some(b),
        (Some(a), Some(b)) => if b.price > a.price {
            Some(b)
        } else if b.price == a.price {
            Some(
                PriceLevel {
                    price: a.price,
                    size: saturate((a.size + b.size) as nat),
                    count: saturate((a.count + b.count) as nat),
                },
            )
        } else {
            Some(a)
        },
    }
}

/// Merges one book's best ask into the running aggregate: a lower price
/// replaces it, an equal price adds to it.
pub open spec fn merge_ask(acc: Option<PriceLevel>, b: Option<PriceLevel>) -> Option<PriceLevel> {
    match (acc, b) {
        (_, None) => acc,
        (None, Some(b)) => Some(b),
        (Some(a), Some(b)) => if b.price < a.price {
            Some(b)
        } else if b.price == a.price {
            Some(
                PriceLevel {
                    price: a.price,
                    size: saturate((a.size + b.size) as nat),
                    count: saturate((a.count + b.count) as nat),
                },
            )
        } else {
            Some(a)
        },
    }
}

/// The aggregated best bid of a run of books.
pub open spec fn agg_bid(s: Seq<(u16, BookModel)>) -> Option<PriceLevel>
    decreases s.len(),
{
    if s.len() == 0 {
        None
    } else {
        merge_bid(agg_bid(s.drop_last()), nth_bid(s.last().1, 0))
    }
}

/// The aggregated best ask of a run of books.
pub open spec fn agg_ask(s: Seq<(u16, BookModel)>) -> Option<PriceLevel>
    decreases s.len(),
{
    if s.len() == 0 {
        None
    } else {
        merge_ask(agg_ask(s.drop_last()), nth_ask(s.last().1, 0))
    }
}

/// Merges one book's best bid into the running aggregate.
fn merge_best_bid(acc: Option<PriceLevel>, b: Option<PriceLevel>) -> (r: Option<PriceLevel>)
    ensures
        r == merge_bid(acc, b),
{
    match (acc, b) {
        (_, None) => acc,
        (None, Some(b)) => Some(b),
        (Some(a), Some(b)) => if b.price > a.price {
            Some(b)
        } else if b.price == a.price {
            Some(
                PriceLevel {
                    price: a.price,
                    size: a.size.saturating_add(b.size),
                    count: a.count.saturating_add(b.count),
                },
            )
        } else {
            Some(a)
        },
    }
}

/// Merges one book's best ask into the running aggregate.
fn merge_best_ask(acc: Option<PriceLevel>, b: Option<PriceLevel>) -> (r: Option<PriceLevel>)
    ensures
        r == merge_ask(acc, b),
{
    match (acc, b) {
        (_, None) => acc,
        (None, Some(b)) => Some(b),
        (Some(a), Some(b)) => if b.price < a.price {
            Some(b)
        } else if b.price == a.price {
            Some(
                PriceLevel {
                    price: a.price,
                    size: a.size.saturating_add(b.size),
                    count: a.count.saturating_add(b.count),
                },
            )
        } else {
            Some(a)
        },
    }
}

/// Putting an instrument's books into the map puts their models into the
/// market's model.
proof fn lemma_view_insert(m: Map<u32, Vec<(u16, Book)>>, iid: u32, v: Vec<(u16, Book)>)
    ensures
        m.insert(iid, v).map_values(|v: Vec<(u16, Book)>| books_view(v@)) == m.map_values(
            |v: Vec<(u16, Book)>| books_view(v@),
        ).insert(iid, books_view(v@)),
{
    assert(m.insert(iid, v).map_values(|v: Vec<(u16, Book)>| books_view(v@)) =~= m.map_values(
        |v: Vec<(u16, Book)>| books_view(v@),
    ).insert(iid, books_view(v@)));
}

/// Taking an instrument out of the map takes it out of the market's model.
proof fn lemma_view_remove(m: Map<u32, Vec<(u16, Book)>>, iid: u32)
    ensures
        m.remove(iid).map_values(|v: Vec<(u16, Book)>| books_view(v@)) == m.map_values(
            |v: Vec<(u16, Book)>| books_view(v@),
        ).remove(iid),
{
    assert(m.remove(iid).map_values(|v: Vec<(u16, Book)>| books_view(v@)) =~= m.map_values(
        |v: Vec<(u16, Book)>| books_view(v@),
    ).remove(iid));
}

/// What applying one record did to the market.
#[derive(Clone, Debug, PartialEq, Eq)]
pub struct MarketEffect {
    /// The publisher whose book the record created, if it created one.
    pub publisher_created: Option<u16>,
    /// What the record did to its book.
    pub book_effects: Vec<BookEffect>,
}

impl Default for MarketEffect {
    fn default() -> (r: MarketEffect)
        ensures
            r.publisher_created is None,
            r.book_effects@.len() == 0,
    {
        MarketEffect { publisher_created: None, book_effects: Vec::new() }
    }
}

impl MarketEffect {
    /// The effect of a record on a book that already existed.
    pub fn from_book_effect(effects: Vec<BookEffect>) -> (r: MarketEffect)
        ensures
            r.publisher_created is None,
            r.book_effects == effects,
    {
        MarketEffect { publisher_created: None, book_effects: effects }
    }

    /// Records that the record created the book of `publisher`.
    pub fn add_publisher_created(&mut self, publisher: u16)
        ensures
            final(self).publisher_created == Some(publisher),
            final(self).book_effects == old(self).book_effects,
    {
        self.publisher_created = Some(publisher);
    }
}

/// The books of every instrument of a feed, one per publisher.
#[derive(Clone)]
pub struct Market {
    books: BTreeMap<u32, Vec<(u16, Book)>>,
}

impl View for Market {
    type V = MarketModel;

    closed spec fn view(&self) -> MarketModel {
        self.books@.map_values(|v: Vec<(u16, Book)>| books_view(v@))
    }
}

impl Market {
    /// The market's rules: under every instrument, each publisher once, and
    /// every book keeps its rules.
    pub open spec fn wf(&self) -> bool {
        forall|iid: u32| #[trigger] self@.contains_key(iid) ==> books_wf(self@[iid])
    }

    /// A market with no books.
    pub fn new() -> (r: Market)
        ensures
            r@ == Map::<u32, Seq<(u16, BookModel)>>::empty(),
            r.wf(),
    {
        let r = Market { books: BTreeMap::new() };
        proof {
            assert(r@ =~= Map::<u32, Seq<(u16, BookModel)>>::empty());
        }
        r
    }
    /// A copy of the market, for a snapshot.
    pub fn copy(&self) -> (r: Market)
        ensures
            r@ == self@,
    {
        Market { books: self.books.clone() }
    }

    /// The ids of the instruments that have books.
    pub fn instrument_ids(&self) -> (r: Vec<u32>)
        ensures
            r@.to_set() == self@.dom(),
    {
        let r = crate::ladder::keys_of(&self.books);
        proof {
            assert(self@.dom() =~= self.books@.dom());
        }
        r
    }

    /// The (publisher, book) pairs of an instrument.
    pub fn books_by_pub(&self, instrument_id: u32) -> (r: Option<&[(u16, Book)]>)
        ensures
            r is Some <==> self@.contains_key(instrument_id),
            r matches Some(s) ==> books_view(s@) == self@[instrument_id],
    {
        match self.books.get(&instrument_id) {
            Some(v) => Some(v.as_slice()),
            None => None,
        }
    }

    /// The book of one publisher for one instrument.
    pub fn book(&self, instrument_id: u32, publisher: u16) -> (r: Option<&Book>)
        ensures
            r is Some <==> (self@.contains_key(instrument_id) && has_publisher(
                self@[instrument_id],
                publisher,
            )),
            r matches Some(b) ==> exists|i: int|
                0 <= i < self@[instrument_id].len() && self@[instrument_id][i] == (publisher, b@),
    {
        let v = match self.books.get(&instrument_id) {
            Some(v) => v,
            None => {
                return None;
            },
        };
        let ghost s = books_view(v@);
        proof {
            assert(self.books@.contains_key(instrument_id));
            assert(self@[instrument_id] == s);
        }
        let mut i: usize = 0;
        while i < v.len()
            invariant
                i <= v@.len(),
                s == books_view(v@),
                self@.contains_key(instrument_id),
                s == self@[instrument_id],
                forall|j: int| 0 <= j < i ==> s[j].0 != publisher,
            decreases v@.len() - i,
        {
            if v[i].0 == publisher {
                proof {
                    assert(s[i as int] == (publisher, v@[i as int].1@));
                    assert(has_publisher(self@[instrument_id], publisher));
                }
                return Some(&v[i].1);
            }
            i = i + 1;
        }
        None
    }

    /// The best bid and best ask of one publisher's book for one instrument;
    /// none where that book does not exist.
    pub fn bbo(&self, instrument_id: u32, publisher: u16) -> (r: (Option<PriceLevel>, Option<PriceLevel>))
        requires
            self.wf(),
        ensures
            match self.book_model(instrument_id, publisher) {
                Some(m) => r == (nth_bid(m, 0), nth_ask(m, 0)),
                None => r == (None::<PriceLevel>, None::<PriceLevel>),
            },
    {
        match self.book(instrument_id, publisher) {
            Some(b) => {
                proof {
                    self.lemma_book_model(instrument_id, publisher, b@);
                }
                b.bbo()
            },
            None => (None, None),
        }
    }

    /// The model of one publisher's book for one instrument.
    pub open spec fn book_model(&self, instrument_id: u32, publisher: u16) -> Option<BookModel> {
        if self@.contains_key(instrument_id) && has_publisher(self@[instrument_id], publisher) {
            Some(self@[instrument_id][publisher_index(self@[instrument_id], publisher)].1)
        } else {
            None
        }
    }

    proof fn lemma_book_model(&self, instrument_id: u32, publisher: u16, b: BookModel)
        requires
            self.wf(),
            self@.contains_key(instrument_id),
            exists|i: int|
                0 <= i < self@[instrument_id].len() && self@[instrument_id][i] == (publisher, b),
        ensures
            self.book_model(instrument_id, publisher) == Some(b),
    {
        let s = self@[instrument_id];
        let i = choose|i: int| 0 <= i < s.len() && s[i] == (publisher, b);
        let k = publisher_index(s, publisher);
        assert(books_wf(s));
        if k != i {
            if k < i {
                assert(s[k].0 != s[i].0);
            } else {
                assert(s[i].0 != s[k].0);
            }
        }
    }

    /// Best bid and best ask over all publishers of an instrument: the
    /// highest bid and the lowest ask, with the sizes and counts of
    /// publishers quoting the same price added together (saturating at
    /// `u32::MAX`).
    pub fn aggregated_bbo(&self, instrument_id: u32) -> (r: (Option<PriceLevel>, Option<PriceLevel>))
        ensures
            r == if self@.contains_key(instrument_id) {
                (agg_bid(self@[instrument_id]), agg_ask(self@[instrument_id]))
            } else {
                (None::<PriceLevel>, None::<PriceLevel>)
            },
    {
        let v = match self.books.get(&instrument_id) {
            Some(v) => v,
            None => {
                return (None, None);
            },
        };
        let ghost s = books_view(v@);
        let mut agg_b: Option<PriceLevel> = None;
        let mut agg_a: Option<PriceLevel> = None;
        let mut i: usize = 0;
        while i < v.len()
            invariant
                i <= v@.len(),
                s == books_view(v@),
                agg_b == agg_bid(s.take(i as int)),
                agg_a == agg_ask(s.take(i as int)),
            decreases v@.len() - i,
        {
            let (bid, ask) = v[i].1.bbo();
            proof {
                assert(s.take(i + 1).drop_last() =~= s.take(i as int));
                assert(s.take(i + 1).last() == s[i as int]);
            }
            agg_b = merge_best_bid(agg_b, bid);
            agg_a = merge_best_ask(agg_a, ask);
            i = i + 1;
        }
        proof {
            assert(s.take(i as int) =~= s);
        }
        (agg_b, agg_a)
    }

    /// Applies one record to the book of its instrument and publisher,
    /// creating that book first if the publisher is new for the instrument.
    /// On an error the market is unchanged.
    pub fn apply(&mut self, mbo: MboMsg) -> (r: Result<MarketEffect, MboError>)
        requires
            old(self).wf(),
        ensures
            final(self).wf(),
            match market_step(old(self)@, mbo) {
                Ok((mm, created, fx)) => r matches Ok(e) && final(self)@ == mm
                    && e.publisher_created == created && effects_view(e.book_effects@) == fx,
                Err(e) => r == Err::<MarketEffect, MboError>(e) && final(self)@ == old(self)@,
            },
    {
        let ghost mm = self@;
        let pid = mbo.publisher_id;
        let iid = mbo.instrument_id;
        if !is_known_publisher(pid) {
            return Err(MboError::InvalidPublisher);
        }
        let had = self.books.contains_key(&iid);
        let mut v = match self.books.remove(&iid) {
            Some(v) => v,
            None => Vec::new(),
        };
        let ghost s = if mm.contains_key(iid) { mm[iid] } else { Seq::empty() };
        proof {
            lemma_view_remove(self.books@, iid);
            assert(books_view(v@) == s);
        }
        let mut i: usize = 0;
        while i < v.len() && v[i].0 != pid
            invariant
                i <= v@.len(),
                books_view(v@) == s,
                forall|j: int| 0 <= j < i ==> s[j].0 != pid,
            decreases v@.len() - i,
        {
            i = i + 1;
        }
        let created = i == v.len();
        if created {
            v.push((pid, Book::new()));
        }
        let ghost s1 = books_view(v@);
        proof {
            if created {
                assert(!has_publisher(s, pid));
                assert(s1 =~= s.push((pid, BookModel::empty())));
            } else {
                assert(s[i as int].0 == pid);
                assert(has_publisher(s, pid));
            }
            assert(s1[i as int].0 == pid);
            assert(books_wf(s1)) by {
                if mm.contains_key(iid) {
                    assert(books_wf(mm[iid]));
                }
                if created {
                    assert forall|a: int, c: int| 0 <= a < c < s1.len() implies (#[trigger] s1[a]).0 != (#[trigger] s1[c]).0 by {
                        if c == s.len() {
                            assert(s[a].0 != pid);
                        }
                    }
                }
            }
            let k = publisher_index(s1, pid);
            assert(0 <= k < s1.len() && s1[k].0 == pid);
            if k != i {
                if k < i {
                    assert(s1[k].0 != s1[i as int].0);
                } else {
                    assert(s1[i as int].0 != s1[k].0);
                }
            }
        }
        let (p, mut book) = v.remove(i);
        let res = book.apply(mbo);
        match res {
            Ok(effects) => {
                v.insert(i, (p, book));
                proof {
                    assert(books_view(v@) =~= s1.update(i as int, (pid, book@)));
                    lemma_view_insert(self.books@, iid, v);
                }
                self.books.insert(iid, v);
                proof {
                    assert forall|id: u32| #[trigger] self@.contains_key(id) implies books_wf(self@[id]) by {
                        if id != iid {
                            assert(mm.contains_key(id));
                        } else {
                            assert(books_wf(s1));
                            let t = self@[id];
                            assert forall|a: int, c: int| 0 <= a < c < t.len() implies (#[trigger] t[a]).0 != (#[trigger] t[c]).0 by {
                                assert(s1[a].0 != s1[c].0);
                            }
                        }
                    }
                }
                let mut effect = MarketEffect::from_book_effect(effects);
                if created {
                    effect.add_publisher_created(pid);
                }
                Ok(effect)
            },
            Err(e) => {
                if !created {
                    v.insert(i, (p, book));
                    proof {
                        assert(books_view(v@) =~= s);
                    }
                } else {
                    proof {
                        assert(books_view(v@) =~= s);
                    }
                }
                if had {
                    proof {
                        lemma_view_insert(self.books@, iid, v);
                    }
                    self.books.insert(iid, v);
                    proof {
                        assert(self@ =~= mm);
                    }
                } else {
                    proof {
                        assert(self@ =~= mm);
                    }
                }
                Err(e)
            },
        }
    }
}

} // verus!
