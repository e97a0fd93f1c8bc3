//! The summary of one price of one side: price, total size, order count.
use vstd::prelude::*;
use crate::msg::MboMsg;

verus! {

/// Total size of a run of orders.
pub open spec fn total_size(orders: Seq<MboMsg>) -> nat
    decreases orders.len(),
{
    if orders.len() == 0 {
        0
    } else {
        total_size(orders.drop_last()) + orders.last().size as nat
    }
}

/// Number of resting (non top-of-book) orders in a run of orders.
pub open spec fn resting_count(orders: Seq<MboMsg>) -> nat
    decreases orders.len(),
{
    if orders.len() == 0 {
        0
    } else {
        resting_count(orders.drop_last()) + if orders.last().spec_is_tob() {
            0nat
        } else {
            1nat
        }
    }
}

/// A count held in 32 bits: exact up to `u32::MAX`, which it stays at beyond.
pub open spec fn saturate(n: nat) -> u32 {
    if n > u32::MAX {
        u32::MAX
    } else {
        n as u32
    }
}

/// Summary of the orders at one price.
#[derive(Clone, Copy, Debug, PartialEq, Eq, Structural)]
pub struct PriceLevel {
    pub price: i64,
    pub size: u32,
    pub count: u32,
}

/// One row of a book snapshot: the level of that depth on each side, with
/// zeros where a side has no level that deep.
#[derive(Clone, Copy, Debug, PartialEq, Eq, Structural)]
pub struct BidAskPair {
    pub bid_px: i64,
    pub ask_px: i64,
    pub bid_sz: u32,
    pub ask_sz: u32,
    pub bid_ct: u32,
    pub ask_ct: u32,
}

/// The summary of a run of orders at a price.
pub open spec fn summary(price: i64, orders: Seq<MboMsg>) -> PriceLevel {
    PriceLevel {
        price,
        size: saturate(total_size(orders)),
        count: saturate(resting_count(orders)),
    }
}

impl PriceLevel {
    /// Summarizes the orders resting at `price`: their total size, and the
    /// number of them that are not top-of-book records (a top-of-book record
    /// adds to the size only). Both saturate at `u32::MAX`.
    pub fn new(price: i64, orders: &[MboMsg]) -> (r: PriceLevel)
        ensures
            r == summary(price, orders@),
    {
        let mut size: u32 = 0;
        let mut count: u32 = 0;
        let mut i: usize = 0;
        while i < orders.len()
            invariant
                i <= orders@.len(),
                size == saturate(total_size(orders@.take(i as int))),
                count == saturate(resting_count(orders@.take(i as int))),
            decreases orders@.len() - i,
        {
            proof {
                assert(orders@.take(i as int + 1).drop_last() =~= orders@.take(i as int));
            }
            size = size.saturating_add(orders[i].size);
            if !orders[i].is_tob() {
                count = count.saturating_add(1);
            }
            i = i + 1;
        }
        proof {
            assert(orders@.take(i as int) =~= orders@);
        }
        PriceLevel { price, size, count }
    }
}

} // verus!
