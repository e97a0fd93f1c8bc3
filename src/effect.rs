//! What one applied record did to a book, and the errors that stop it.
use vstd::prelude::*;
use crate::msg::Side;

verus! {

/// Why a record was passed over without touching the book.
#[derive(Clone, Copy, Debug, PartialEq, Eq, Structural)]
pub enum SkipReason {
    /// A cancel for an order that was never seen.
    PreSnapshotCancel,
    /// A modify for an order that was never seen.
    PreSnapshotModify,
}

/// How much of an order a cancel took away.
#[derive(Clone, Copy, Debug, PartialEq, Eq, Structural)]
pub enum CancelKind {
    Partial,
    Full,
}

/// Whether a modified order kept its place in the queue.
#[derive(Clone, Copy, Debug, PartialEq, Eq, Structural)]
pub enum ModifyKind {
    KeptPriority,
    Requeued,
}

/// Errors that stop a record from being applied.
#[derive(Clone, Copy, Debug, PartialEq, Eq, Structural)]
pub enum MboError {
    /// The action character names no action.
    InvalidAction,
    /// The record needs a side and names none.
    InvalidSide,
    /// A resting order was added without a price.
    InvalidPrice,
    /// The publisher id names no known publisher.
    InvalidPublisher,
    /// An order was added under an id that is already resting.
    DuplicateOrder,
    /// A cancel asked for more than the order holds.
    CancelExceedsSize,
    /// The book's indexes disagree with each other.
    InternalInconsistency,
}

/// A structural change made to a book by one record.
#[derive(Clone, Debug, PartialEq, Eq)]
pub enum BookEffect {
    NoOp,
    Added { order_id: u64, side: Side, price: i64 },
    Canceled { order_id: u64, extent: CancelKind },
    Modified { order_id: u64, priority: ModifyKind, prev_price: i64, new_price: i64 },
    Cleared,
    CrossedResolved { removed_bid_price: i64, removed_ask_price: i64, removed_order_ids: Vec<u64> },
    Skipped { reason: SkipReason },
}

/// The mathematical value of a [`BookEffect`].
pub enum EffectModel {
    NoOp,
    Added { order_id: u64, side: Side, price: i64 },
    Canceled { order_id: u64, extent: CancelKind },
    Modified { order_id: u64, priority: ModifyKind, prev_price: i64, new_price: i64 },
    Cleared,
    CrossedResolved { removed_bid_price: i64, removed_ask_price: i64, removed_order_ids: Seq<u64> },
    Skipped { reason: SkipReason },
}

impl View for BookEffect {
    type V = EffectModel;

    open spec fn view(&self) -> EffectModel {
        match self {
            BookEffect::NoOp => EffectModel::NoOp,
            BookEffect::Added { order_id, side, price } => EffectModel::Added {
                order_id: *order_id,
                side: *side,
                price: *price,
            },
            BookEffect::Canceled { order_id, extent } => EffectModel::Canceled {
                order_id: *order_id,
                extent: *extent,
            },
            BookEffect::Modified { order_id, priority, prev_price, new_price } => EffectModel::Modified {
                order_id: *order_id,
                priority: *priority,
                prev_price: *prev_price,
                new_price: *new_price,
            },
            BookEffect::Cleared => EffectModel::Cleared,
            BookEffect::CrossedResolved {
                removed_bid_price,
                removed_ask_price,
                removed_order_ids,
            } => EffectModel::CrossedResolved {
                removed_bid_price: *removed_bid_price,
                removed_ask_price: *removed_ask_price,
                removed_order_ids: removed_order_ids@,
            },
            BookEffect::Skipped { reason } => EffectModel::Skipped { reason: *reason },
        }
    }
}

/// The mathematical value of a run of effects.
pub open spec fn effects_view(fx: Seq<BookEffect>) -> Seq<EffectModel> {
    fx.map_values(|e: BookEffect| e@)
}

} // verus!
