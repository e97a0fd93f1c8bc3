//! The market-by-order record consumed by the engine, and the decoding of
//! its raw side, action and flag fields.
use vstd::prelude::*;

verus! {

/// The price sentinel meaning "no price".
pub const UNDEF_PRICE: i64 = 9223372036854775807;

/// Flag bit: the record describes the top of book, not a resting order.
pub const TOB_FLAG: u8 = 64;

/// Flag bit: the record is the last one of an event.
pub const LAST_FLAG: u8 = 128;

/// A side of the book.
#[derive(Clone, Copy, Debug, PartialEq, Eq, Structural)]
pub enum Side {
    Ask,
    Bid,
}

/// What a record does to the book.
#[derive(Clone, Copy, Debug, PartialEq, Eq, Structural)]
pub enum Action {
    Add,
    Cancel,
    Modify,
    Clear,
    Trade,
    Fill,
    /// A record that carries no book action.
    NoAction,
}

/// One market-by-order record, with its fields as the feed carries them.
#[derive(Clone, Copy, Debug, PartialEq, Eq, Structural)]
pub struct MboMsg {
    pub ts_event: u64,
    pub publisher_id: u16,
    pub instrument_id: u32,
    pub order_id: u64,
    pub price: i64,
    pub size: u32,
    pub flags: u8,
    pub channel_id: u8,
    /// Raw action character.
    pub action: u8,
    /// Raw side character.
    pub side: u8,
    pub ts_recv: u64,
    pub ts_in_delta: i32,
    pub sequence: u32,
}

/// The side named by a raw side character: `A`sk, `B`id; `N` and any
/// other character name none.
pub open spec fn side_of(c: u8) -> Option<Side> {
    if c == 65 {
        Some(Side::Ask)
    } else if c == 66 {
        Some(Side::Bid)
    } else {
        None
    }
}

/// The action named by a raw action character.
pub open spec fn action_of(c: u8) -> Option<Action> {
    if c == 65 {
        Some(Action::Add)
    } else if c == 67 {
        Some(Action::Cancel)
    } else if c == 77 {
        Some(Action::Modify)
    } else if c == 82 {
        Some(Action::Clear)
    } else if c == 84 {
        Some(Action::Trade)
    } else if c == 70 {
        Some(Action::Fill)
    } else if c == 78 {
        Some(Action::NoAction)
    } else {
        None
    }
}

/// Whether a flag byte marks a top-of-book record.
pub open spec fn tob_flag(flags: u8) -> bool {
    flags & TOB_FLAG != 0
}

/// Whether a flag byte marks the last record of an event.
pub open spec fn last_flag(flags: u8) -> bool {
    flags & LAST_FLAG != 0
}

/// Decodes a raw side character.
pub fn decode_side(c: u8) -> (r: Option<Side>)
    ensures
        r == side_of(c),
{
    if c == 65 {
        Some(Side::Ask)
    } else if c == 66 {
        Some(Side::Bid)
    } else {
        None
    }
}

/// Decodes a raw action character.
pub fn decode_action(c: u8) -> (r: Option<Action>)
    ensures
        r == action_of(c),
{
    if c == 65 {
        Some(Action::Add)
    } else if c == 67 {
        Some(Action::Cancel)
    } else if c == 77 {
        Some(Action::Modify)
    } else if c == 82 {
        Some(Action::Clear)
    } else if c == 84 {
        Some(Action::Trade)
    } else if c == 70 {
        Some(Action::Fill)
    } else if c == 78 {
        Some(Action::NoAction)
    } else {
        None
    }
}

impl MboMsg {
    /// Whether this record describes the top of book rather than a resting order.
    pub open spec fn spec_is_tob(&self) -> bool {
        tob_flag(self.flags)
    }

    /// Whether this record describes the top of book rather than a resting order.
    #[verifier::when_used_as_spec(spec_is_tob)]
    pub fn is_tob(&self) -> (r: bool)
        ensures
            r == tob_flag(self.flags),
    {
        self.flags & TOB_FLAG != 0
    }

    /// Whether this record is the last one of its event.
    pub fn is_last(&self) -> (r: bool)
        ensures
            r == last_flag(self.flags),
    {
        self.flags & LAST_FLAG != 0
    }

    /// The decoded side of this record.
    pub fn side(&self) -> (r: Option<Side>)
        ensures
            r == side_of(self.side),
    {
        decode_side(self.side)
    }

    /// The decoded action of this record.
    pub fn action(&self) -> (r: Option<Action>)
        ensures
            r == action_of(self.action),
    {
        decode_action(self.action)
    }
}

/// Whether a raw publisher id names a publisher known to the feed format.
pub uninterp spec fn publisher_known(id: u16) -> bool;

/// Relies on dbn's `Publisher::try_from(u16)`: it succeeds exactly for the
/// ids of known publishers.
#[verifier::external_body]
pub(crate) fn is_known_publisher(id: u16) -> (r: bool)
    ensures
        r == publisher_known(id),
{
    databento::dbn::Publisher::try_from(id).is_ok()
}

} // verus!
