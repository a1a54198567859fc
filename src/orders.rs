use vstd::prelude::*;
use vstd::string::StringExecFns;

use crate::notice::{decimal, decimal_string};

verus! {

/// Identifies the client connection that owns an order; notifications for
/// the order are routed to it.
pub type ClientId = u64;

/// Buy (`Bid`) or sell (`Ask`) interest.
#[derive(Debug, Clone, Copy, PartialEq, Eq, Structural)]
pub enum MarketSide {
    Bid,
    Ask,
}

impl MarketSide {
    pub open spec fn opposite_spec(self) -> MarketSide {
        match self {
            MarketSide::Bid => MarketSide::Ask,
            MarketSide::Ask => MarketSide::Bid,
        }
    }

    /// The side whose resting orders an aggressor on this side trades with.
    #[verifier::when_used_as_spec(opposite_spec)]
    pub fn opposite(self) -> (r: MarketSide)
        ensures
            r == self.opposite_spec(),
    {
        match self {
            MarketSide::Bid => MarketSide::Ask,
            MarketSide::Ask => MarketSide::Bid,
        }
    }
}

/// A point in time, in microseconds since the Unix epoch (UTC).
#[derive(Debug, Clone, Copy, PartialEq, Eq, Structural)]
pub struct Timestamp {
    pub micros: i64,
}

/// Relies on chrono's `From<SystemTime> for DateTime<Utc>` and
/// `DateTime::timestamp_micros`: the current time, whatever it is. A clock set
/// before 1970 gives a negative timestamp; the conversion does not panic for
/// any time a clock can show.
#[verifier::external_body]
pub(crate) fn now() -> (r: Timestamp) {
    let t = chrono::DateTime::<chrono::Utc>::from(std::time::SystemTime::now());
    Timestamp { micros: t.timestamp_micros() }
}

/// An aggressing order: it trades at whatever prices rest on the other side
/// and never rests itself.
#[derive(Debug, Clone, Copy, PartialEq, Eq, Structural)]
pub struct MarketOrder {
    pub timestamp: Timestamp,
    pub size: usize,
    pub fill_size: usize,
    pub side: MarketSide,
    pub client: ClientId,
}

impl MarketOrder {
    /// The quantity still to trade.
    pub open spec fn remaining(&self) -> int {
        self.size - self.fill_size
    }

    pub fn new(
        timestamp: Timestamp,
        size: usize,
        fill_size: usize,
        side: MarketSide,
        client: ClientId,
    ) -> (r: Self)
        ensures
            r.timestamp == timestamp,
            r.size == size,
            r.fill_size == fill_size,
            r.side == side,
            r.client == client,
    {
        MarketOrder { timestamp, size, fill_size, side, client }
    }

    pub fn timestamp(&self) -> (r: Timestamp)
        ensures
            r == self.timestamp,
    {
        self.timestamp
    }

    pub fn size(&self) -> (r: usize)
        ensures
            r == self.size,
    {
        self.size
    }

    pub fn fill_size(&self) -> (r: usize)
        ensures
            r == self.fill_size,
    {
        self.fill_size
    }

    pub fn set_fill_size(&mut self, fill_size: usize)
        ensures
            *final(self) == (MarketOrder { fill_size, ..*old(self) }),
    {
        self.fill_size = fill_size;
    }

    pub fn side(&self) -> (r: MarketSide)
        ensures
            r == self.side,
    {
        self.side
    }

    pub fn client(&self) -> (r: ClientId)
        ensures
            r == self.client,
    {
        self.client
    }
}

/// A resting order: it waits in the book at its limit price until other
/// orders have traded its whole size.
#[derive(Debug, Clone, Copy, PartialEq, Eq, Structural)]
pub struct LimitOrder {
    pub timestamp: Timestamp,
    pub size: usize,
    pub fill_size: usize,
    pub side: MarketSide,
    pub price: usize,
    pub client: ClientId,
}

impl LimitOrder {
    /// The quantity still open.
    pub open spec fn remaining(&self) -> int {
        self.size - self.fill_size
    }

    /// The same order with `amount` more of it filled.
    pub open spec fn filled_by(self, amount: int) -> LimitOrder {
        LimitOrder { fill_size: (self.fill_size + amount) as usize, ..self }
    }

    pub fn new(
        timestamp: Timestamp,
        size: usize,
        fill_size: usize,
        side: MarketSide,
        price: usize,
        client: ClientId,
    ) -> (r: Self)
        ensures
            r.timestamp == timestamp,
            r.size == size,
            r.fill_size == fill_size,
            r.side == side,
            r.price == price,
            r.client == client,
    {
        LimitOrder { timestamp, size, fill_size, side, price, client }
    }

    pub fn timestamp(&self) -> (r: Timestamp)
        ensures
            r == self.timestamp,
    {
        self.timestamp
    }

    pub fn size(&self) -> (r: usize)
        ensures
            r == self.size,
    {
        self.size
    }

    pub fn fill_size(&self) -> (r: usize)
        ensures
            r == self.fill_size,
    {
        self.fill_size
    }

    pub fn set_fill_size(&mut self, fill_size: usize)
        ensures
            *final(self) == (LimitOrder { fill_size, ..*old(self) }),
    {
        self.fill_size = fill_size;
    }

    pub fn side(&self) -> (r: MarketSide)
        ensures
            r == self.side,
    {
        self.side
    }

    pub fn price(&self) -> (r: usize)
        ensures
            r == self.price,
    {
        self.price
    }

    pub fn client(&self) -> (r: ClientId)
        ensures
            r == self.client,
    {
        self.client
    }
}

/// The text of a resting order in the book's dump.
pub open spec fn limit_order_text(o: LimitOrder) -> Seq<char> {
    "LimitOrder: size: "@ + decimal(o.size as nat) + ", fill_size: "@ + decimal(
        o.fill_size as nat,
    )
}

impl LimitOrder {
    pub fn text(&self) -> (r: String)
        ensures
            r@ == limit_order_text(*self),
    {
        let mut s = String::from_str("LimitOrder: size: ");
        let a = decimal_string(self.size);
        s.append(a.as_str());
        s.append(", fill_size: ");
        let b = decimal_string(self.fill_size);
        s.append(b.as_str());
        s
    }
}

/// What travels from the client sessions to the matching engine.
#[derive(Debug, Clone, Copy, PartialEq, Eq, Structural)]
pub enum Orders {
    Market(MarketOrder),
    Limit(LimitOrder),
}

impl From<MarketOrder> for Orders {
    fn from(order: MarketOrder) -> (r: Orders)
        ensures
            r == Orders::Market(order),
    {
        Orders::Market(order)
    }
}

impl vstd::std_specs::convert::FromSpecImpl<MarketOrder> for Orders {
    open spec fn obeys_from_spec() -> bool {
        true
    }

    open spec fn from_spec(order: MarketOrder) -> Orders {
        Orders::Market(order)
    }
}

impl From<LimitOrder> for Orders {
    fn from(order: LimitOrder) -> (r: Orders)
        ensures
            r == Orders::Limit(order),
    {
        Orders::Limit(order)
    }
}

impl vstd::std_specs::convert::FromSpecImpl<LimitOrder> for Orders {
    open spec fn obeys_from_spec() -> bool {
        true
    }

    open spec fn from_spec(order: LimitOrder) -> Orders {
        Orders::Limit(order)
    }
}

} // verus!
