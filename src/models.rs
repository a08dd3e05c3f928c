use vstd::prelude::*;

verus! {

/// Which side of the book an order belongs to.
#[derive(Clone, Copy, Debug, PartialEq, Eq, Structural)]
pub enum Side {
    Buy,
    Sell,
}

/// A limit order carries a price and may rest; a market order never rests.
#[derive(Clone, Copy, Debug, PartialEq, Eq, Structural)]
pub enum OrderType {
    Market,
    Limit,
}

/// A submitted order. `timestamp` is in milliseconds since the Unix epoch.
#[derive(Clone, Debug)]
pub struct Order {
    pub id: String,
    pub user_id: String,
    pub symbol: String,
    pub side: Side,
    pub order_type: OrderType,
    pub price: Option<u64>,
    pub quantity: u64,
    pub timestamp: i64,
}

/// An executed match. `timestamp` is in milliseconds since the Unix epoch.
#[derive(Clone, Debug)]
pub struct Trade {
    pub price: u64,
    pub quantity: u64,
    pub buyer: String,
    pub seller: String,
    pub timestamp: i64,
}

/// The economic content of a trade: everything but its time stamp.
pub struct TradeTerms {
    pub price: u64,
    pub quantity: u64,
    pub buyer: Seq<char>,
    pub seller: Seq<char>,
}

impl Order {
    /// A limit order has a price, a market order has none, and the quantity is positive.
    pub open spec fn well_formed(&self) -> bool {
        &&& self.quantity > 0
        &&& (self.order_type == OrderType::Limit <==> self.price is Some)
    }

    /// The same order with another remaining quantity.
    pub open spec fn with_quantity(self, q: u64) -> Order {
        Order {
            id: self.id,
            user_id: self.user_id,
            symbol: self.symbol,
            side: self.side,
            order_type: self.order_type,
            price: self.price,
            quantity: q,
            timestamp: self.timestamp,
        }
    }

    /// Creates an order with a fresh random identifier, stamped with the current time.
    pub fn new(
        user_id: String,
        symbol: String,
        side: Side,
        order_type: OrderType,
        price: Option<u64>,
        quantity: u64,
    ) -> (r: Order)
        ensures
            r.user_id == user_id,
            r.symbol == symbol,
            r.side == side,
            r.order_type == order_type,
            r.price == price,
            r.quantity == quantity,
    {
        Order {
            id: new_order_id(),
            user_id,
            symbol,
            side,
            order_type,
            price,
            quantity,
            timestamp: now_millis(),
        }
    }
}

impl Trade {
    pub open spec fn terms(self) -> TradeTerms {
        TradeTerms {
            price: self.price,
            quantity: self.quantity,
            buyer: self.buyer@,
            seller: self.seller@,
        }
    }
}

/// The terms of each trade of a sequence, in order.
pub open spec fn terms_of(trades: Seq<Trade>) -> Seq<TradeTerms> {
    trades.map_values(|t: Trade| t.terms())
}

/// Relies on uuid's `Uuid::new_v4` and its `Display`: a random identifier,
/// so nothing is stated of it.
#[verifier::external_body]
pub(crate) fn new_order_id() -> (r: String) {
    uuid::Uuid::new_v4().to_string()
}

/// Relies on chrono's `Utc::now` and `DateTime::timestamp_millis`: the clock,
/// so nothing is stated of the value read.
#[verifier::external_body]
pub(crate) fn now_millis() -> (r: i64) {
    chrono::Utc::now().timestamp_millis()
}

} // verus!
