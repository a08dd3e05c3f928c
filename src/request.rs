use vstd::prelude::*;
use crate::models::{Order, OrderType, Side};

verus! {

/// The lower-case form of a string, as `str::to_lowercase` gives it.
pub uninterp spec fn lower_of(s: Seq<char>) -> Seq<char>;

/// Relies on `str::to_lowercase`: the result depends on the characters alone.
#[verifier::external_body]
fn lowercase(s: &str) -> (r: String)
    ensures
        r@ == lower_of(s@),
{
    s.to_lowercase()
}

/// Why a request cannot become an order.
#[derive(Clone, Copy, Debug, PartialEq, Eq, Structural)]
pub enum RequestError {
    InvalidSide,
    InvalidOrderType,
    InvalidQuantity,
}

pub open spec fn side_named(name: Seq<char>) -> Option<Side> {
    if name == "buy"@ {
        Some(Side::Buy)
    } else if name == "sell"@ {
        Some(Side::Sell)
    } else {
        None
    }
}

pub open spec fn order_type_named(name: Seq<char>) -> Option<OrderType> {
    if name == "limit"@ {
        Some(OrderType::Limit)
    } else if name == "market"@ {
        Some(OrderType::Market)
    } else {
        None
    }
}

/// The side named by an already lower-cased word.
pub fn side_from_lowercase(name: &String) -> (r: Option<Side>)
    ensures
        r == side_named(name@),
{
    let buy: String = "buy".to_owned();
    let sell: String = "sell".to_owned();
    if *name == buy {
        Some(Side::Buy)
    } else if *name == sell {
        Some(Side::Sell)
    } else {
        None
    }
}

/// The order type named by an already lower-cased word.
pub fn order_type_from_lowercase(name: &String) -> (r: Option<OrderType>)
    ensures
        r == order_type_named(name@),
{
    let limit: String = "limit".to_owned();
    let market: String = "market".to_owned();
    if *name == limit {
        Some(OrderType::Limit)
    } else if *name == market {
        Some(OrderType::Market)
    } else {
        None
    }
}

/// Builds an order from request fields. Side and order type are matched
/// without regard to case, and the price is kept for a limit order only.
/// Beyond side and order type the request itself is not validated; the one
/// further refusal is a zero quantity, which is not a well-formed order and
/// which the book, taking positive quantities only, leaves to its caller to
/// reject. Every other request becomes an order.
pub fn order_from_request(
    user_id: String,
    symbol: String,
    side: &str,
    order_type: &str,
    price: u64,
    quantity: u64,
) -> (r: Result<Order, RequestError>)
    ensures
        side_named(lower_of(side@)) is None ==> r == Err::<Order, RequestError>(RequestError::InvalidSide),
        side_named(lower_of(side@)) is Some && order_type_named(lower_of(order_type@)) is None
            ==> r == Err::<Order, RequestError>(RequestError::InvalidOrderType),
        side_named(lower_of(side@)) is Some && order_type_named(lower_of(order_type@)) is Some
            && quantity == 0 ==> r == Err::<Order, RequestError>(RequestError::InvalidQuantity),
        side_named(lower_of(side@)) is Some && order_type_named(lower_of(order_type@)) is Some
            && quantity > 0 ==> r is Ok,
        r is Ok ==> ({
            let o = r->Ok_0;
            &&& side_named(lower_of(side@)) == Some(o.side)
            &&& order_type_named(lower_of(order_type@)) == Some(o.order_type)
            &&& o.user_id == user_id
            &&& o.symbol == symbol
            &&& o.quantity == quantity
            &&& o.price == if o.order_type == OrderType::Limit {
                Some(price)
            } else {
                None::<u64>
            }
            &&& o.well_formed()
        }),
{
    let s = match side_from_lowercase(&lowercase(side)) {
        Some(s) => s,
        None => return Err(RequestError::InvalidSide),
    };
    let t = match order_type_from_lowercase(&lowercase(order_type)) {
        Some(t) => t,
        None => return Err(RequestError::InvalidOrderType),
    };
    if quantity == 0 {
        return Err(RequestError::InvalidQuantity);
    }
    let limit = if t == OrderType::Limit {
        Some(price)
    } else {
        None
    };
    Ok(Order::new(user_id, symbol, s, t, limit, quantity))
}

} // verus!
