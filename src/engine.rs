use vstd::prelude::*;
use crate::allocation::{
    MatchingMode, execute_level, fifo_caps, fill_level, level_caps, pro_rata_allocation, quantities,
    caps_view,
};
use crate::models::{Order, OrderType, Side, Trade, TradeTerms, terms_of};
use crate::side_book::{LevelView, PriceLevel, SideBook, insert_resting};


verus! {

/// A taker with this side and limit may trade at `price`: a buy at or below
/// its limit, a sell at or above it; a market order (no limit) at any price.
pub open spec fn crosses(taker_side: Side, limit: Option<u64>, price: u64) -> bool {
    match limit {
        None => true,
        Some(l) => if taker_side == Side::Buy {
            price <= l
        } else {
            price >= l
        },
    }
}

/// What matching an incoming order against the opposing side yields.
pub struct WalkOutcome {
    pub trades: Seq<TradeTerms>,
    pub book: Seq<LevelView>,
    pub remaining: int,
}

/// Matches `remaining` units of `taker` against `levels` (best level last),
/// best price first, until the quantity is used up, the book is empty, the
/// best price no longer crosses, or a level keeps some of its orders. A level
/// keeps orders only once the quantity is used up (`law_fifo_fairness`,
/// `law_pro_rata_total`), so the last case is the first seen from the level.
pub open spec fn walk(levels: Seq<LevelView>, taker: Order, remaining: int, mode: MatchingMode) -> WalkOutcome
    decreases levels.len(),
{
    if remaining <= 0 || levels.len() == 0 || !crosses(taker.side, taker.price, levels.last().price) {
        WalkOutcome { trades: seq![], book: levels, remaining }
    } else {
        let best = levels.last();
        let out = fill_level(
            best.orders,
            level_caps(mode, quantities(best.orders), remaining),
            remaining,
            best.price,
            taker.user_id@,
            taker.side,
        );
        if out.rest.len() > 0 {
            WalkOutcome {
                trades: out.trades,
                book: levels.drop_last().push(LevelView { price: best.price, orders: out.rest }),
                remaining: out.remaining,
            }
        } else {
            let next = walk(levels.drop_last(), taker, out.remaining, mode);
            WalkOutcome {
                trades: out.trades + next.trades,
                book: next.book,
                remaining: next.remaining,
            }
        }
    }
}

pub open spec fn opposite(side: Side) -> Side {
    if side == Side::Buy {
        Side::Sell
    } else {
        Side::Buy
    }
}

/// The book after submitting `order`: the trades, the opposing side and the
/// order's own side.
pub struct SubmitOutcome {
    pub trades: Seq<TradeTerms>,
    pub opposing: Seq<LevelView>,
    pub own: Seq<LevelView>,
}

/// Matching against `opposing`, then a limit order's unfilled rest joins
/// `own` at its limit price; a market order's rest is dropped.
pub open spec fn submit_outcome(
    opposing: Seq<LevelView>,
    own: Seq<LevelView>,
    order: Order,
    mode: MatchingMode,
) -> SubmitOutcome {
    let w = walk(opposing, order, order.quantity as int, mode);
    SubmitOutcome {
        trades: w.trades,
        opposing: w.book,
        own: if w.remaining > 0 && order.order_type == OrderType::Limit {
            insert_resting(own, order.side, order.price->0, order.with_quantity(w.remaining as u64))
        } else {
            own
        },
    }
}

/// The order book: bids and asks of one instrument, and the matching mode
/// chosen when it was made.
pub struct OrderBook {
    pub buy_book: SideBook,
    pub sell_book: SideBook,
    pub mode: MatchingMode,
}

impl OrderBook {
    pub open spec fn wf(&self) -> bool {
        &&& self.buy_book.side == Side::Buy
        &&& self.sell_book.side == Side::Sell
        &&& self.buy_book.wf()
        &&& self.sell_book.wf()
    }

    /// The side that `side` orders rest on.
    pub open spec fn own_side(&self, side: Side) -> Seq<LevelView> {
        if side == Side::Buy {
            self.buy_book@
        } else {
            self.sell_book@
        }
    }

    /// The side that `side` orders trade against.
    pub open spec fn opposing_side(&self, side: Side) -> Seq<LevelView> {
        if side == Side::Buy {
            self.sell_book@
        } else {
            self.buy_book@
        }
    }

    /// An empty book.
    pub fn new(mode: MatchingMode) -> (r: OrderBook)
        ensures
            r.wf(),
            r.mode == mode,
            r.buy_book@.len() == 0,
            r.sell_book@.len() == 0,
    {
        OrderBook { buy_book: SideBook::new(Side::Buy), sell_book: SideBook::new(Side::Sell), mode }
    }

    /// Matches `order` against the opposing side, best price first, and rests
    /// a limit order's unfilled quantity on its own side.
    pub fn submit_order(&mut self, order: Order) -> (trades: Vec<Trade>)
        requires
            old(self).wf(),
            order.well_formed(),
        ensures
            final(self).wf(),
            final(self).mode == old(self).mode,
            ({
                let out = submit_outcome(
                    old(self).opposing_side(order.side),
                    old(self).own_side(order.side),
                    order,
                    old(self).mode,
                );
                &&& terms_of(trades@) == out.trades
                &&& final(self).opposing_side(order.side) == out.opposing
                &&& final(self).own_side(order.side) == out.own
            }),
    {
        let mut trades: Vec<Trade> = Vec::new();
        let mut remaining: u64 = order.quantity;
        let mode = self.mode;
        proof {
            assert(terms_of(trades@) =~= Seq::<TradeTerms>::empty());
        }
        if order.side == Side::Buy {
            match_against(&mut self.sell_book, &order, mode, &mut remaining, &mut trades);
            if remaining > 0 && order.order_type == OrderType::Limit {
                let price = order.price.unwrap();
                let mut rest = order;
                rest.quantity = remaining;
                self.buy_book.add_resting(price, rest);
            }
        } else {
            match_against(&mut self.buy_book, &order, mode, &mut remaining, &mut trades);
            if remaining > 0 && order.order_type == OrderType::Limit {
                let price = order.price.unwrap();
                let mut rest = order;
                rest.quantity = remaining;
                self.sell_book.add_resting(price, rest);
            }
        }
        trades
    }
}

/// Walks the opposing side best level first, trading `taker` at each level by
/// the active mode until its quantity is used up or prices stop crossing.
fn match_against(
    opposing: &mut SideBook,
    taker: &Order,
    mode: MatchingMode,
    remaining: &mut u64,
    trades: &mut Vec<Trade>,
)
    requires
        old(opposing).wf(),
        old(opposing).side == opposite(taker.side),
    ensures
        final(opposing).side == old(opposing).side,
        final(opposing).wf(),
        ({
            let w = walk(old(opposing)@, *taker, *old(remaining) as int, mode);
            &&& terms_of(final(trades)@) == terms_of(old(trades)@) + w.trades
            &&& final(opposing)@ == w.book
            &&& *final(remaining) as int == w.remaining
        }),
{
    let ghost w = walk(opposing@, *taker, *remaining as int, mode);
    let ghost t0 = terms_of(trades@);
    let ghost mut acc: Seq<TradeTerms> = seq![];
    let maker_side = opposing.side;
    proof {
        assert(t0 + acc =~= t0);
        assert(acc + w.trades =~= w.trades);
    }
    loop
        invariant_except_break
            ({
                let now = walk(opposing@, *taker, *remaining as int, mode);
                &&& w.trades == acc + now.trades
                &&& w.book == now.book
                &&& w.remaining == now.remaining
            }),
        invariant
            opposing.wf(),
            opposing.side == maker_side,
            maker_side == opposite(taker.side),
            terms_of(trades@) == t0 + acc,
        ensures
            terms_of(trades@) == t0 + w.trades,
            opposing@ == w.book,
            *remaining as int == w.remaining,
        decreases opposing@.len(),
    {
        let n: usize = opposing.levels.len();
        if *remaining == 0 || n == 0 {
            proof {
                assert(acc + seq![] =~= acc);
            }
            break;
        }
        let best_price: u64 = opposing.levels[n - 1].price;
        let crossing: bool = match taker.price {
            None => true,
            Some(l) => if taker.side == Side::Buy {
                best_price <= l
            } else {
                best_price >= l
            },
        };
        proof {
            assert(opposing@.last().price == best_price);
        }
        if !crossing {
            proof {
                assert(acc + seq![] =~= acc);
            }
            break;
        }
        let ghost before = opposing@;
        let ghost rem = *remaining as int;
        let level = opposing.levels.pop().unwrap();
        proof {
            assert(opposing@ =~= before.drop_last());
            assert(level@ == before.last());
            assert forall|k: int| 0 <= k < level.orders@.len() implies crate::allocation::rests_at(
                #[trigger] level.orders@[k],
                maker_side,
                level.price,
            ) by {
                assert(before[before.len() - 1].orders[k] == level.orders@[k]);
            }
            assert(crate::side_book::levels_wf(maker_side, opposing@));
        }
        let caps = match mode {
            MatchingMode::Fifo => fifo_caps(&level.orders),
            MatchingMode::ProRata => pro_rata_allocation(&level.orders, *remaining),
        };
        let ghost out = fill_level(
            level.orders@,
            level_caps(mode, quantities(level.orders@), rem),
            rem,
            level.price,
            taker.user_id@,
            taker.side,
        );
        proof {
            assert(caps_view(caps@) == level_caps(mode, quantities(level.orders@), rem));
        }
        let ghost tb = terms_of(trades@);
        let price = level.price;
        let rest = execute_level(level.orders, &caps, price, taker, remaining, trades, maker_side);
        let ghost acc0 = acc;
        proof {
            assert(terms_of(trades@) == tb + out.trades);
            assert(t0 + acc + out.trades =~= t0 + (acc + out.trades));
            acc = acc + out.trades;
        }
        if rest.len() > 0 {
            let ghost mid = opposing@;
            opposing.levels.push(PriceLevel { price, orders: rest });
            proof {
                assert(opposing@ =~= mid.push(LevelView { price, orders: out.rest }));
                assert(w.trades =~= acc);
                assert forall|i: int| 0 <= i < opposing@.len() - 1 implies (#[trigger] opposing@[i]).price == before[i].price by {}
                assert(crate::side_book::levels_wf(maker_side, opposing@));
            }
            break;
        }
        proof {
            let next = walk(opposing@, *taker, *remaining as int, mode).trades;
            assert(acc0 + (out.trades + next) =~= acc + next);
        }
    }
}

} // verus!
