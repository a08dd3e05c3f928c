use vstd::prelude::*;
use crate::allocation::{
    MatchingMode, fill_level, lemma_elem_le_total, lemma_fill_level_conserves, lemma_traded_append,
    level_caps, quantities, resting_total, total, traded,
};
use crate::engine::{crosses, opposite, submit_outcome, walk};
use crate::models::{Order, Side};
use crate::side_book::{LevelView, has_price, insert_resting, levels_wf};

verus! {

/// `a` comes no later than `b` in the order a taker on `side` meets prices:
/// ascending for a buyer, descending for a seller.
pub open spec fn in_price_order(side: Side, a: u64, b: u64) -> bool {
    if side == Side::Buy {
        a <= b
    } else {
        a >= b
    }
}

/// Dropping the best level keeps a side well formed.
pub proof fn lemma_wf_drop_last(side: Side, levels: Seq<LevelView>)
    requires
        levels_wf(side, levels),
        levels.len() > 0,
    ensures
        levels_wf(side, levels.drop_last()),
{
    let d = levels.drop_last();
    assert forall|i: int| 0 <= i < d.len() implies #[trigger] d[i] == levels[i] by {}
}

/// The caps of a level of positive quantities are never negative.
pub proof fn lemma_level_caps_nonneg(mode: MatchingMode, queue: Seq<Order>, remaining: int)
    requires
        forall|k: int| 0 <= k < queue.len() ==> (#[trigger] queue[k]).quantity > 0,
        remaining >= 0,
    ensures
        ({
            let caps = level_caps(mode, quantities(queue), remaining);
            &&& caps.len() == queue.len()
            &&& forall|i: int| 0 <= i < caps.len() ==> caps[i] >= 0
        }),
{
    let qs = quantities(queue);
    let caps = level_caps(mode, qs, remaining);
    assert forall|i: int| 0 <= i < caps.len() implies caps[i] >= 0 by {
        lemma_elem_le_total(qs, i);
        let q = qs[i];
        let s = total(qs);
        assert(q > 0);
        assert(q * remaining / s >= 0) by (nonlinear_arith)
            requires
                q > 0,
                s >= q,
                remaining >= 0,
        ;
    }
}

proof fn lemma_walk(levels: Seq<LevelView>, taker: Order, remaining: int, mode: MatchingMode)
    requires
        levels_wf(opposite(taker.side), levels),
        remaining >= 0,
    ensures
        ({
            let w = walk(levels, taker, remaining, mode);
            &&& 0 <= w.remaining <= remaining
            &&& traded(w.trades) == remaining - w.remaining
            &&& book_total(levels) == book_total(w.book) + traded(w.trades)
            &&& forall|i: int| 0 <= i < w.trades.len() ==> crosses(taker.side, taker.price, (#[trigger] w.trades[i]).price)
            &&& forall|i: int| 0 <= i < w.trades.len() ==> has_price(levels, (#[trigger] w.trades[i]).price)
            &&& forall|i: int, j: int|
                0 <= i < j < w.trades.len() ==> in_price_order(
                    taker.side,
                    #[trigger] w.trades[i].price,
                    #[trigger] w.trades[j].price,
                )
        }),
    decreases levels.len(),
{
    let maker = opposite(taker.side);
    if remaining <= 0 || levels.len() == 0 || !crosses(taker.side, taker.price, levels.last().price) {
        return;
    }
    let last = levels.len() - 1;
    let best = levels.last();
    assert(best == levels[last]);
    assert forall|k: int| 0 <= k < best.orders.len() implies (#[trigger] best.orders[k]).quantity > 0 by {
        assert(crate::allocation::rests_at(levels[last].orders[k], maker, levels[last].price));
    }
    lemma_level_caps_nonneg(mode, best.orders, remaining);
    let caps = level_caps(mode, quantities(best.orders), remaining);
    lemma_fill_level_conserves(best.orders, caps, remaining, best.price, taker.user_id@, taker.side);
    let out = fill_level(best.orders, caps, remaining, best.price, taker.user_id@, taker.side);
    let w = walk(levels, taker, remaining, mode);
    let d = levels.drop_last();
    assert(book_total(levels) == book_total(d) + resting_total(best.orders));
    if out.rest.len() > 0 {
        let nl = LevelView { price: best.price, orders: out.rest };
        assert(w.book.drop_last() =~= d);
        assert(book_total(w.book) == book_total(d) + resting_total(out.rest));
        assert forall|i: int| 0 <= i < w.trades.len() implies has_price(levels, (#[trigger] w.trades[i]).price) by {
            assert(levels[last].price == w.trades[i].price);
        }
    } else {
        assert(resting_total(out.rest) == 0);
        lemma_wf_drop_last(maker, levels);
        lemma_walk(d, taker, out.remaining, mode);
        let next = walk(d, taker, out.remaining, mode);
        lemma_traded_append(out.trades, next.trades);
        let n = out.trades.len();
        assert forall|i: int| 0 <= i < w.trades.len() implies has_price(levels, (#[trigger] w.trades[i]).price) by {
            if i < n {
                assert(levels[last].price == w.trades[i].price);
            } else {
                assert(w.trades[i] == next.trades[i - n]);
                let k = choose|k: int| 0 <= k < d.len() && (#[trigger] d[k]).price == next.trades[i - n].price;
                assert(levels[k].price == w.trades[i].price);
            }
        }
        assert forall|i: int| 0 <= i < w.trades.len() implies crosses(taker.side, taker.price, (#[trigger] w.trades[i]).price) by {
            if i >= n {
                assert(w.trades[i] == next.trades[i - n]);
            }
        }
        assert forall|i: int, j: int|
            0 <= i < j < w.trades.len() implies in_price_order(
            taker.side,
            #[trigger] w.trades[i].price,
            #[trigger] w.trades[j].price,
        ) by {
            if j < n {
                assert(w.trades[i].price == best.price && w.trades[j].price == best.price);
            } else if i < n {
                assert(w.trades[j] == next.trades[j - n]);
                let k = choose|k: int| 0 <= k < d.len() && (#[trigger] d[k]).price == next.trades[j - n].price;
                assert(d[k] == levels[k]);
                assert(crate::side_book::better(maker, levels[last].price, levels[k].price));
            } else {
                assert(w.trades[i] == next.trades[i - n]);
                assert(w.trades[j] == next.trades[j - n]);
            }
        }
    }
}


/// The total quantity resting on a side.
pub open spec fn book_total(levels: Seq<LevelView>) -> int
    decreases levels.len(),
{
    if levels.len() == 0 {
        0
    } else {
        book_total(levels.drop_last()) + resting_total(levels.last().orders)
    }
}

/// The number of orders resting on a side.
pub open spec fn order_count(levels: Seq<LevelView>) -> int
    decreases levels.len(),
{
    if levels.len() == 0 {
        0
    } else {
        order_count(levels.drop_last()) + levels.last().orders.len()
    }
}

/// Matching conserves quantity: the incoming order loses exactly the total
/// quantity of the trades it takes part in, and so do the resting orders
/// against it, taken together.
pub proof fn law_conservation(opposing: Seq<LevelView>, order: Order, mode: MatchingMode)
    requires
        levels_wf(opposite(order.side), opposing),
        order.well_formed(),
    ensures
        ({
            let w = walk(opposing, order, order.quantity as int, mode);
            &&& 0 <= w.remaining <= order.quantity
            &&& traded(w.trades) == order.quantity - w.remaining
            &&& book_total(opposing) == book_total(w.book) + traded(w.trades)
        }),
{
    lemma_walk(opposing, order, order.quantity as int, mode);
}

/// No trade is at a price worse than the incoming order's limit: a buyer's
/// limit is at least the trade price, a seller's at most.
pub proof fn law_price_bound(opposing: Seq<LevelView>, own: Seq<LevelView>, order: Order, mode: MatchingMode)
    requires
        levels_wf(opposite(order.side), opposing),
        order.well_formed(),
    ensures
        ({
            let trades = submit_outcome(opposing, own, order, mode).trades;
            forall|i: int| 0 <= i < trades.len() ==> match order.price {
                Some(l) => if order.side == Side::Buy {
                    l >= (#[trigger] trades[i]).price
                } else {
                    l <= trades[i].price
                },
                None => true,
            }
        }),
{
    lemma_walk(opposing, order, order.quantity as int, mode);
    let trades = submit_outcome(opposing, own, order, mode).trades;
    assert forall|i: int| 0 <= i < trades.len() implies crosses(order.side, order.price, (#[trigger] trades[i]).price) by {}
}

/// Within one submission trade prices never get better for the resting
/// side: they do not decrease for an incoming buy, nor increase for a sell.
pub proof fn law_best_price_first(opposing: Seq<LevelView>, own: Seq<LevelView>, order: Order, mode: MatchingMode)
    requires
        levels_wf(opposite(order.side), opposing),
        order.well_formed(),
    ensures
        ({
            let trades = submit_outcome(opposing, own, order, mode).trades;
            forall|i: int, j: int|
                0 <= i < j < trades.len() ==> in_price_order(
                    order.side,
                    #[trigger] trades[i].price,
                    #[trigger] trades[j].price,
                )
        }),
{
    lemma_walk(opposing, order, order.quantity as int, mode);
}

proof fn lemma_fill_level_idle(queue: Seq<Order>, caps: Seq<int>, price: u64, taker: Seq<char>, taker_side: Side)
    requires
        caps.len() == queue.len(),
        forall|i: int| 0 <= i < caps.len() ==> caps[i] >= 0,
        forall|k: int| 0 <= k < queue.len() ==> (#[trigger] queue[k]).quantity > 0,
    ensures
        ({
            let out = fill_level(queue, caps, 0, price, taker, taker_side);
            &&& out.rest == queue
            &&& out.trades.len() == 0
            &&& out.remaining == 0
        }),
    decreases queue.len(),
{
    if queue.len() > 0 {
        lemma_fill_level_idle(queue.drop_first(), caps.drop_first(), price, taker, taker_side);
        let o = queue[0];
        assert(o.with_quantity(o.quantity) == o);
        assert(seq![o] + queue.drop_first() =~= queue);
    }
}

/// Under FIFO a level is consumed head first. The queue left behind is the
/// original one without a prefix of fully filled orders; only its head may
/// have been partly filled, every later order is untouched, and orders stay
/// behind only once the incoming quantity is used up.
pub proof fn law_fifo_fairness(queue: Seq<Order>, remaining: int, price: u64, taker: Seq<char>, taker_side: Side)
    requires
        remaining >= 0,
        forall|k: int| 0 <= k < queue.len() ==> (#[trigger] queue[k]).quantity > 0,
    ensures
        ({
            let out = fill_level(queue, quantities(queue), remaining, price, taker, taker_side);
            let n = queue.len() as int;
            let m = out.rest.len() as int;
            &&& m <= n
            &&& forall|i: int| 0 < i < m ==> out.rest[i] == #[trigger] queue[n - m + i]
            &&& m > 0 ==> out.rest[0] == queue[n - m].with_quantity(out.rest[0].quantity)
            &&& m > 0 ==> out.remaining == 0
        }),
    decreases queue.len(),
{
    if queue.len() > 0 {
        let qs = quantities(queue);
        let o = queue[0];
        let t = crate::allocation::min3(o.quantity as int, o.quantity as int, remaining);
        let tl = queue.drop_first();
        assert(qs.drop_first() =~= quantities(tl));
        assert forall|k: int| 0 <= k < tl.len() implies (#[trigger] tl[k]).quantity > 0 by {
            assert(tl[k] == queue[k + 1]);
        }
        law_fifo_fairness(tl, remaining - t, price, taker, taker_side);
        let out = fill_level(queue, qs, remaining, price, taker, taker_side);
        let tail = fill_level(tl, quantities(tl), remaining - t, price, taker, taker_side);
        if o.quantity > t {
            assert(remaining - t == 0);
            lemma_fill_level_idle(tl, quantities(tl), price, taker, taker_side);
            assert(out.rest == seq![o.with_quantity((o.quantity - t) as u64)] + tl);
            assert forall|i: int| 0 < i < out.rest.len() implies out.rest[i] == #[trigger] queue[queue.len() - out.rest.len() + i] by {
                assert(out.rest[i] == tl[i - 1]);
            }
        } else {
            assert(out.rest == tail.rest);
            assert forall|i: int| 0 < i < out.rest.len() implies out.rest[i] == #[trigger] queue[queue.len() - out.rest.len() + i] by {
                assert(tail.rest[i] == tl[tl.len() - tail.rest.len() + i]);
            }
            if out.rest.len() > 0 {
                assert(tl[tl.len() - tail.rest.len()] == queue[queue.len() - out.rest.len()]);
            }
        }
    }
}

/// The number of resting orders grows by one when an order is added.
pub proof fn lemma_insert_resting_count(levels: Seq<LevelView>, side: Side, price: u64, o: Order)
    ensures
        order_count(insert_resting(levels, side, price, o)) == order_count(levels) + 1,
    decreases levels.len(),
{
    let r = insert_resting(levels, side, price, o);
    assert(r.len() > 0);
    assert(order_count(r) == order_count(r.drop_last()) + r.last().orders.len());
    if levels.len() > 0 {
        let d = levels.drop_last();
        assert(order_count(levels) == order_count(d) + levels.last().orders.len());
        if levels.last().price == price {
            assert(r.drop_last() =~= d);
            assert(r.last().orders.len() == levels.last().orders.len() + 1);
        } else if crate::side_book::better(side, price, levels.last().price) {
            assert(r.drop_last() =~= levels);
            assert(order_count(r) == order_count(levels) + 1);
        } else {
            lemma_insert_resting_count(d, side, price, o);
            assert(r.drop_last() =~= insert_resting(d, side, price, o));
            assert(r.last() == levels.last());
        }
    } else {
        assert(r.drop_last() =~= Seq::<LevelView>::empty());
        assert(order_count(r.drop_last()) == 0);
    }
}

/// A limit order that does not cross (the opposing side is empty, or its best
/// price is beyond the limit) trades nothing, leaves the opposing side as it
/// was, and rests whole at its price: one more resting order on its side.
pub proof fn law_no_cross(opposing: Seq<LevelView>, own: Seq<LevelView>, order: Order, mode: MatchingMode)
    requires
        order.well_formed(),
        order.order_type == crate::models::OrderType::Limit,
        opposing.len() == 0 || !crosses(order.side, order.price, opposing.last().price),
    ensures
        ({
            let out = submit_outcome(opposing, own, order, mode);
            &&& out.trades.len() == 0
            &&& out.opposing == opposing
            &&& out.own == insert_resting(own, order.side, order.price->0, order)
            &&& order_count(out.own) == order_count(own) + 1
        }),
{
    assert(order.with_quantity(order.quantity) == order);
    lemma_insert_resting_count(own, order.side, order.price->0, order);
}



/// `rest` is `queue` without a prefix, with only its head's quantity changed.
pub open spec fn fifo_remainder(queue: Seq<Order>, rest: Seq<Order>) -> bool {
    let n = queue.len() as int;
    let m = rest.len() as int;
    &&& m <= n
    &&& forall|i: int| 0 < i < m ==> rest[i] == #[trigger] queue[n - m + i]
    &&& m > 0 ==> rest[0] == queue[n - m].with_quantity(rest[0].quantity)
}

/// Under FIFO a whole submission consumes the opposing side head first at
/// every price: it removes fully filled levels from the best end, and of the
/// levels left all are as they were but the best one, whose queue lost a
/// prefix of fully filled orders and at most part of the next order's
/// quantity. So no order is filled while an earlier one at its price keeps
/// quantity.
pub proof fn law_fifo_submission(levels: Seq<LevelView>, taker: Order, remaining: int)
    requires
        levels_wf(opposite(taker.side), levels),
        remaining >= 0,
    ensures
        ({
            let w = walk(levels, taker, remaining, MatchingMode::Fifo);
            let m = w.book.len() as int;
            &&& m <= levels.len()
            &&& forall|i: int| 0 <= i < m - 1 ==> #[trigger] w.book[i] == levels[i]
            &&& m > 0 ==> w.book[m - 1].price == levels[m - 1].price && fifo_remainder(
                levels[m - 1].orders,
                w.book[m - 1].orders,
            )
        }),
    decreases levels.len(),
{
    let w = walk(levels, taker, remaining, MatchingMode::Fifo);
    let maker = opposite(taker.side);
    if remaining <= 0 || levels.len() == 0 || !crosses(taker.side, taker.price, levels.last().price) {
        if levels.len() > 0 {
            let q = levels.last().orders;
            assert(q[0].with_quantity(q[0].quantity) == q[0]);
        }
        return;
    }
    let last = levels.len() - 1;
    let best = levels.last();
    assert(best == levels[last]);
    assert forall|k: int| 0 <= k < best.orders.len() implies (#[trigger] best.orders[k]).quantity > 0 by {
        assert(crate::allocation::rests_at(levels[last].orders[k], maker, levels[last].price));
    }
    law_fifo_fairness(best.orders, remaining, best.price, taker.user_id@, taker.side);
    let out = fill_level(
        best.orders,
        quantities(best.orders),
        remaining,
        best.price,
        taker.user_id@,
        taker.side,
    );
    let d = levels.drop_last();
    lemma_level_caps_nonneg(MatchingMode::Fifo, best.orders, remaining);
    lemma_fill_level_conserves(
        best.orders,
        quantities(best.orders),
        remaining,
        best.price,
        taker.user_id@,
        taker.side,
    );
    if out.rest.len() > 0 {
        assert(w.book == d.push(LevelView { price: best.price, orders: out.rest }));
        assert forall|i: int| 0 <= i < w.book.len() - 1 implies #[trigger] w.book[i] == levels[i] by {
            assert(d[i] == levels[i]);
        }
    } else {
        lemma_wf_drop_last(maker, levels);
        law_fifo_submission(d, taker, out.remaining);
        let next = walk(d, taker, out.remaining, MatchingMode::Fifo);
        assert(w.book == next.book);
        assert forall|i: int| 0 <= i < w.book.len() implies #[trigger] d[i] == levels[i] by {}
    }
}


/// After `insert_resting` the level at `price` ends with `o`.
pub proof fn lemma_insert_resting_places(levels: Seq<LevelView>, side: Side, price: u64, o: Order)
    ensures
        ({
            let r = insert_resting(levels, side, price, o);
            exists|j: int|
                0 <= j < r.len() && (#[trigger] r[j]).price == price && r[j].orders.len() > 0
                    && r[j].orders.last() == o
        }),
    decreases levels.len(),
{
    let r = insert_resting(levels, side, price, o);
    if levels.len() == 0 {
        assert(r[0].price == price && r[0].orders.last() == o);
    } else if levels.last().price == price {
        let j = r.len() - 1;
        assert(r[j].price == price && r[j].orders.last() == o);
    } else if crate::side_book::better(side, price, levels.last().price) {
        let j = r.len() - 1;
        assert(r[j].price == price && r[j].orders.last() == o);
    } else {
        let d = levels.drop_last();
        lemma_insert_resting_places(d, side, price, o);
        let inner = insert_resting(d, side, price, o);
        let j = choose|j: int|
            0 <= j < inner.len() && (#[trigger] inner[j]).price == price && inner[j].orders.len() > 0
                && inner[j].orders.last() == o;
        assert(r[j] == inner[j]);
    }
}

/// What becomes of the incoming order in one submission: it trades `F` units,
/// at most its quantity `Q`. A limit order with `F < Q` rests as itself (same
/// identifier and fields) with quantity `Q - F`, last in the queue at its limit
/// price; otherwise its own side is left as it was.
pub proof fn law_incoming_order(opposing: Seq<LevelView>, own: Seq<LevelView>, order: Order, mode: MatchingMode)
    requires
        levels_wf(opposite(order.side), opposing),
        order.well_formed(),
    ensures
        ({
            let out = submit_outcome(opposing, own, order, mode);
            let f = traded(out.trades);
            &&& 0 <= f <= order.quantity
            &&& (order.order_type == crate::models::OrderType::Limit && f < order.quantity) ==> exists|j: int|
                0 <= j < out.own.len() && (#[trigger] out.own[j]).price == order.price->0
                    && out.own[j].orders.len() > 0
                    && out.own[j].orders.last() == order.with_quantity((order.quantity - f) as u64)
            &&& (order.order_type == crate::models::OrderType::Market || f == order.quantity) ==> out.own == own
        }),
{
    lemma_walk(opposing, order, order.quantity as int, mode);
    let w = walk(opposing, order, order.quantity as int, mode);
    let out = submit_outcome(opposing, own, order, mode);
    let f = traded(out.trades);
    assert(f == order.quantity - w.remaining);
    if order.order_type == crate::models::OrderType::Limit && w.remaining > 0 {
        let o = order.with_quantity(w.remaining as u64);
        assert(o == order.with_quantity((order.quantity - f) as u64));
        assert(out.own == insert_resting(own, order.side, order.price->0, o));
        lemma_insert_resting_places(own, order.side, order.price->0, o);
    }
}

} // verus!
