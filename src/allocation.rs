use std::collections::VecDeque;
use vstd::prelude::*;
use crate::models::{Order, OrderType, Side, Trade, TradeTerms, terms_of, now_millis};

verus! {

/// How quantity is shared among the resting orders of one price level.
#[derive(Clone, Copy, Debug, PartialEq, Eq, Structural)]
pub enum MatchingMode {
    Fifo,
    ProRata,
}

/// The remaining quantities of a queue, in queue order.
pub open spec fn quantities(queue: Seq<Order>) -> Seq<int> {
    Seq::new(queue.len(), |i: int| queue[i].quantity as int)
}

pub open spec fn total(s: Seq<int>) -> int
    decreases s.len(),
{
    if s.len() == 0 {
        0
    } else {
        total(s.drop_last()) + s.last()
    }
}

/// `floor(q_i * incoming / S)`, where `S` is the level's total quantity.
pub open spec fn share_floor(qs: Seq<int>, i: int, incoming: int) -> int {
    qs[i] * incoming / total(qs)
}

pub open spec fn floors(qs: Seq<int>, incoming: int) -> Seq<int> {
    Seq::new(qs.len(), |i: int| share_floor(qs, i, incoming))
}

/// The units that floor rounding leaves unassigned.
pub open spec fn leftover(qs: Seq<int>, incoming: int) -> int {
    incoming - total(floors(qs, incoming))
}

/// Order `j` ranks ahead of order `i` for the leftover: larger first, then earlier.
pub open spec fn ranks_ahead(qs: Seq<int>, j: int, i: int) -> bool {
    qs[j] > qs[i] || (qs[j] == qs[i] && j < i)
}

/// How many of the first `k` orders rank ahead of order `i`.
pub open spec fn count_ahead(qs: Seq<int>, i: int, k: int) -> int
    decreases k,
{
    if k <= 0 {
        0
    } else {
        count_ahead(qs, i, k - 1) + if ranks_ahead(qs, k - 1, i) {
            1int
        } else {
            0int
        }
    }
}

/// Position of order `i` in the ranking by quantity descending, ties by queue order.
pub open spec fn rank(qs: Seq<int>, i: int) -> int {
    count_ahead(qs, i, qs.len() as int)
}

/// Pro-rata allotment of each order: its floor share, plus one unit for each of
/// the first `leftover` orders of the ranking.
pub open spec fn pro_rata_caps(qs: Seq<int>, incoming: int) -> Seq<int> {
    Seq::new(
        qs.len(),
        |i: int|
            share_floor(qs, i, incoming) + if rank(qs, i) < leftover(qs, incoming) {
                1int
            } else {
                0int
            },
    )
}

/// The most each resting order may trade at this level: under FIFO its whole
/// quantity, under pro-rata its allotment.
pub open spec fn level_caps(mode: MatchingMode, qs: Seq<int>, incoming: int) -> Seq<int> {
    match mode {
        MatchingMode::Fifo => qs,
        MatchingMode::ProRata => pro_rata_caps(qs, incoming),
    }
}

pub open spec fn min3(a: int, b: int, c: int) -> int {
    if a <= b && a <= c {
        a
    } else if b <= c {
        b
    } else {
        c
    }
}

pub open spec fn make_terms(
    price: u64,
    quantity: int,
    taker: Seq<char>,
    taker_side: Side,
    maker: Seq<char>,
) -> TradeTerms {
    TradeTerms {
        price,
        quantity: quantity as u64,
        buyer: if taker_side == Side::Buy {
            taker
        } else {
            maker
        },
        seller: if taker_side == Side::Buy {
            maker
        } else {
            taker
        },
    }
}

/// What one price level yields: the trades, the queue left behind, and the
/// incoming quantity still open.
pub struct LevelOutcome {
    pub trades: Seq<TradeTerms>,
    pub rest: Seq<Order>,
    pub remaining: int,
}

/// Walks a queue head first; order `i` trades `min(caps[i], q_i, remaining)`.
/// A trade of zero emits nothing; an order with quantity left keeps its place.
pub open spec fn fill_level(
    queue: Seq<Order>,
    caps: Seq<int>,
    remaining: int,
    price: u64,
    taker: Seq<char>,
    taker_side: Side,
) -> LevelOutcome
    decreases queue.len(),
{
    if queue.len() == 0 {
        LevelOutcome { trades: seq![], rest: seq![], remaining }
    } else {
        let o = queue[0];
        let t = min3(caps[0], o.quantity as int, remaining);
        let tail = fill_level(
            queue.drop_first(),
            caps.drop_first(),
            remaining - t,
            price,
            taker,
            taker_side,
        );
        LevelOutcome {
            trades: if t > 0 {
                seq![make_terms(price, t, taker, taker_side, o.user_id@)] + tail.trades
            } else {
                tail.trades
            },
            rest: if o.quantity > t {
                seq![o.with_quantity((o.quantity - t) as u64)] + tail.rest
            } else {
                tail.rest
            },
            remaining: tail.remaining,
        }
    }
}

/// A resting order on `side` at `price`: a limit order with quantity left.
pub open spec fn rests_at(o: Order, side: Side, price: u64) -> bool {
    &&& o.side == side
    &&& o.order_type == OrderType::Limit
    &&& o.price == Some(price)
    &&& o.quantity > 0
}

pub open spec fn caps_view(caps: Seq<u128>) -> Seq<int> {
    Seq::new(caps.len(), |i: int| caps[i] as int)
}


/// Trades `taker` against one price level, head first, each resting order up to
/// its cap. Fully filled orders leave; the others keep their queue order.
pub fn execute_level(
    queue: VecDeque<Order>,
    caps: &Vec<u128>,
    price: u64,
    taker: &Order,
    remaining: &mut u64,
    trades: &mut Vec<Trade>,
    maker_side: Side,
) -> (rest: VecDeque<Order>)
    requires
        caps@.len() == queue@.len(),
        forall|k: int| 0 <= k < queue@.len() ==> rests_at(#[trigger] queue@[k], maker_side, price),
    ensures
        ({
            let out = fill_level(
                queue@,
                caps_view(caps@),
                *old(remaining) as int,
                price,
                taker.user_id@,
                taker.side,
            );
            &&& terms_of(final(trades)@) == terms_of(old(trades)@) + out.trades
            &&& rest@ == out.rest
            &&& *final(remaining) as int == out.remaining
        }),
        *final(remaining) <= *old(remaining),
        forall|k: int| 0 <= k < rest@.len() ==> rests_at(#[trigger] rest@[k], maker_side, price),
{
    let ghost q0 = queue@;
    let ghost cs = caps_view(caps@);
    let ghost t0 = terms_of(trades@);
    let ghost rem0 = *remaining;
    let ghost out = fill_level(q0, cs, rem0 as int, price, taker.user_id@, taker.side);
    let ghost mut acc: Seq<TradeTerms> = seq![];
    let mut queue = queue;
    let mut rest: VecDeque<Order> = VecDeque::new();
    let n: usize = caps.len();
    let mut i: usize = 0;
    proof {
        assert(q0.subrange(0, q0.len() as int) =~= q0);
        assert(cs.subrange(0, cs.len() as int) =~= cs);
        assert(rest@ + out.rest =~= out.rest);
        assert(acc + out.trades =~= out.trades);
        assert(t0 + acc =~= t0);
    }
    while queue.len() > 0
        invariant
            cs == caps_view(caps@),
            cs.len() == q0.len(),
            n == q0.len(),
            i <= q0.len(),
            queue@ == q0.subrange(i as int, q0.len() as int),
            terms_of(trades@) == t0 + acc,
            *remaining <= rem0,
            ({
                let tail = fill_level(
                    queue@,
                    cs.subrange(i as int, cs.len() as int),
                    *remaining as int,
                    price,
                    taker.user_id@,
                    taker.side,
                );
                &&& out.trades == acc + tail.trades
                &&& out.rest == rest@ + tail.rest
                &&& out.remaining == tail.remaining
            }),
            forall|k: int| 0 <= k < q0.len() ==> rests_at(#[trigger] q0[k], maker_side, price),
            forall|k: int| 0 <= k < rest@.len() ==> rests_at(#[trigger] rest@[k], maker_side, price),
        decreases queue@.len(),
    {
        let ghost qs = queue@;
        assert(i < q0.len());
        let ghost csi = cs.subrange(i as int, cs.len() as int);
        let ghost tail = fill_level(qs, csi, *remaining as int, price, taker.user_id@, taker.side);
        let mut o = queue.pop_front().unwrap();
        let cap = caps[i];
        let mut t: u64 = if o.quantity < *remaining {
            o.quantity
        } else {
            *remaining
        };
        if cap < t as u128 {
            t = cap as u64;
        }
        proof {
            assert(o == q0[i as int]);
            assert(csi[0] == cap as int);
            assert(t as int == min3(csi[0], o.quantity as int, *remaining as int));
            assert(qs.drop_first() =~= q0.subrange(i + 1, q0.len() as int));
            assert(csi.drop_first() =~= cs.subrange(i + 1, cs.len() as int));
        }
        let ghost next = fill_level(
            qs.drop_first(),
            csi.drop_first(),
            *remaining as int - t as int,
            price,
            taker.user_id@,
            taker.side,
        );
        if t > 0 {
            let (buyer, seller) = if taker.side == Side::Buy {
                (taker.user_id.clone(), o.user_id.clone())
            } else {
                (o.user_id.clone(), taker.user_id.clone())
            };
            let trade = Trade { price, quantity: t, buyer, seller, timestamp: now_millis() };
            let ghost before = trades@;
            trades.push(trade);
            proof {
                let m = make_terms(price, t as int, taker.user_id@, taker.side, o.user_id@);
                assert(trade.terms() == m);
                assert(terms_of(trades@) =~= terms_of(before).push(m));
                assert(tail.trades == seq![m] + next.trades);
                assert(acc.push(m) + next.trades =~= acc + (seq![m] + next.trades));
                acc = acc.push(m);
                assert(t0 + acc =~= (t0 + acc.drop_last()).push(m));
            }
        }
        *remaining = *remaining - t;
        if o.quantity > t {
            o.quantity = o.quantity - t;
            let ghost before = rest@;
            proof {
                assert(o == q0[i as int].with_quantity((q0[i as int].quantity - t) as u64));
                assert(tail.rest == seq![o] + next.rest);
                assert(before.push(o) + next.rest =~= before + (seq![o] + next.rest));
            }
            rest.push_back(o);
        }
        i = i + 1;
    }
    proof {
        assert(queue@.len() == 0);
        assert(acc + seq![] =~= acc);
        assert(rest@ + seq![] =~= rest@);
    }
    rest
}


pub proof fn lemma_total_nonneg(qs: Seq<int>)
    requires
        forall|k: int| 0 <= k < qs.len() ==> qs[k] >= 0,
    ensures
        total(qs) >= 0,
    decreases qs.len(),
{
    if qs.len() > 0 {
        lemma_total_nonneg(qs.drop_last());
    }
}

pub proof fn lemma_elem_le_total(qs: Seq<int>, i: int)
    requires
        0 <= i < qs.len(),
        forall|k: int| 0 <= k < qs.len() ==> qs[k] >= 0,
    ensures
        qs[i] <= total(qs),
    decreases qs.len(),
{
    if i < qs.len() - 1 {
        lemma_elem_le_total(qs.drop_last(), i);
    } else {
        lemma_total_nonneg(qs.drop_last());
    }
}

/// Rounding each share down never hands out more than the whole:
/// `sum(floor(q_i * x / s)) * s <= sum(q_i) * x`.
pub proof fn lemma_floor_sum(qs: Seq<int>, x: int, s: int)
    requires
        s > 0,
        x >= 0,
        forall|k: int| 0 <= k < qs.len() ==> qs[k] >= 0,
    ensures
        total(Seq::new(qs.len(), |k: int| qs[k] * x / s)) * s <= total(qs) * x,
    decreases qs.len(),
{
    if qs.len() > 0 {
        let pre = qs.drop_last();
        lemma_floor_sum(pre, x, s);
        let fs = Seq::new(qs.len(), |k: int| qs[k] * x / s);
        let fp = Seq::new(pre.len(), |k: int| pre[k] * x / s);
        assert(fs.drop_last() =~= fp);
        let l = qs.last();
        assert(l >= 0);
        let y = l * x;
        assert(y >= 0) by (nonlinear_arith)
            requires
                l >= 0,
                x >= 0,
                y == l * x,
        ;
        assert((y / s) * s <= y) by (nonlinear_arith)
            requires
                s > 0,
                y >= 0,
        ;
        let a = total(fp);
        let b = total(pre);
        assert((a + y / s) * s <= (b + qs.last()) * x) by (nonlinear_arith)
            requires
                a * s <= b * x,
                (y / s) * s <= y,
                y == l * x,
                l == qs.last(),
        ;
    }
}

/// The cap of each order under FIFO: its whole quantity.
pub fn fifo_caps(queue: &VecDeque<Order>) -> (caps: Vec<u128>)
    ensures
        caps_view(caps@) == quantities(queue@),
{
    let n: usize = queue.len();
    let mut caps: Vec<u128> = Vec::new();
    let mut i: usize = 0;
    while i < n
        invariant
            n == queue@.len(),
            i <= n,
            caps@.len() == i,
            forall|k: int| 0 <= k < i ==> caps@[k] as int == queue@[k].quantity as int,
        decreases n - i,
    {
        caps.push(queue[i].quantity as u128);
        i = i + 1;
    }
    assert(caps_view(caps@) =~= quantities(queue@));
    caps
}

/// The pro-rata allotment of each resting order against `incoming`.
pub fn pro_rata_allocation(queue: &VecDeque<Order>, incoming: u64) -> (caps: Vec<u128>)
    requires
        forall|k: int| 0 <= k < queue@.len() ==> #[trigger] queue@[k].quantity > 0,
    ensures
        caps_view(caps@) == pro_rata_caps(quantities(queue@), incoming as int),
{
    let ghost qs = quantities(queue@);
    let ghost big: int = u64::MAX as int;
    let n: usize = queue.len();
    let mut s: u128 = 0;
    let mut i: usize = 0;
    while i < n
        invariant
            n == queue@.len(),
            qs == quantities(queue@),
            big == u64::MAX as int,
            i <= n,
            s as int == total(qs.take(i as int)),
            s as int <= i as int * big,
            i > 0 ==> s > 0,
            forall|k: int| 0 <= k < queue@.len() ==> #[trigger] queue@[k].quantity > 0,
        decreases n - i,
    {
        proof {
            assert(qs.take(i as int + 1).drop_last() =~= qs.take(i as int));
            assert((i as int + 1) * big == i as int * big + big) by (nonlinear_arith);
            assert((i as int + 1) * big <= u128::MAX as int) by (nonlinear_arith)
                requires
                    i as int + 1 <= big + 1,
                    big == u64::MAX as int,
            ;
        }
        s = s + queue[i].quantity as u128;
        i = i + 1;
    }
    proof {
        assert(qs.take(n as int) =~= qs);
    }
    let mut fl: Vec<u128> = Vec::new();
    let mut assigned: u128 = 0;
    i = 0;
    while i < n
        invariant
            n == queue@.len(),
            qs == quantities(queue@),
            big == u64::MAX as int,
            i <= n,
            s as int == total(qs),
            n > 0 ==> s > 0,
            fl@.len() == i,
            forall|k: int| 0 <= k < i ==> fl@[k] as int == share_floor(qs, k, incoming as int),
            forall|k: int| 0 <= k < i ==> fl@[k] <= incoming,
            assigned as int == total(floors(qs, incoming as int).take(i as int)),
            assigned as int <= i as int * big,
        decreases n - i,
    {
        let q = queue[i].quantity;
        proof {
            lemma_elem_le_total(qs, i as int);
            assert(q as int == qs[i as int]);
            assert(s > 0);
            assert((q as int) * (incoming as int) <= big * big) by (nonlinear_arith)
                requires
                    q as int <= big,
                    incoming as int <= big,
                    q >= 0,
                    incoming >= 0,
            ;
            assert(big * big <= u128::MAX as int) by (nonlinear_arith)
                requires
                    big == u64::MAX as int,
            ;
            assert((q as int) * (incoming as int) / (s as int) <= incoming as int) by (nonlinear_arith)
                requires
                    q as int <= s as int,
                    s > 0,
                    q >= 0,
                    incoming >= 0,
            ;
            assert(floors(qs, incoming as int).take(i as int + 1).drop_last() =~= floors(
                qs,
                incoming as int,
            ).take(i as int));
            assert((i as int + 1) * big == i as int * big + big) by (nonlinear_arith);
            assert((i as int + 1) * big <= u128::MAX as int) by (nonlinear_arith)
                requires
                    i as int + 1 <= big + 1,
                    big == u64::MAX as int,
            ;
        }
        let f: u128 = (q as u128) * (incoming as u128) / s;
        fl.push(f);
        assigned = assigned + f;
        i = i + 1;
    }
    let ghost fs = floors(qs, incoming as int);
    proof {
        assert(fs.take(n as int) =~= fs);
        if n > 0 {
            lemma_floor_sum(qs, incoming as int, s as int);
            assert(fs =~= Seq::new(qs.len(), |k: int| qs[k] * (incoming as int) / (s as int)));
            let t = assigned as int;
            assert(t <= incoming as int) by (nonlinear_arith)
                requires
                    t * (s as int) <= (s as int) * (incoming as int),
                    s > 0,
            ;
        } else {
            assert(assigned == 0);
        }
    }
    let left: u128 = incoming as u128 - assigned;
    let mut caps: Vec<u128> = Vec::new();
    i = 0;
    while i < n
        invariant
            n == queue@.len(),
            qs == quantities(queue@),
            i <= n,
            fl@.len() == n,
            forall|k: int| 0 <= k < n ==> fl@[k] as int == share_floor(qs, k, incoming as int),
            forall|k: int| 0 <= k < n ==> fl@[k] <= incoming,
            left as int == leftover(qs, incoming as int),
            caps@.len() == i,
            forall|k: int|
                0 <= k < i ==> caps@[k] as int == pro_rata_caps(qs, incoming as int)[k],
        decreases n - i,
    {
        let qi = queue[i].quantity;
        let mut ahead: usize = 0;
        let mut j: usize = 0;
        while j < n
            invariant
                n == queue@.len(),
                qs == quantities(queue@),
                i < n,
                qi as int == qs[i as int],
                j <= n,
                ahead <= j,
                ahead as int == count_ahead(qs, i as int, j as int),
            decreases n - j,
        {
            let qj = queue[j].quantity;
            if qj > qi || (qj == qi && j < i) {
                ahead = ahead + 1;
            }
            j = j + 1;
        }
        let bonus: u128 = if (ahead as u128) < left {
            1
        } else {
            0
        };
        caps.push(fl[i] + bonus);
        i = i + 1;
    }
    assert(caps_view(caps@) =~= pro_rata_caps(qs, incoming as int));
    caps
}


/// The total quantity of a sequence of trades.
pub open spec fn traded(ts: Seq<TradeTerms>) -> int
    decreases ts.len(),
{
    if ts.len() == 0 {
        0
    } else {
        ts[0].quantity as int + traded(ts.drop_first())
    }
}

/// The total quantity resting in a queue.
pub open spec fn resting_total(q: Seq<Order>) -> int
    decreases q.len(),
{
    if q.len() == 0 {
        0
    } else {
        q[0].quantity as int + resting_total(q.drop_first())
    }
}

pub proof fn lemma_traded_append(a: Seq<TradeTerms>, b: Seq<TradeTerms>)
    ensures
        traded(a + b) == traded(a) + traded(b),
    decreases a.len(),
{
    if a.len() > 0 {
        lemma_traded_append(a.drop_first(), b);
        assert((a + b).drop_first() =~= a.drop_first() + b);
    }
}

/// Quantity is conserved at a level: what the incoming order loses equals what
/// was traded, and what the resting orders lose equals it too. Every trade is
/// at the level's price and for a positive quantity.
pub proof fn lemma_fill_level_conserves(
    queue: Seq<Order>,
    caps: Seq<int>,
    remaining: int,
    price: u64,
    taker: Seq<char>,
    taker_side: Side,
)
    requires
        caps.len() == queue.len(),
        forall|i: int| 0 <= i < caps.len() ==> caps[i] >= 0,
        remaining >= 0,
    ensures
        ({
            let out = fill_level(queue, caps, remaining, price, taker, taker_side);
            &&& 0 <= out.remaining <= remaining
            &&& traded(out.trades) == remaining - out.remaining
            &&& resting_total(queue) == resting_total(out.rest) + traded(out.trades)
            &&& forall|i: int| 0 <= i < out.trades.len() ==> (#[trigger] out.trades[i]).price == price
                && out.trades[i].quantity > 0
        }),
    decreases queue.len(),
{
    if queue.len() > 0 {
        let o = queue[0];
        let t = min3(caps[0], o.quantity as int, remaining);
        lemma_fill_level_conserves(
            queue.drop_first(),
            caps.drop_first(),
            remaining - t,
            price,
            taker,
            taker_side,
        );
        let tail = fill_level(queue.drop_first(), caps.drop_first(), remaining - t, price, taker, taker_side);
        let out = fill_level(queue, caps, remaining, price, taker, taker_side);
        if t > 0 {
            let m = make_terms(price, t, taker, taker_side, o.user_id@);
            assert((seq![m] + tail.trades).drop_first() =~= tail.trades);
            assert(out.trades == seq![m] + tail.trades);
            assert forall|i: int| 0 <= i < out.trades.len() implies (#[trigger] out.trades[i]).price == price
                && out.trades[i].quantity > 0 by {
                if i > 0 {
                    assert(out.trades[i] == tail.trades[i - 1]);
                }
            }
        }
        if o.quantity > t {
            let r = o.with_quantity((o.quantity - t) as u64);
            assert((seq![r] + tail.rest).drop_first() =~= tail.rest);
        }
    }
}


} // verus!
