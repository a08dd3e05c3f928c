use vstd::prelude::*;
use vstd::set_lib::{lemma_int_range, lemma_len_subset, lemma_map_size, lemma_subset_equality, set_int_range};
use crate::allocation::{
    count_ahead, fill_level, lemma_total_nonneg, floors, lemma_elem_le_total, lemma_fill_level_conserves, leftover, min3,
    pro_rata_caps, quantities, rank, ranks_ahead, resting_total, total, traded,
};
use crate::allocation::{MatchingMode, level_caps};
use crate::engine::{crosses, opposite, walk};
use crate::models::{Order, Side};
use crate::side_book::{LevelView, levels_wf};

verus! {

pub proof fn lemma_total_first(s: Seq<int>)
    requires
        s.len() > 0,
    ensures
        total(s) == s[0] + total(s.drop_first()),
    decreases s.len(),
{
    if s.len() > 1 {
        lemma_total_first(s.drop_last());
        assert(s.drop_last().drop_first() =~= s.drop_first().drop_last());
        assert(total(s.drop_first()) == total(s.drop_first().drop_last()) + s.drop_first().last());
    } else {
        assert(total(s.drop_first()) == 0);
        assert(total(s.drop_last()) == 0);
    }
}

proof fn lemma_total_add(a: Seq<int>, b: Seq<int>, c: Seq<int>)
    requires
        a.len() == b.len(),
        b.len() == c.len(),
        forall|i: int| 0 <= i < c.len() ==> c[i] == a[i] + b[i],
    ensures
        total(c) == total(a) + total(b),
    decreases c.len(),
{
    if c.len() > 0 {
        lemma_total_add(a.drop_last(), b.drop_last(), c.drop_last());
    }
}

proof fn lemma_resting_total_is_total(queue: Seq<Order>)
    ensures
        resting_total(queue) == total(quantities(queue)),
    decreases queue.len(),
{
    if queue.len() > 0 {
        lemma_resting_total_is_total(queue.drop_first());
        lemma_total_first(quantities(queue));
        assert(quantities(queue).drop_first() =~= quantities(queue.drop_first()));
    }
}

/// Rounding each share down loses less than one unit per order.
proof fn lemma_floor_sum_lower(qs: Seq<int>, x: int, s: int)
    requires
        s > 0,
        x >= 0,
        forall|k: int| 0 <= k < qs.len() ==> qs[k] >= 0,
    ensures
        (total(Seq::new(qs.len(), |k: int| qs[k] * x / s)) + qs.len()) * s >= total(qs) * x + qs.len(),
    decreases qs.len(),
{
    if qs.len() > 0 {
        let pre = qs.drop_last();
        lemma_floor_sum_lower(pre, x, s);
        let fs = Seq::new(qs.len(), |k: int| qs[k] * x / s);
        let fp = Seq::new(pre.len(), |k: int| pre[k] * x / s);
        assert(fs.drop_last() =~= fp);
        let l = qs.last();
        let y = l * x;
        assert(y >= 0) by (nonlinear_arith)
            requires
                l >= 0,
                x >= 0,
                y == l * x,
        ;
        assert((y / s) * s + s >= y + 1) by (nonlinear_arith)
            requires
                s > 0,
                y >= 0,
        ;
        let a = total(fp);
        let b = total(pre);
        let n = pre.len() as int;
        assert((a + y / s + n + 1) * s >= (b + l) * x + n + 1) by (nonlinear_arith)
            requires
                (a + n) * s >= b * x + n,
                (y / s) * s + s >= y + 1,
                y == l * x,
        ;
    }
}

proof fn lemma_count_ahead_bound(qs: Seq<int>, i: int, k: int)
    requires
        0 <= i < qs.len(),
        0 <= k <= qs.len(),
    ensures
        0 <= count_ahead(qs, i, k) <= k,
        k > i ==> count_ahead(qs, i, k) <= k - 1,
    decreases k,
{
    if k > 0 {
        lemma_count_ahead_bound(qs, i, k - 1);
    }
}

proof fn lemma_count_ahead_order(qs: Seq<int>, i: int, j: int, k: int)
    requires
        0 <= i < qs.len(),
        0 <= j < qs.len(),
        ranks_ahead(qs, j, i),
        0 <= k <= qs.len(),
    ensures
        count_ahead(qs, i, k) >= count_ahead(qs, j, k) + if j < k {
            1int
        } else {
            0int
        },
    decreases k,
{
    if k > 0 {
        lemma_count_ahead_order(qs, i, j, k - 1);
    }
}

pub open spec fn bonus_set(qs: Seq<int>, r: int, k: int) -> Set<int> {
    set_int_range(0, k).filter(|i: int| rank(qs, i) < r)
}

pub open spec fn bonus_marks(qs: Seq<int>, r: int) -> Seq<int> {
    Seq::new(
        qs.len(),
        |i: int|
            if rank(qs, i) < r {
                1int
            } else {
                0int
            },
    )
}

proof fn lemma_marks_count(qs: Seq<int>, r: int, k: int)
    requires
        0 <= k <= qs.len(),
    ensures
        bonus_set(qs, r, k).finite(),
        total(bonus_marks(qs, r).take(k)) == bonus_set(qs, r, k).len(),
    decreases k,
{
    let m = bonus_marks(qs, r);
    if k == 0 {
        assert(bonus_set(qs, r, 0) =~= Set::<int>::empty());
        assert(m.take(0).len() == 0);
    } else {
        lemma_marks_count(qs, r, k - 1);
        assert(m.take(k).drop_last() =~= m.take(k - 1));
        let s0 = bonus_set(qs, r, k - 1);
        let s1 = bonus_set(qs, r, k);
        if rank(qs, k - 1) < r {
            assert(s1 =~= s0.insert(k - 1));
            assert(!s0.contains(k - 1));
        } else {
            assert(s1 =~= s0);
        }
    }
}

/// Ranks are distinct, so exactly the first `r` ranks receive a unit.
proof fn lemma_bonus_count(qs: Seq<int>, r: int)
    requires
        0 <= r <= qs.len(),
    ensures
        total(bonus_marks(qs, r)) == r,
{
    let n = qs.len() as int;
    let f = |i: int| rank(qs, i);
    let x = set_int_range(0, n);
    lemma_int_range(0, n);
    lemma_int_range(0, r);
    assert forall|a: int, b: int| x.contains(a) && x.contains(b) && #[trigger] f(a) == #[trigger] f(b) implies a == b by {
        if a != b {
            if ranks_ahead(qs, b, a) {
                lemma_count_ahead_order(qs, a, b, n);
            } else {
                assert(ranks_ahead(qs, a, b));
                lemma_count_ahead_order(qs, b, a, n);
            }
        }
    }
    let img = x.map(f);
    lemma_map_size(x, img, f);
    assert forall|y: int| img.contains(y) implies set_int_range(0, n).contains(y) by {
        let i = choose|i: int| x.contains(i) && f(i) == y;
        lemma_count_ahead_bound(qs, i, n);
    }
    lemma_subset_equality(img, set_int_range(0, n));
    let b = bonus_set(qs, r, n);
    lemma_len_subset(b, x);
    assert forall|y: int| #[trigger] b.map(f).contains(y) implies set_int_range(0, r).contains(y) by {
        let i = choose|i: int| b.contains(i) && f(i) == y;
        lemma_count_ahead_bound(qs, i, n);
    }
    assert forall|y: int| #[trigger] set_int_range(0, r).contains(y) implies b.map(f).contains(y) by {
        assert(set_int_range(0, n).contains(y));
        assert(img.contains(y));
        let i = choose|i: int| x.contains(i) && f(i) == y;
        assert(b.contains(i) && f(i) == y);
    }
    assert(b.map(f) =~= set_int_range(0, r));
    lemma_map_size(b, set_int_range(0, r), f);
    lemma_marks_count(qs, r, n);
    assert(bonus_marks(qs, r).take(n) =~= bonus_marks(qs, r));
}

/// Caps that cover every order: the level trades like a queue walked head first.
proof fn lemma_fill_covered(queue: Seq<Order>, caps: Seq<int>, remaining: int, price: u64, taker: Seq<char>, side: Side)
    requires
        caps.len() == queue.len(),
        forall|i: int| 0 <= i < caps.len() ==> #[trigger] caps[i] >= queue[i].quantity,
        remaining >= 0,
    ensures
        traded(fill_level(queue, caps, remaining, price, taker, side).trades) == if remaining
            <= resting_total(queue) {
            remaining
        } else {
            resting_total(queue)
        },
    decreases queue.len(),
{
    if queue.len() > 0 {
        let o = queue[0];
        let t = min3(caps[0], o.quantity as int, remaining);
        assert forall|i: int| 0 <= i < caps.len() - 1 implies #[trigger] caps.drop_first()[i] >= queue.drop_first()[i].quantity by {
            assert(caps.drop_first()[i] == caps[i + 1]);
        }
        lemma_fill_covered(queue.drop_first(), caps.drop_first(), remaining - t, price, taker, side);
        lemma_resting_nonneg(queue.drop_first());
        let tail = fill_level(queue.drop_first(), caps.drop_first(), remaining - t, price, taker, side);
        let out = fill_level(queue, caps, remaining, price, taker, side);
        if t > 0 {
            assert((out.trades).drop_first() =~= tail.trades);
        }
    }
}

proof fn lemma_resting_nonneg(queue: Seq<Order>)
    ensures
        resting_total(queue) >= 0,
    decreases queue.len(),
{
    if queue.len() > 0 {
        lemma_resting_nonneg(queue.drop_first());
    }
}

/// Caps within each order and summing to at most the incoming quantity are
/// traded in full.
proof fn lemma_fill_within(queue: Seq<Order>, caps: Seq<int>, remaining: int, price: u64, taker: Seq<char>, side: Side)
    requires
        caps.len() == queue.len(),
        forall|i: int| 0 <= i < caps.len() ==> 0 <= #[trigger] caps[i] && caps[i] <= queue[i].quantity,
        total(caps) <= remaining,
    ensures
        traded(fill_level(queue, caps, remaining, price, taker, side).trades) == total(caps),
    decreases queue.len(),
{
    if queue.len() > 0 {
        lemma_total_first(caps);
        let cs = caps.drop_first();
        assert forall|i: int| 0 <= i < cs.len() implies 0 <= #[trigger] cs[i] && cs[i] <= queue.drop_first()[i].quantity by {
            assert(cs[i] == caps[i + 1]);
        }
        lemma_total_nonneg(cs);
        lemma_fill_within(queue.drop_first(), cs, remaining - caps[0], price, taker, side);
        let o = queue[0];
        let t = min3(caps[0], o.quantity as int, remaining);
        assert(t == caps[0]);
        let tail = fill_level(queue.drop_first(), cs, remaining - t, price, taker, side);
        let out = fill_level(queue, caps, remaining, price, taker, side);
        if t > 0 {
            assert((out.trades).drop_first() =~= tail.trades);
        }
    } else {
        assert(fill_level(queue, caps, remaining, price, taker, side).trades.len() == 0);
    }
}

/// Under pro-rata a level trades exactly `min(Q, S)`, where `Q` is the incoming
/// quantity on entry and `S` the level's resting total; no resting order
/// trades more than it holds.
pub proof fn law_pro_rata_total(queue: Seq<Order>, incoming: int, price: u64, taker: Seq<char>, side: Side)
    requires
        incoming >= 0,
        queue.len() > 0,
        forall|k: int| 0 <= k < queue.len() ==> (#[trigger] queue[k]).quantity > 0,
    ensures
        ({
            let caps = pro_rata_caps(quantities(queue), incoming);
            let out = fill_level(queue, caps, incoming, price, taker, side);
            &&& traded(out.trades) == if incoming <= resting_total(queue) {
                incoming
            } else {
                resting_total(queue)
            }
            &&& resting_total(out.rest) == resting_total(queue) - traded(out.trades)
            &&& out.rest.len() > 0 ==> out.remaining == 0
        }),
{
    let qs = quantities(queue);
    let s = total(qs);
    let n = qs.len() as int;
    let caps = pro_rata_caps(qs, incoming);
    lemma_resting_total_is_total(queue);
    lemma_elem_le_total(qs, 0);
    assert(s > 0);
    let fs = floors(qs, incoming);
    assert(fs =~= Seq::new(qs.len(), |k: int| qs[k] * incoming / s));
    crate::allocation::lemma_floor_sum(qs, incoming, s);
    lemma_floor_sum_lower(qs, incoming, s);
    let t = total(fs);
    assert(t <= incoming) by (nonlinear_arith)
        requires
            t * s <= s * incoming,
            s > 0,
    ;
    assert(t + n > incoming) by (nonlinear_arith)
        requires
            (t + n) * s >= s * incoming + n,
            s > 0,
            n > 0,
    ;
    let r = leftover(qs, incoming);
    assert forall|i: int| 0 <= i < n implies 0 <= #[trigger] fs[i] by {
        let q = qs[i];
        assert(q * incoming / s >= 0) by (nonlinear_arith)
            requires
                q > 0,
                s > 0,
                incoming >= 0,
        ;
    }
    if incoming >= s {
        assert forall|i: int| 0 <= i < caps.len() implies #[trigger] caps[i] >= queue[i].quantity by {
            let q = qs[i];
            assert(q * incoming / s >= q) by (nonlinear_arith)
                requires
                    q > 0,
                    s > 0,
                    incoming >= s,
            ;
        }
        lemma_fill_covered(queue, caps, incoming, price, taker, side);
    } else {
        assert forall|i: int| 0 <= i < caps.len() implies 0 <= #[trigger] caps[i] && caps[i] <= queue[i].quantity by {
            let q = qs[i];
            lemma_elem_le_total(qs, i);
            assert(q * incoming / s < q) by (nonlinear_arith)
                requires
                    q > 0,
                    s > 0,
                    incoming < s,
            ;
        }
        lemma_bonus_count(qs, r);
        lemma_total_add(fs, bonus_marks(qs, r), caps);
        lemma_fill_within(queue, caps, incoming, price, taker, side);
    }
    assert forall|i: int| 0 <= i < caps.len() implies caps[i] >= 0 by {}
    lemma_fill_level_conserves(queue, caps, incoming, price, taker, side);
    let out = fill_level(queue, caps, incoming, price, taker, side);
    if out.rest.len() > 0 {
        lemma_rest_positive(queue, caps, incoming, price, taker, side);
        lemma_resting_nonneg(out.rest.drop_first());
    }
}

proof fn lemma_rest_positive(queue: Seq<Order>, caps: Seq<int>, remaining: int, price: u64, taker: Seq<char>, side: Side)
    requires
        caps.len() == queue.len(),
        forall|i: int| 0 <= i < caps.len() ==> caps[i] >= 0,
        remaining >= 0,
    ensures
        forall|i: int|
            0 <= i < fill_level(queue, caps, remaining, price, taker, side).rest.len() ==> (#[trigger] fill_level(
                queue,
                caps,
                remaining,
                price,
                taker,
                side,
            ).rest[i]).quantity > 0,
    decreases queue.len(),
{
    if queue.len() > 0 {
        let o = queue[0];
        let t = min3(caps[0], o.quantity as int, remaining);
        assert forall|i: int| 0 <= i < caps.len() - 1 implies caps.drop_first()[i] >= 0 by {
            assert(caps.drop_first()[i] == caps[i + 1]);
        }
        lemma_rest_positive(queue.drop_first(), caps.drop_first(), remaining - t, price, taker, side);
        let tail = fill_level(queue.drop_first(), caps.drop_first(), remaining - t, price, taker, side);
        let out = fill_level(queue, caps, remaining, price, taker, side);
        assert forall|i: int| 0 <= i < out.rest.len() implies (#[trigger] out.rest[i]).quantity > 0 by {
            if o.quantity > t && i > 0 {
                assert(out.rest[i] == tail.rest[i - 1]);
            }
        }
    }
}


/// The quantity resting at the levels, from the best one down, that an
/// order on `side` with this limit may trade against.
pub open spec fn crossing_total(levels: Seq<LevelView>, side: Side, limit: Option<u64>) -> int
    decreases levels.len(),
{
    if levels.len() == 0 || !crosses(side, limit, levels.last().price) {
        0
    } else {
        resting_total(levels.last().orders) + crossing_total(levels.drop_last(), side, limit)
    }
}

proof fn lemma_crossing_total_nonneg(levels: Seq<LevelView>, side: Side, limit: Option<u64>)
    ensures
        crossing_total(levels, side, limit) >= 0,
    decreases levels.len(),
{
    if levels.len() > 0 {
        lemma_crossing_total_nonneg(levels.drop_last(), side, limit);
        lemma_resting_nonneg(levels.last().orders);
    }
}

/// Over a whole submission, in either mode, the incoming order trades exactly
/// `min(Q, S)`, where `Q` is its quantity and `S` the quantity resting at the
/// prices it crosses: each level it reaches gives `min` of what is still open
/// and what rests there, and it reaches a further level only when the one
/// before was used up.
pub proof fn law_submission_total(levels: Seq<LevelView>, taker: Order, remaining: int, mode: MatchingMode)
    requires
        levels_wf(opposite(taker.side), levels),
        remaining >= 0,
    ensures
        ({
            let w = walk(levels, taker, remaining, mode);
            let s = crossing_total(levels, taker.side, taker.price);
            traded(w.trades) == if remaining <= s {
                remaining
            } else {
                s
            }
        }),
    decreases levels.len(),
{
    lemma_crossing_total_nonneg(levels, taker.side, taker.price);
    if remaining <= 0 || levels.len() == 0 || !crosses(taker.side, taker.price, levels.last().price) {
        return;
    }
    let maker = opposite(taker.side);
    let last = levels.len() - 1;
    let best = levels.last();
    assert(best == levels[last]);
    assert forall|k: int| 0 <= k < best.orders.len() implies (#[trigger] best.orders[k]).quantity > 0 by {
        assert(crate::allocation::rests_at(levels[last].orders[k], maker, levels[last].price));
    }
    let caps = level_caps(mode, quantities(best.orders), remaining);
    let out = fill_level(best.orders, caps, remaining, best.price, taker.user_id@, taker.side);
    let sb = resting_total(best.orders);
    let d = levels.drop_last();
    lemma_crossing_total_nonneg(d, taker.side, taker.price);
    match mode {
        MatchingMode::Fifo => {
            assert forall|i: int| 0 <= i < caps.len() implies #[trigger] caps[i] >= best.orders[i].quantity by {}
            lemma_fill_covered(best.orders, caps, remaining, best.price, taker.user_id@, taker.side);
        },
        MatchingMode::ProRata => {
            law_pro_rata_total(best.orders, remaining, best.price, taker.user_id@, taker.side);
        },
    }
    crate::theorems::lemma_level_caps_nonneg(mode, best.orders, remaining);
    lemma_fill_level_conserves(best.orders, caps, remaining, best.price, taker.user_id@, taker.side);
    if out.rest.len() > 0 {
        lemma_rest_positive(best.orders, caps, remaining, best.price, taker.user_id@, taker.side);
        lemma_resting_nonneg(out.rest.drop_first());
        assert(traded(out.trades) == remaining);
    } else {
        assert(traded(out.trades) == sb);
        crate::theorems::lemma_wf_drop_last(maker, levels);
        law_submission_total(d, taker, out.remaining, mode);
        let next = walk(d, taker, out.remaining, mode);
        crate::allocation::lemma_traded_append(out.trades, next.trades);
    }
}

} // verus!
