use std::collections::VecDeque;
use vstd::prelude::*;
use crate::allocation::rests_at;
use crate::models::{Order, Side};

verus! {

/// The queue of resting orders at one price, in arrival order.
pub struct PriceLevel {
    pub price: u64,
    pub orders: VecDeque<Order>,
}

pub struct LevelView {
    pub price: u64,
    pub orders: Seq<Order>,
}

impl View for PriceLevel {
    type V = LevelView;

    open spec fn view(&self) -> LevelView {
        LevelView { price: self.price, orders: self.orders@ }
    }
}

/// One side of the book: its price levels, stored from the worst price to the
/// best, so that the best level is the last one.
pub struct SideBook {
    pub side: Side,
    pub levels: Vec<PriceLevel>,
}

impl View for SideBook {
    type V = Seq<LevelView>;

    open spec fn view(&self) -> Seq<LevelView> {
        self.levels@.map_values(|l: PriceLevel| l@)
    }
}

/// `a` is a strictly better price than `b` for the side that rests there:
/// higher for bids, lower for asks.
pub open spec fn better(side: Side, a: u64, b: u64) -> bool {
    if side == Side::Buy {
        a > b
    } else {
        a < b
    }
}

/// Prices strictly improve towards the end, no queue is empty, and every
/// order is a resting limit order of this side at its level's price.
pub open spec fn levels_wf(side: Side, levels: Seq<LevelView>) -> bool {
    &&& forall|i: int, j: int|
        0 <= i < j < levels.len() ==> better(side, #[trigger] levels[j].price, #[trigger] levels[i].price)
    &&& forall|i: int| 0 <= i < levels.len() ==> (#[trigger] levels[i]).orders.len() > 0
    &&& forall|i: int, k: int|
        0 <= i < levels.len() && 0 <= k < levels[i].orders.len() ==> rests_at(
            #[trigger] levels[i].orders[k],
            side,
            levels[i].price,
        )
}

pub open spec fn has_price(levels: Seq<LevelView>, price: u64) -> bool {
    exists|j: int| 0 <= j < levels.len() && (#[trigger] levels[j]).price == price
}

/// The side after `o` joins the tail of the queue at `price`, which is created
/// at its place in price order if absent.
pub open spec fn insert_resting(levels: Seq<LevelView>, side: Side, price: u64, o: Order) -> Seq<LevelView>
    decreases levels.len(),
{
    if levels.len() == 0 {
        seq![LevelView { price, orders: seq![o] }]
    } else if levels.last().price == price {
        levels.drop_last().push(LevelView { price, orders: levels.last().orders.push(o) })
    } else if better(side, price, levels.last().price) {
        levels.push(LevelView { price, orders: seq![o] })
    } else {
        insert_resting(levels.drop_last(), side, price, o).push(levels.last())
    }
}

impl SideBook {
    pub open spec fn wf(&self) -> bool {
        levels_wf(self.side, self@)
    }

    pub fn new(side: Side) -> (r: SideBook)
        ensures
            r.side == side,
            r@ == Seq::<LevelView>::empty(),
            r.wf(),
    {
        let r = SideBook { side, levels: Vec::new() };
        assert(r@ =~= Seq::<LevelView>::empty());
        r
    }

    /// Whether no order rests on this side.
    pub fn is_empty(&self) -> (r: bool)
        ensures
            r == (self@.len() == 0),
    {
        self.levels.len() == 0
    }

    /// The number of price levels.
    pub fn len(&self) -> (r: usize)
        ensures
            r == self@.len(),
    {
        self.levels.len()
    }

    /// The queue at `price`, if any order rests there.
    pub fn get(&self, price: &u64) -> (r: Option<&VecDeque<Order>>)
        ensures
            match r {
                Some(q) => exists|j: int|
                    0 <= j < self@.len() && self@[j].price == *price && self@[j].orders == q@,
                None => !has_price(self@, *price),
            },
    {
        let n: usize = self.levels.len();
        let mut i: usize = 0;
        while i < n
            invariant
                n == self@.len(),
                i <= n,
                forall|j: int| 0 <= j < i ==> self@[j].price != *price,
            decreases n - i,
        {
            if self.levels[i].price == *price {
                assert(self@[i as int].price == *price);
                return Some(&self.levels[i].orders);
            }
            i = i + 1;
        }
        None
    }

    /// Appends `o` to the tail of the queue at `price`, creating the level if absent.
    pub fn add_resting(&mut self, price: u64, o: Order)
        requires
            old(self).wf(),
            rests_at(o, old(self).side, price),
        ensures
            final(self).side == old(self).side,
            final(self)@ == insert_resting(old(self)@, old(self).side, price, o),
            final(self).wf(),
    {
        let side = self.side;
        insert_level(&mut self.levels, side, price, o);
    }
}

fn insert_level(levels: &mut Vec<PriceLevel>, side: Side, price: u64, o: Order)
    requires
        levels_wf(side, old(levels)@.map_values(|l: PriceLevel| l@)),
        rests_at(o, side, price),
    ensures
        ({
            let before = old(levels)@.map_values(|l: PriceLevel| l@);
            let after = final(levels)@.map_values(|l: PriceLevel| l@);
            &&& after == insert_resting(before, side, price, o)
            &&& levels_wf(side, after)
            &&& forall|i: int|
                0 <= i < after.len() ==> (#[trigger] after[i]).price == price || has_price(
                    before,
                    after[i].price,
                )
        }),
    decreases old(levels)@.len(),
{
    let ghost before = levels@.map_values(|l: PriceLevel| l@);
    match levels.pop() {
        None => {
            let mut q: VecDeque<Order> = VecDeque::new();
            q.push_back(o);
            levels.push(PriceLevel { price, orders: q });
            let ghost after = levels@.map_values(|l: PriceLevel| l@);
            assert(after =~= seq![LevelView { price, orders: seq![o] }]);
            assert(levels_wf(side, after));
        },
        Some(mut last) => {
            let ghost rest = levels@.map_values(|l: PriceLevel| l@);
            assert(rest =~= before.drop_last());
            assert(last@ == before.last());
            if last.price == price {
                last.orders.push_back(o);
                levels.push(last);
                let ghost after = levels@.map_values(|l: PriceLevel| l@);
                assert(after =~= rest.push(last@));
                let ghost lq = before.last().orders.push(o);
                assert(after[after.len() - 1].orders =~= lq);
                assert forall|i: int| 0 <= i < after.len() implies (#[trigger] after[i]).price == before[i].price by {}
                assert forall|i: int, k: int|
                    0 <= i < after.len() && 0 <= k < after[i].orders.len() implies rests_at(
                    #[trigger] after[i].orders[k],
                    side,
                    after[i].price,
                ) by {
                    if i == after.len() - 1 && k < lq.len() - 1 {
                        assert(after[i].orders[k] == before[i].orders[k]);
                    }
                }
                assert(levels_wf(side, after));
                assert forall|i: int| 0 <= i < after.len() implies has_price(before, (#[trigger] after[i]).price) by {
                    assert(before[i].price == after[i].price);
                }
            } else if (side == Side::Buy && price > last.price) || (side == Side::Sell && price < last.price) {
                levels.push(last);
                let mut q: VecDeque<Order> = VecDeque::new();
                q.push_back(o);
                levels.push(PriceLevel { price, orders: q });
                let ghost after = levels@.map_values(|l: PriceLevel| l@);
                assert(after =~= before.push(LevelView { price, orders: seq![o] }));
                assert forall|i: int| 0 <= i < before.len() implies better(side, price, (#[trigger] before[i]).price) by {
                    if i < before.len() - 1 {
                        assert(better(side, before[before.len() - 1].price, before[i].price));
                    }
                }
                assert(levels_wf(side, after));
                assert forall|i: int| 0 <= i < after.len() - 1 implies has_price(before, (#[trigger] after[i]).price) by {
                    assert(before[i].price == after[i].price);
                }
            } else {
                insert_level(levels, side, price, o);
                let ghost mid = levels@.map_values(|l: PriceLevel| l@);
                levels.push(last);
                let ghost after = levels@.map_values(|l: PriceLevel| l@);
                assert(after =~= mid.push(last@));
                assert forall|i: int| 0 <= i < mid.len() implies better(side, last.price, (#[trigger] mid[i]).price) by {
                    if mid[i].price != price {
                        let j = choose|j: int| 0 <= j < rest.len() && (#[trigger] rest[j]).price == mid[i].price;
                        assert(before[j].price == rest[j].price);
                        assert(better(side, before[before.len() - 1].price, before[j].price));
                    }
                }
                assert(levels_wf(side, after));
                assert forall|i: int| 0 <= i < after.len() implies (#[trigger] after[i]).price == price || has_price(before, after[i].price) by {
                    if i < mid.len() as int {
                        if mid[i].price != price {
                            let j = choose|j: int| 0 <= j < rest.len() && (#[trigger] rest[j]).price == mid[i].price;
                            assert(before[j].price == rest[j].price);
                        }
                    } else {
                        assert(before[before.len() - 1].price == after[i].price);
                    }
                }
            }
        },
    }
}

} // verus!
